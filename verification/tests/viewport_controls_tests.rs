use skeletal_animation_plugin::viewport_controls::{
    fly_key, DragMode, FlyKey, PointerButton, PressAction, ViewportControls,
};

#[test]
fn key_names_map_to_directions() {
    assert_eq!(fly_key("w"), Some(FlyKey::Forward));
    assert_eq!(fly_key("W"), Some(FlyKey::Forward));
    assert_eq!(fly_key("S"), Some(FlyKey::Backward));
    assert_eq!(fly_key("a"), Some(FlyKey::Left));
    assert_eq!(fly_key("d"), Some(FlyKey::Right));
    assert_eq!(fly_key("space"), Some(FlyKey::Up));
    assert_eq!(fly_key(" "), Some(FlyKey::Up));
    assert_eq!(fly_key("shift_r"), Some(FlyKey::Down));
    assert_eq!(fly_key("q"), None);
    assert_eq!(fly_key("ww"), None);
    assert_eq!(fly_key(""), None);
}

#[test]
fn mouse_buttons_start_gestures() {
    let mut c = ViewportControls::new();
    assert_eq!(c.mouse_down(PointerButton::Right, false), PressAction::StartDrag);
    assert_eq!(c.drag_mode, DragMode::Look);
    c.mouse_up();
    assert_eq!(c.mouse_down(PointerButton::Right, true), PressAction::StartDrag);
    assert_eq!(c.drag_mode, DragMode::Zoom);
    c.mouse_up();
    assert_eq!(c.mouse_down(PointerButton::Middle, false), PressAction::StartDrag);
    assert_eq!(c.drag_mode, DragMode::Pan);
    c.mouse_up();
    assert_eq!(c.mouse_down(PointerButton::Left, true), PressAction::StartDrag);
    assert_eq!(c.drag_mode, DragMode::Orbit);
    c.mouse_up();
    assert_eq!(c.mouse_down(PointerButton::Left, false), PressAction::SelectBone);
    assert_eq!(c.drag_mode, DragMode::Idle);
    assert_eq!(c.mouse_down(PointerButton::Other, false), PressAction::Ignore);
    assert_eq!(c.drag_mode, DragMode::Idle);
}

#[test]
fn keys_fly_only_while_looking() {
    let mut c = ViewportControls::new();
    assert!(!c.key_down("w"));
    assert_eq!(c.fly_direction(), None);
    c.mouse_down(PointerButton::Right, false);
    assert!(c.key_down("w"));
    assert!(c.key_down("d"));
    assert!(!c.key_down("x"));
    assert_eq!(c.fly_direction(), Some((1, 1, 0)));
    assert!(c.key_down("s"));
    assert_eq!(c.fly_direction(), Some((0, 1, 0)));
    assert!(c.key_up("w"));
    assert_eq!(c.fly_direction(), Some((-1, 1, 0)));
    assert!(c.modifiers_changed(true));
    assert!(!c.modifiers_changed(true));
    assert_eq!(c.fly_direction(), Some((-1, 1, -1)));
    c.mouse_up();
    assert_eq!(c.fly_direction(), None);
    assert!(!c.keys.backward && !c.keys.right && !c.keys.down);
}

#[test]
fn releasing_a_key_outside_look_mode_still_counts() {
    let mut c = ViewportControls::new();
    c.mouse_down(PointerButton::Middle, false);
    assert!(c.key_up("a"));
    assert!(!c.modifiers_changed(true));
    assert!(!c.keys.down);
}
