//! Viewport camera controls: which drag gesture a mouse button starts, and
//! which fly-mode movement keys are held while looking around.
//!
//! | Input                | Gesture                             |
//! |----------------------|-------------------------------------|
//! | RMB + drag           | Look (fly mode: WASD, space, shift) |
//! | Alt + RMB + drag     | Zoom / dolly                        |
//! | MMB + drag           | Pan                                 |
//! | Alt + LMB + drag     | Orbit around the target             |
//! | LMB click            | Select the bone under the cursor    |

use vstd::prelude::*;

verus! {

/// Which drag gesture is currently active.
#[derive(PartialEq, Eq, Structural, Clone, Copy, Debug)]
pub enum DragMode {
    Idle,
    /// FPS-style look: the eye stays fixed and the movement keys fly.
    Look,
    /// Translate the camera laterally.
    Pan,
    /// Orbit the eye around a fixed target.
    Orbit,
    /// Adjust the distance to the target.
    Zoom,
}

/// A mouse button.
#[derive(PartialEq, Eq, Structural, Clone, Copy, Debug)]
pub enum PointerButton {
    Left,
    Right,
    Middle,
    Other,
}

/// What the panel does after a mouse button goes down.
#[derive(PartialEq, Eq, Structural, Clone, Copy, Debug)]
pub enum PressAction {
    /// Remember the cursor position as the start of a drag.
    StartDrag,
    /// Pick the bone nearest to the cursor.
    SelectBone,
    /// Nothing.
    Ignore,
}

/// A fly-mode movement direction.
#[derive(PartialEq, Eq, Structural, Clone, Copy, Debug)]
pub enum FlyKey {
    Forward,
    Backward,
    Left,
    Right,
    Up,
    Down,
}

/// Which movement keys are held.
#[derive(PartialEq, Eq, Structural, Clone, Copy, Debug)]
pub struct FlyKeys {
    pub forward: bool,
    pub backward: bool,
    pub left: bool,
    pub right: bool,
    pub up: bool,
    pub down: bool,
}

/// The viewport's gesture state.
#[derive(PartialEq, Eq, Structural, Clone, Copy, Debug)]
pub struct ViewportControls {
    pub drag_mode: DragMode,
    pub keys: FlyKeys,
}

/// No movement key held.
pub open spec fn no_keys() -> FlyKeys {
    FlyKeys { forward: false, backward: false, left: false, right: false, up: false, down: false }
}

/// The movement direction a key name stands for: W/S forward and back, A/D
/// left and right, space up, shift down.
pub open spec fn fly_key_spec(key: Seq<char>) -> Option<FlyKey> {
    if key == "w"@ || key == "W"@ {
        Some(FlyKey::Forward)
    } else if key == "s"@ || key == "S"@ {
        Some(FlyKey::Backward)
    } else if key == "a"@ || key == "A"@ {
        Some(FlyKey::Left)
    } else if key == "d"@ || key == "D"@ {
        Some(FlyKey::Right)
    } else if key == "space"@ || key == " "@ {
        Some(FlyKey::Up)
    } else if key == "shift"@ || key == "shift_l"@ || key == "shift_r"@ {
        Some(FlyKey::Down)
    } else {
        None
    }
}

/// `keys` with the flag of `k` set to `held`.
pub open spec fn with_key(keys: FlyKeys, k: FlyKey, held: bool) -> FlyKeys {
    match k {
        FlyKey::Forward => FlyKeys { forward: held, ..keys },
        FlyKey::Backward => FlyKeys { backward: held, ..keys },
        FlyKey::Left => FlyKeys { left: held, ..keys },
        FlyKey::Right => FlyKeys { right: held, ..keys },
        FlyKey::Up => FlyKeys { up: held, ..keys },
        FlyKey::Down => FlyKeys { down: held, ..keys },
    }
}

/// `1`, `-1` or `0` as `plus`, `minus` or both or neither are held.
pub open spec fn axis(plus: bool, minus: bool) -> i8 {
    if plus && !minus {
        1i8
    } else if minus && !plus {
        -1i8
    } else {
        0i8
    }
}

/// The movement key `key` names, if any.
pub fn fly_key(key: &str) -> (r: Option<FlyKey>)
    ensures
        r == fly_key_spec(key@),
{
    let k = key.to_owned();
    if k == "w".to_owned() || k == "W".to_owned() {
        Some(FlyKey::Forward)
    } else if k == "s".to_owned() || k == "S".to_owned() {
        Some(FlyKey::Backward)
    } else if k == "a".to_owned() || k == "A".to_owned() {
        Some(FlyKey::Left)
    } else if k == "d".to_owned() || k == "D".to_owned() {
        Some(FlyKey::Right)
    } else if k == "space".to_owned() || k == " ".to_owned() {
        Some(FlyKey::Up)
    } else if k == "shift".to_owned() || k == "shift_l".to_owned() || k == "shift_r".to_owned() {
        Some(FlyKey::Down)
    } else {
        None
    }
}

impl FlyKeys {
    /// Set the flag of `k` to `held`.
    fn set(&mut self, k: FlyKey, held: bool)
        ensures
            *final(self) == with_key(*old(self), k, held),
    {
        match k {
            FlyKey::Forward => self.forward = held,
            FlyKey::Backward => self.backward = held,
            FlyKey::Left => self.left = held,
            FlyKey::Right => self.right = held,
            FlyKey::Up => self.up = held,
            FlyKey::Down => self.down = held,
        }
    }
}

impl ViewportControls {
    /// No gesture and no key held.
    pub fn new() -> (r: Self)
        ensures
            r.drag_mode == DragMode::Idle,
            r.keys == no_keys(),
    {
        ViewportControls {
            drag_mode: DragMode::Idle,
            keys: FlyKeys { forward: false, backward: false, left: false, right: false, up: false, down: false },
        }
    }

    /// A mouse button went down: the right button starts looking (zooming
    /// with alt), the middle one panning, the left one orbiting with alt and
    /// otherwise picks a bone.
    pub fn mouse_down(&mut self, button: PointerButton, alt: bool) -> (r: PressAction)
        ensures
            final(self).keys == old(self).keys,
            match button {
                PointerButton::Right => r == PressAction::StartDrag && final(self).drag_mode == if alt {
                    DragMode::Zoom
                } else {
                    DragMode::Look
                },
                PointerButton::Middle => r == PressAction::StartDrag && final(self).drag_mode == DragMode::Pan,
                PointerButton::Left => if alt {
                    r == PressAction::StartDrag && final(self).drag_mode == DragMode::Orbit
                } else {
                    r == PressAction::SelectBone && final(self).drag_mode == old(self).drag_mode
                },
                PointerButton::Other => r == PressAction::Ignore && final(self).drag_mode == old(self).drag_mode,
            },
    {
        match button {
            PointerButton::Right => {
                self.drag_mode = if alt {
                    DragMode::Zoom
                } else {
                    DragMode::Look
                };
                PressAction::StartDrag
            },
            PointerButton::Middle => {
                self.drag_mode = DragMode::Pan;
                PressAction::StartDrag
            },
            PointerButton::Left => {
                if alt {
                    self.drag_mode = DragMode::Orbit;
                    PressAction::StartDrag
                } else {
                    PressAction::SelectBone
                }
            },
            PointerButton::Other => PressAction::Ignore,
        }
    }

    /// A mouse button went up: the gesture ends, and leaving look mode
    /// releases every movement key.
    pub fn mouse_up(&mut self)
        ensures
            final(self).drag_mode == DragMode::Idle,
            final(self).keys == if old(self).drag_mode == DragMode::Look {
                no_keys()
            } else {
                old(self).keys
            },
    {
        if self.drag_mode == DragMode::Look {
            self.keys = FlyKeys { forward: false, backward: false, left: false, right: false, up: false, down: false };
        }
        self.drag_mode = DragMode::Idle;
    }

    /// A key went down. In look mode a movement key is held from now on.
    /// Returns whether the key was taken as a movement key.
    pub fn key_down(&mut self, key: &str) -> (changed: bool)
        ensures
            final(self).drag_mode == old(self).drag_mode,
            changed == (old(self).drag_mode == DragMode::Look && fly_key_spec(key@) is Some),
            final(self).keys == if changed {
                with_key(old(self).keys, fly_key_spec(key@)->Some_0, true)
            } else {
                old(self).keys
            },
    {
        if self.drag_mode != DragMode::Look {
            return false;
        }
        match fly_key(key) {
            Some(k) => {
                self.keys.set(k, true);
                true
            },
            None => false,
        }
    }

    /// A key went up: a movement key is released, in any mode. Returns
    /// whether the key was a movement key.
    pub fn key_up(&mut self, key: &str) -> (changed: bool)
        ensures
            final(self).drag_mode == old(self).drag_mode,
            changed == fly_key_spec(key@) is Some,
            final(self).keys == if changed {
                with_key(old(self).keys, fly_key_spec(key@)->Some_0, false)
            } else {
                old(self).keys
            },
    {
        match fly_key(key) {
            Some(k) => {
                self.keys.set(k, false);
                true
            },
            None => false,
        }
    }

    /// The shift modifier changed. Shift is reported as a modifier rather
    /// than as a key, so in look mode it drives "fly down" here. Returns
    /// whether the held keys changed.
    pub fn modifiers_changed(&mut self, shift: bool) -> (changed: bool)
        ensures
            final(self).drag_mode == old(self).drag_mode,
            changed == (old(self).drag_mode == DragMode::Look && old(self).keys.down != shift),
            final(self).keys == if changed {
                FlyKeys { down: shift, ..old(self).keys }
            } else {
                old(self).keys
            },
    {
        if self.drag_mode != DragMode::Look {
            return false;
        }
        if shift != self.keys.down {
            self.keys.down = shift;
            true
        } else {
            false
        }
    }

    /// The fly direction for one camera tick, as `(forward, right, up)`
    /// steps of -1, 0 or 1 along the camera's forward, right and world-up
    /// axes; `None` outside look mode. Opposite keys cancel.
    pub fn fly_direction(&self) -> (r: Option<(i8, i8, i8)>)
        ensures
            r == if self.drag_mode == DragMode::Look {
                Some(
                    (
                        axis(self.keys.forward, self.keys.backward),
                        axis(self.keys.right, self.keys.left),
                        axis(self.keys.up, self.keys.down),
                    ),
                )
            } else {
                None
            },
    {
        if self.drag_mode != DragMode::Look {
            return None;
        }
        Some((
            Self::axis_step(self.keys.forward, self.keys.backward),
            Self::axis_step(self.keys.right, self.keys.left),
            Self::axis_step(self.keys.up, self.keys.down),
        ))
    }

    fn axis_step(plus: bool, minus: bool) -> (r: i8)
        ensures
            r == axis(plus, minus),
    {
        if plus && !minus {
            1
        } else if minus && !plus {
            -1
        } else {
            0
        }
    }
}

/// Pressing a movement key and releasing it again leaves that key released
/// and every other key as it was.
pub proof fn law_press_then_release_key(keys: FlyKeys, k: FlyKey)
    ensures
        with_key(with_key(keys, k, true), k, false) == with_key(keys, k, false),
        with_key(keys, k, false) == keys <==> match k {
            FlyKey::Forward => !keys.forward,
            FlyKey::Backward => !keys.backward,
            FlyKey::Left => !keys.left,
            FlyKey::Right => !keys.right,
            FlyKey::Up => !keys.up,
            FlyKey::Down => !keys.down,
        },
{
}

} // verus!
