use skeletal_animation_plugin::animation::{AnimationClip, BoneTrack, Keyframe};
use skeletal_animation_plugin::editor::{HierarchyRow, RowShade, SkeletalAnimEditorPanel};
use skeletal_animation_plugin::skeleton::{Bone, Skeleton};

fn bone(id: &str, parent: Option<&str>, pose: u32) -> Bone<u32> {
    Bone { id: id.to_string(), name: format!("{}!", id), parent: parent.map(|p| p.to_string()), bind_transform: pose }
}

fn editor() -> SkeletalAnimEditorPanel<u32> {
    let skeleton = Skeleton {
        bones: vec![
            bone("root", None, 100),
            bone("pelvis", Some("root"), 101),
            bone("thigh", Some("pelvis"), 102),
            bone("shin", Some("thigh"), 103),
            bone("spine", Some("pelvis"), 104),
        ],
    };
    let clip = AnimationClip {
        name: "Run".to_string(),
        duration: 600_000,
        fps_milli: 30_000,
        tracks: vec![BoneTrack {
            bone_id: "pelvis".to_string(),
            keyframes: vec![Keyframe { time: 0, transform: 1 }, Keyframe { time: 300_000, transform: 2 }],
        }],
    };
    SkeletalAnimEditorPanel::new(skeleton, clip)
}

fn key(id: &str, i: usize) -> (String, usize) {
    (id.to_string(), i)
}

fn times(e: &SkeletalAnimEditorPanel<u32>, id: &str) -> Vec<i64> {
    e.animation.track(id).map(|t| t.keyframes.iter().map(|k| k.time).collect()).unwrap_or_default()
}

#[test]
fn new_editor_defaults() {
    let e = editor();
    assert_eq!(e.play_range, (0, 18));
    assert_eq!(e.expanded_bones, vec!["root".to_string()]);
    assert!(e.selected_bone.is_none());
    assert!(e.selected_keyframe.is_none());
    assert!(e.selected_keyframes.is_empty());
    assert_eq!(e.playback.time, 0);
    assert!(!e.playback.playing);
    assert!(!e.is_dirty);
}

#[test]
fn new_editor_play_range_rounds_and_clamps() {
    let s = Skeleton::<u32> { bones: vec![] };
    let clip = |duration: i64, fps: u32| AnimationClip::<u32> { name: String::new(), duration, fps_milli: fps * 1000, tracks: vec![] };
    assert_eq!(SkeletalAnimEditorPanel::new(Skeleton { bones: vec![] }, clip(1_016_666, 30)).play_range, (0, 30));
    assert_eq!(SkeletalAnimEditorPanel::new(Skeleton { bones: vec![] }, clip(1_016_667, 30)).play_range, (0, 31));
    assert_eq!(SkeletalAnimEditorPanel::new(Skeleton { bones: vec![] }, clip(-5_000_000, 30)).play_range, (0, 0));
    assert_eq!(SkeletalAnimEditorPanel::new(Skeleton { bones: vec![] }, clip(i64::MAX, 60)).play_range, (0, i32::MAX));
    let e = SkeletalAnimEditorPanel::new(s, clip(1, 0));
    assert_eq!(e.play_range, (0, 0));
    assert!(e.expanded_bones.is_empty());
}

#[test]
fn select_bone_expands_ancestors_and_resyncs_keyframe() {
    let mut e = editor();
    e.select_bone(Some("shin".to_string()));
    assert_eq!(e.selected_bone, Some("shin".to_string()));
    assert_eq!(e.expanded_bones, vec!["root".to_string(), "thigh".to_string(), "pelvis".to_string()]);
    assert!(e.selected_keyframe.is_none());
    e.select_bone(Some("pelvis".to_string()));
    // pelvis is keyed at time 0.
    assert_eq!(e.selected_keyframe, Some(key("pelvis", 0)));
    assert_eq!(e.selected_keyframes, vec![key("pelvis", 0)]);
    e.select_bone(None);
    assert!(e.selected_bone.is_none());
    assert!(e.selected_keyframe.is_none());
    assert!(e.selected_keyframes.is_empty());
}

#[test]
fn expand_ancestors_stops_on_a_parent_loop() {
    let skeleton = Skeleton { bones: vec![bone("a", Some("b"), 0), bone("b", Some("a"), 0)] };
    let clip = AnimationClip { name: String::new(), duration: 0, fps_milli: 30_000, tracks: vec![] };
    let mut e = SkeletalAnimEditorPanel::new(skeleton, clip);
    e.select_bone(Some("a".to_string()));
    assert_eq!(e.expanded_bones, vec!["b".to_string(), "a".to_string()]);
}

#[test]
fn insert_keyframe_without_selection_does_nothing() {
    let mut e = editor();
    e.insert_keyframe(5);
    assert_eq!(e.animation.tracks.len(), 1);
    assert!(!e.is_dirty);
}

#[test]
fn insert_keyframe_creates_track_and_selects_it() {
    let mut e = editor();
    e.select_bone(Some("spine".to_string()));
    e.seek(200_000);
    e.insert_keyframe(55);
    assert!(e.is_dirty);
    assert_eq!(e.animation.tracks.len(), 2);
    assert_eq!(e.animation.tracks[1].bone_id, "spine");
    assert_eq!(times(&e, "spine"), vec![200_000]);
    assert_eq!(e.selected_keyframe, Some(key("spine", 0)));
    assert_eq!(e.keyframe_at_playhead("spine"), Some(0));
    assert_eq!(e.current_transform(), Some(&55));
}

#[test]
fn insert_keyframe_keeps_times_ordered_and_replaces_near_ones() {
    let mut e = editor();
    e.select_bone(Some("pelvis".to_string()));
    e.seek(100_000);
    e.insert_keyframe(9);
    assert_eq!(times(&e, "pelvis"), vec![0, 100_000, 300_000]);
    assert_eq!(e.selected_keyframe, Some(key("pelvis", 1)));
    // Within a tenth of a millisecond: replaced in place, time kept.
    e.seek(300_050);
    e.insert_keyframe(10);
    assert_eq!(times(&e, "pelvis"), vec![0, 100_000, 300_000]);
    assert_eq!(e.animation.tracks[0].keyframes[2].transform, 10);
    assert_eq!(e.selected_keyframe, Some(key("pelvis", 2)));
    assert_eq!(e.keyframe_at_playhead("pelvis"), Some(2));
}

#[test]
fn insert_then_delete_at_playhead_restores_tracks() {
    let mut e = editor();
    e.select_bone(Some("pelvis".to_string()));
    e.seek(150_000);
    e.insert_keyframe(3);
    assert_eq!(times(&e, "pelvis"), vec![0, 150_000, 300_000]);
    e.delete_keyframe_at_playhead();
    assert_eq!(times(&e, "pelvis"), vec![0, 300_000]);
    assert!(e.selected_keyframe.is_none());

    e.select_bone(Some("thigh".to_string()));
    e.insert_keyframe(4);
    assert_eq!(e.animation.tracks.len(), 2);
    e.delete_keyframe_at_playhead();
    assert_eq!(e.animation.tracks.len(), 1);
    assert_eq!(e.animation.tracks[0].bone_id, "pelvis");
}

#[test]
fn delete_keyframe_at_playhead_without_key_does_nothing() {
    let mut e = editor();
    e.delete_keyframe_at_playhead();
    e.select_bone(Some("pelvis".to_string()));
    e.seek(50_000);
    let before = times(&e, "pelvis");
    e.is_dirty = false;
    e.delete_keyframe_at_playhead();
    assert_eq!(times(&e, "pelvis"), before);
    assert!(!e.is_dirty);
}

#[test]
fn toggle_keyframe_selection_twice_restores() {
    let mut e = editor();
    e.select_keyframe(Some(key("pelvis", 0)));
    e.toggle_keyframe_selection(key("pelvis", 1));
    assert_eq!(e.selected_keyframes, vec![key("pelvis", 0), key("pelvis", 1)]);
    assert_eq!(e.selected_keyframe, Some(key("pelvis", 0)));
    e.toggle_keyframe_selection(key("pelvis", 0));
    assert_eq!(e.selected_keyframes, vec![key("pelvis", 1)]);
    assert_eq!(e.selected_keyframe, Some(key("pelvis", 1)));
    e.toggle_keyframe_selection(key("pelvis", 0));
    e.toggle_keyframe_selection(key("pelvis", 0));
    assert_eq!(e.selected_keyframes, vec![key("pelvis", 1)]);
    e.toggle_keyframe_selection(key("pelvis", 1));
    assert!(e.selected_keyframes.is_empty());
    assert!(e.selected_keyframe.is_none());
}

#[test]
fn set_selected_keyframes_replaces_or_merges() {
    let mut e = editor();
    e.set_selected_keyframes(vec![key("a", 1), key("b", 2), key("a", 1)], false);
    assert_eq!(e.selected_keyframes, vec![key("a", 1), key("b", 2)]);
    assert_eq!(e.selected_keyframe, Some(key("a", 1)));
    e.set_selected_keyframes(vec![key("b", 2), key("c", 0)], true);
    assert_eq!(e.selected_keyframes, vec![key("a", 1), key("b", 2), key("c", 0)]);
    e.set_selected_keyframes(vec![], false);
    assert!(e.selected_keyframes.is_empty());
    assert!(e.selected_keyframe.is_none());
}

#[test]
fn delete_selected_keyframes_across_tracks() {
    let mut e = editor();
    e.select_bone(Some("spine".to_string()));
    e.seek(100_000);
    e.insert_keyframe(1);
    e.seek(200_000);
    e.insert_keyframe(2);
    e.set_selected_keyframes(vec![key("pelvis", 1), key("spine", 0), key("spine", 1), key("spine", 7)], false);
    e.is_dirty = false;
    e.delete_selected_keyframes();
    assert!(e.is_dirty);
    assert_eq!(e.animation.tracks.len(), 1);
    assert_eq!(times(&e, "pelvis"), vec![0]);
    assert!(e.selected_keyframes.is_empty());
    assert!(e.selected_keyframe.is_none());
}

#[test]
fn delete_selected_keyframes_with_nothing_selected_does_nothing() {
    let mut e = editor();
    e.delete_selected_keyframes();
    assert!(!e.is_dirty);
    assert_eq!(times(&e, "pelvis"), vec![0, 300_000]);
}

#[test]
fn seek_clamps_to_play_range() {
    let mut e = editor();
    assert_eq!(e.play_range_ticks(), (0, 633_333));
    e.seek(-5);
    assert_eq!(e.playback.time, 0);
    e.seek(1_000_000_000);
    assert_eq!(e.playback.time, 633_333);
    e.set_play_range_start(-1);
    e.set_play_range_end(10);
    assert_eq!(e.play_range, (-1, 10));
    assert_eq!(e.play_range_ticks(), (-33_334, 366_666));
    e.set_play_range_end(-5);
    assert_eq!(e.play_range_ticks(), (-33_334, -33_334));
}

#[test]
fn playback_loops_within_the_range() {
    let mut e = editor();
    assert!(!e.advance_playhead(16_000));
    assert_eq!(e.playback.time, 0);
    e.toggle_play();
    assert!(e.playback.playing);
    e.seek(600_000);
    assert!(e.advance_playhead(16_000));
    assert_eq!(e.playback.time, 616_000);
    assert!(e.advance_playhead(16_000));
    assert_eq!(e.playback.time, 632_000);
    assert!(e.advance_playhead(16_000));
    assert_eq!(e.playback.time, 648_000 % 633_333);
    e.toggle_play();
    assert!(!e.playback.playing);
}

#[test]
fn playback_in_a_tiny_range_uses_a_millisecond_span() {
    let mut e = editor();
    e.animation.fps_milli = 1_000_000_000;
    e.set_play_range_start(0);
    e.set_play_range_end(0);
    assert_eq!(e.play_range_ticks(), (0, 1));
    e.toggle_play();
    e.advance_playhead(16_000);
    assert_eq!(e.playback.time, 16_000 % 1000);
}

#[test]
fn expanded_bones_toggle() {
    let mut e = editor();
    assert!(e.is_bone_expanded("root"));
    e.toggle_bone_expanded("root");
    assert!(!e.is_bone_expanded("root"));
    e.toggle_bone_expanded("pelvis");
    e.toggle_bone_expanded("root");
    assert_eq!(e.expanded_bones, vec!["pelvis".to_string(), "root".to_string()]);
}

#[test]
fn current_transform_prefers_keyframe_then_bind_pose() {
    let mut e = editor();
    assert_eq!(e.current_transform(), None);
    e.select_bone(Some("thigh".to_string()));
    assert_eq!(e.current_transform(), Some(&102));
    e.select_keyframe(Some(key("pelvis", 1)));
    assert_eq!(e.current_transform(), Some(&2));
    e.select_keyframe(Some(key("pelvis", 9)));
    assert_eq!(e.current_transform(), Some(&102));
    e.select_bone(Some("nope".to_string()));
    assert_eq!(e.current_transform(), None);
}

#[test]
fn apply_transform_inputs_writes_keyframe_or_bind_pose() {
    let mut e = editor();
    e.apply_transform_inputs(7);
    assert!(!e.is_dirty);
    e.select_bone(Some("spine".to_string()));
    e.apply_transform_inputs(77);
    assert!(e.is_dirty);
    assert_eq!(e.skeleton.bones[4].bind_transform, 77);
    assert_eq!(e.current_transform(), Some(&77));
    e.select_bone(Some("pelvis".to_string()));
    assert_eq!(e.selected_keyframe, Some(key("pelvis", 0)));
    e.apply_transform_inputs(5);
    assert_eq!(e.animation.tracks[0].keyframes[0].transform, 5);
    assert_eq!(e.skeleton.bones[1].bind_transform, 101);
    assert_eq!(e.current_transform(), Some(&5));
    // A stale keyframe selection writes nothing, not even the bind pose.
    e.select_keyframe(Some(key("pelvis", 40)));
    e.is_dirty = false;
    e.apply_transform_inputs(6);
    assert!(!e.is_dirty);
    assert_eq!(e.skeleton.bones[1].bind_transform, 101);
}

fn row(id: &str, depth: usize, has_children: bool, is_expanded: bool, is_selected: bool) -> HierarchyRow {
    HierarchyRow { bone_id: id.to_string(), name: format!("{}!", id), depth, has_children, is_expanded, is_selected }
}

fn rows_eq(a: &[HierarchyRow], b: &[HierarchyRow]) -> bool {
    a.len() == b.len()
        && a.iter().zip(b).all(|(x, y)| {
            x.bone_id == y.bone_id
                && x.name == y.name
                && x.depth == y.depth
                && x.has_children == y.has_children
                && x.is_expanded == y.is_expanded
                && x.is_selected == y.is_selected
        })
}

#[test]
fn hierarchy_rows_hide_collapsed_subtrees() {
    let mut e = editor();
    assert!(rows_eq(
        &e.hierarchy_rows(),
        &[row("root", 0, true, true, false), row("pelvis", 1, true, false, false)]
    ));
    e.select_bone(Some("thigh".to_string()));
    assert!(rows_eq(
        &e.hierarchy_rows(),
        &[
            row("root", 0, true, true, false),
            row("pelvis", 1, true, true, false),
            row("thigh", 2, true, false, true),
            row("spine", 2, false, false, false),
        ]
    ));
}

#[test]
fn indicator_state_and_labels() {
    let mut e = editor();
    assert_eq!(e.keyframe_indicator_state(), (false, false));
    assert!(e.selected_bone_name().is_none());
    e.select_bone(Some("pelvis".to_string()));
    assert_eq!(e.keyframe_indicator_state(), (true, false));
    assert_eq!(e.selected_bone_name().map(|s| s.as_str()), Some("pelvis!"));
    e.seek(100_000);
    assert_eq!(e.keyframe_indicator_state(), (false, true));
    e.select_bone(Some("spine".to_string()));
    assert_eq!(e.keyframe_indicator_state(), (false, false));
    assert_eq!(e.track_label(0), "pelvis!");
    e.animation.tracks.push(BoneTrack { bone_id: "ghost".to_string(), keyframes: vec![] });
    assert_eq!(e.track_label(1), "ghost");
}

#[test]
fn playhead_frame_rounds_half_away_from_zero() {
    let mut e = editor();
    e.playback.time = 50_000; // 1.5 frames at 30 fps
    assert_eq!(e.playhead_frame(), 2);
    e.playback.time = -50_000;
    assert_eq!(e.playhead_frame(), -2);
    e.playback.time = 49_999;
    assert_eq!(e.playhead_frame(), 1);
    e.playback.time = i64::MAX;
    assert_eq!(e.playhead_frame(), i32::MAX);
    e.animation.fps_milli = 0;
    e.playback.time = 2_600_000;
    assert_eq!(e.playhead_frame(), 3);
}

#[test]
fn click_keyframe_selects_bone_and_key() {
    let mut e = editor();
    e.seek(300_000);
    e.click_keyframe(key("pelvis", 1), false);
    assert_eq!(e.selected_bone, Some("pelvis".to_string()));
    assert_eq!(e.expanded_bones, vec!["root".to_string()]);
    assert_eq!(e.selected_keyframe, Some(key("pelvis", 1)));
    assert_eq!(e.selected_keyframes, vec![key("pelvis", 1)]);
}

#[test]
fn shift_click_keyframe_toggles_it() {
    let mut e = editor();
    e.click_keyframe(key("pelvis", 0), false);
    e.click_keyframe(key("pelvis", 1), true);
    assert_eq!(e.selected_keyframes, vec![key("pelvis", 0), key("pelvis", 1)]);
    assert_eq!(e.selected_keyframe, Some(key("pelvis", 0)));
    e.click_keyframe(key("pelvis", 0), true);
    assert_eq!(e.selected_keyframes, vec![key("pelvis", 1)]);
    assert_eq!(e.selected_keyframe, Some(key("pelvis", 1)));
    // The bone selection is left alone by a shift-click.
    assert_eq!(e.selected_bone, Some("pelvis".to_string()));
}

#[test]
fn box_select_replaces_merges_or_clears() {
    let mut e = editor();
    e.finish_box_select(vec![key("pelvis", 1)], true, false);
    assert_eq!(e.selected_keyframes, vec![key("pelvis", 1)]);
    e.finish_box_select(vec![key("pelvis", 0), key("pelvis", 1)], true, true);
    assert_eq!(e.selected_keyframes, vec![key("pelvis", 1), key("pelvis", 0)]);
    assert_eq!(e.selected_keyframe, Some(key("pelvis", 1)));
    // A shift-click without a drag keeps the selection.
    e.finish_box_select(vec![], false, true);
    assert_eq!(e.selected_keyframes, vec![key("pelvis", 1), key("pelvis", 0)]);
    // A plain click without a drag clears it.
    e.finish_box_select(vec![key("pelvis", 0)], false, false);
    assert!(e.selected_keyframes.is_empty());
    assert!(e.selected_keyframe.is_none());
}

#[test]
fn timeline_rows_shade_and_mark_selection() {
    let mut e = editor();
    e.animation.tracks.push(BoneTrack {
        bone_id: "spine".to_string(),
        keyframes: vec![Keyframe { time: 100_000, transform: 5 }],
    });
    e.animation.tracks.push(BoneTrack { bone_id: "shin".to_string(), keyframes: vec![] });
    let rows = e.timeline_rows();
    assert_eq!(rows.len(), 3);
    assert_eq!(rows[0].shade, RowShade::Even);
    assert_eq!(rows[1].shade, RowShade::Odd);
    assert_eq!(rows[2].shade, RowShade::Even);
    assert_eq!(rows[0].keys, vec![(0, false), (300_000, false)]);
    assert_eq!(rows[1].keys, vec![(100_000, false)]);
    assert!(rows[2].keys.is_empty());

    e.select_bone(Some("spine".to_string()));
    e.finish_box_select(vec![key("pelvis", 1), key("spine", 0)], true, false);
    let rows = e.timeline_rows();
    assert_eq!(rows[0].shade, RowShade::Even);
    assert_eq!(rows[1].shade, RowShade::Selected);
    assert_eq!(rows[0].keys, vec![(0, false), (300_000, true)]);
    assert_eq!(rows[1].keys, vec![(100_000, true)]);
}

#[test]
fn key_button_inserts_then_removes() {
    let mut e = editor();
    e.select_bone(Some("thigh".to_string()));
    e.seek(100_000);
    e.press_key_button(7);
    assert_eq!(times(&e, "thigh"), vec![100_000]);
    assert_eq!(e.selected_keyframe, Some(key("thigh", 0)));
    e.press_key_button(8);
    assert!(e.animation.track("thigh").is_none());
    assert_eq!(e.animation.tracks.len(), 1);
    assert!(e.selected_keyframe.is_none());
}

#[test]
fn tree_folder_click_toggles_and_selects() {
    let mut e = editor();
    e.click_tree_folder("pelvis".to_string());
    assert_eq!(e.selected_bone, Some("pelvis".to_string()));
    assert!(e.is_bone_expanded("pelvis"));
    assert!(e.is_bone_expanded("root"));
    assert_eq!(e.selected_keyframe, Some(key("pelvis", 0)));
    e.click_tree_folder("pelvis".to_string());
    assert!(!e.is_bone_expanded("pelvis"));
    assert!(e.is_bone_expanded("root"));
    e.click_tree_folder("root".to_string());
    assert!(!e.is_bone_expanded("root"));
    assert_eq!(e.selected_bone, Some("root".to_string()));
    assert!(e.selected_keyframe.is_none());
}

#[test]
fn fractional_frame_rates_keep_their_fraction() {
    let clip = |fps_milli: u32| AnimationClip::<u32> {
        name: String::new(),
        duration: 16_700_000,
        fps_milli,
        tracks: vec![],
    };
    let mut ntsc = SkeletalAnimEditorPanel::new(Skeleton { bones: vec![] }, clip(29_970));
    let whole = SkeletalAnimEditorPanel::new(Skeleton { bones: vec![] }, clip(30_000));
    assert_eq!(ntsc.play_range, (0, 500));
    assert_eq!(whole.play_range, (0, 501));
    // The range ends after frame 500: 501 frames of 1/29.97 s.
    assert_eq!(ntsc.play_range_ticks(), (0, 16_716_716));
    ntsc.playback.time = 16_700_000;
    assert_eq!(ntsc.playhead_frame(), 500);
}

#[test]
fn keyframe_number_counts_from_one() {
    let mut e = editor();
    assert_eq!(e.keyframe_number(), None);
    e.select_keyframe(Some(key("pelvis", 1)));
    assert_eq!(e.keyframe_number(), Some(2));
    e.select_keyframe(Some(key("pelvis", 0)));
    assert_eq!(e.keyframe_number(), Some(1));
}

#[test]
fn selecting_a_deep_bone_makes_its_row_visible() {
    let mut e = editor();
    assert!(!e.hierarchy_rows().iter().any(|r| r.bone_id == "shin"));
    e.select_bone(Some("shin".to_string()));
    let rows = e.hierarchy_rows();
    let shin: Vec<&HierarchyRow> = rows.iter().filter(|r| r.bone_id == "shin").collect();
    assert_eq!(shin.len(), 1);
    assert!(shin[0].is_selected);
    assert_eq!(shin[0].depth, 3);
}
