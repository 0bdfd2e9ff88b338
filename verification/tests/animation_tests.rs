use skeletal_animation_plugin::animation::{
    times_match, AnimationClip, BoneTrack, Keyframe, PoseSource, TrackSample, KEYFRAME_EPS,
    TICKS_PER_SECOND,
};
use skeletal_animation_plugin::animation::world_transform_plan;
use skeletal_animation_plugin::skeleton::{Bone, Skeleton};

fn kf(time: i64, v: u32) -> Keyframe<u32> {
    Keyframe { time, transform: v }
}

fn track(id: &str, kfs: Vec<Keyframe<u32>>) -> BoneTrack<u32> {
    BoneTrack { bone_id: id.to_string(), keyframes: kfs }
}

fn bone(id: &str, parent: Option<&str>) -> Bone<u32> {
    Bone { id: id.to_string(), name: id.to_string(), parent: parent.map(|p| p.to_string()), bind_transform: 7 }
}

#[test]
fn sample_empty_track_is_none() {
    assert_eq!(track("a", vec![]).sample(0), None);
}

#[test]
fn sample_holds_outside_the_range() {
    let t = track("a", vec![kf(100, 1), kf(200, 2), kf(400, 3)]);
    assert_eq!(t.sample(50), Some(TrackSample::Hold(0)));
    assert_eq!(t.sample(100), Some(TrackSample::Hold(0)));
    assert_eq!(t.sample(400), Some(TrackSample::Hold(2)));
    assert_eq!(t.sample(1000), Some(TrackSample::Hold(2)));
    let single = track("a", vec![kf(100, 1)]);
    assert_eq!(single.sample(5000), Some(TrackSample::Hold(0)));
}

#[test]
fn sample_blends_inside_the_range() {
    let t = track("a", vec![kf(100, 1), kf(200, 2), kf(400, 3)]);
    assert_eq!(t.sample(150), Some(TrackSample::Blend { from: 0, to: 1, elapsed: 50, span: 100 }));
    assert_eq!(t.sample(200), Some(TrackSample::Blend { from: 0, to: 1, elapsed: 100, span: 100 }));
    assert_eq!(t.sample(300), Some(TrackSample::Blend { from: 1, to: 2, elapsed: 100, span: 200 }));
}

#[test]
fn sample_boundary_time_belongs_to_first_segment() {
    let t = track("a", vec![kf(0, 1), kf(100, 2), kf(100, 3), kf(300, 4)]);
    assert_eq!(t.sample(100), Some(TrackSample::Blend { from: 0, to: 1, elapsed: 100, span: 100 }));
    let t2 = track("a", vec![kf(0, 1), kf(200, 2), kf(100, 3), kf(300, 4)]);
    // Out-of-order times: the first segment containing the time wins.
    assert_eq!(t2.sample(150), Some(TrackSample::Blend { from: 0, to: 1, elapsed: 150, span: 200 }));
}

#[test]
fn sample_unsorted_track_without_segment_holds_last() {
    let t = track("a", vec![kf(0, 1), kf(500, 2), kf(600, 3), kf(50, 4), kf(1000, 5)]);
    // 550 lies in segment 1..2.
    assert_eq!(t.sample(550), Some(TrackSample::Blend { from: 1, to: 2, elapsed: 50, span: 100 }));
    let weird = track("a", vec![kf(0, 1), kf(10, 2), kf(5, 3), kf(20, 4)]);
    assert_eq!(weird.sample(12), Some(TrackSample::Blend { from: 2, to: 3, elapsed: 7, span: 15 }));
}

#[test]
fn keyframe_near_uses_the_tolerance() {
    let t = track("a", vec![kf(0, 1), kf(1000, 2), kf(1050, 3)]);
    assert_eq!(t.keyframe_near(1000 + KEYFRAME_EPS - 1), Some(1));
    assert_eq!(t.keyframe_near(1000 - KEYFRAME_EPS + 1), Some(1));
    assert_eq!(t.keyframe_near(1000 - KEYFRAME_EPS), None);
    assert_eq!(t.keyframe_near(1120), Some(2));
    assert!(times_match(5, 5 + KEYFRAME_EPS - 1));
    assert!(!times_match(i64::MIN, i64::MAX));
}

#[test]
fn insert_position_is_before_first_later_keyframe() {
    let t = track("a", vec![kf(0, 1), kf(1000, 2), kf(2000, 3)]);
    assert_eq!(t.insert_position(500), 1);
    assert_eq!(t.insert_position(1000), 2);
    assert_eq!(t.insert_position(-5), 0);
    assert_eq!(t.insert_position(9000), 3);
}

#[test]
fn clip_track_lookup() {
    let mut clip = AnimationClip {
        name: "Run".to_string(),
        duration: 600_000,
        fps_milli: 30_000,
        tracks: vec![track("a", vec![kf(0, 1)]), track("b", vec![]), track("a", vec![kf(5, 9)])],
    };
    assert_eq!(clip.track_index("a"), Some(0));
    assert_eq!(clip.track("b").map(|t| t.keyframes.len()), Some(0));
    assert!(clip.track("c").is_none());
    if let Some(t) = clip.track_mut("a") {
        t.keyframes.push(kf(10, 2));
    }
    assert_eq!(clip.tracks[0].keyframes.len(), 2);
    assert_eq!(clip.tracks[2].keyframes.len(), 1);
    assert_eq!(TICKS_PER_SECOND, 1_000_000);
}

#[test]
fn local_transform_falls_back_to_bind_then_identity() {
    let skel = Skeleton { bones: vec![bone("a", None), bone("b", Some("a")), bone("c", Some("a"))] };
    let clip = AnimationClip {
        name: "x".to_string(),
        duration: 0,
        fps_milli: 30_000,
        tracks: vec![track("a", vec![kf(0, 1), kf(100, 2)]), track("b", vec![])],
    };
    assert_eq!(
        clip.local_transform(&skel, "a", 50),
        PoseSource::Sampled { track: 0, sample: TrackSample::Blend { from: 0, to: 1, elapsed: 50, span: 100 } }
    );
    assert_eq!(clip.local_transform(&skel, "b", 50), PoseSource::Bind(1));
    assert_eq!(clip.local_transform(&skel, "c", 50), PoseSource::Bind(2));
    assert_eq!(clip.local_transform(&skel, "zz", 50), PoseSource::Identity);
}

#[test]
fn world_plan_links_each_bone_to_its_parent_step() {
    let skel = Skeleton {
        bones: vec![bone("leaf", Some("mid")), bone("root", None), bone("mid", Some("root")), bone("other", None)],
    };
    let clip = AnimationClip { name: "x".to_string(), duration: 0, fps_milli: 30_000, tracks: vec![track("mid", vec![kf(0, 3)])] };
    let plan = world_transform_plan(&skel, &clip, 10);
    let bones: Vec<usize> = plan.iter().map(|s| s.bone).collect();
    assert_eq!(bones, vec![1, 2, 0, 3]);
    let parents: Vec<Option<usize>> = plan.iter().map(|s| s.parent_step).collect();
    assert_eq!(parents, vec![None, Some(0), Some(1), None]);
    let depths: Vec<usize> = plan.iter().map(|s| s.depth).collect();
    assert_eq!(depths, vec![0, 1, 2, 0]);
    assert_eq!(plan[1].local, PoseSource::Sampled { track: 0, sample: TrackSample::Hold(0) });
    assert_eq!(plan[0].local, PoseSource::Bind(1));
}

#[test]
fn world_plan_parent_is_the_latest_step_with_that_id() {
    // Two roots share the id "r": the child under each one takes its parent
    // matrix from the most recent "r" step, as a map keyed by id would.
    let skel = Skeleton { bones: vec![bone("r", None), bone("c", Some("r")), bone("r", None)] };
    let clip: AnimationClip<u32> = AnimationClip { name: "x".to_string(), duration: 0, fps_milli: 30_000, tracks: vec![] };
    let plan = world_transform_plan(&skel, &clip, 0);
    let summary: Vec<(usize, Option<usize>)> = plan.iter().map(|s| (s.bone, s.parent_step)).collect();
    assert_eq!(summary, vec![(0, None), (1, Some(0)), (2, None), (1, Some(2))]);
}

#[test]
fn world_plan_gives_a_bone_with_a_missing_parent_a_step() {
    let skel = Skeleton { bones: vec![bone("a", Some("gone"))] };
    let clip: AnimationClip<u32> = AnimationClip { name: "x".to_string(), duration: 0, fps_milli: 30_000, tracks: vec![] };
    let plan = world_transform_plan(&skel, &clip, 0);
    assert_eq!(plan.len(), 1);
    assert_eq!(plan[0].bone, 0);
    assert_eq!(plan[0].depth, 0);
    assert_eq!(plan[0].parent_step, None);
    assert_eq!(plan[0].local, PoseSource::Bind(0));
}

#[test]
fn world_plan_covers_orphan_subtrees_and_parent_loops() {
    let skel = Skeleton {
        bones: vec![
            bone("child", Some("a")),
            bone("a", Some("gone")),
            bone("root", None),
            bone("x", Some("y")),
            bone("y", Some("x")),
        ],
    };
    let clip: AnimationClip<u32> = AnimationClip { name: "x".to_string(), duration: 0, fps_milli: 30_000, tracks: vec![] };
    assert_eq!(skel.evaluation_order(), vec![(2, 0), (1, 0), (0, 1), (3, 0), (4, 0)]);
    let plan = world_transform_plan(&skel, &clip, 0);
    let summary: Vec<(usize, Option<usize>)> = plan.iter().map(|s| (s.bone, s.parent_step)).collect();
    assert_eq!(summary, vec![(2, None), (1, None), (0, Some(1)), (3, None), (4, Some(3))]);
}
