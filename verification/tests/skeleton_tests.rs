use skeletal_animation_plugin::skeleton::{Bone, Skeleton};

fn bone(id: &str, parent: Option<&str>, pose: u32) -> Bone<u32> {
    Bone {
        id: id.to_string(),
        name: id.to_uppercase(),
        parent: parent.map(|p| p.to_string()),
        bind_transform: pose,
    }
}

fn rig() -> Skeleton<u32> {
    Skeleton {
        bones: vec![
            bone("root", None, 0),
            bone("pelvis", Some("root"), 1),
            bone("thigh_l", Some("pelvis"), 2),
            bone("spine", Some("pelvis"), 3),
            bone("shin_l", Some("thigh_l"), 4),
            bone("prop", None, 5),
            bone("head", Some("spine"), 6),
        ],
    }
}

#[test]
fn bone_lookup_finds_first_match() {
    let mut s = rig();
    s.bones.push(bone("pelvis", None, 99));
    assert_eq!(s.bone("pelvis").map(|b| b.bind_transform), Some(1));
    assert_eq!(s.bone_index("head"), Some(6));
    assert!(s.bone("missing").is_none());
    assert_eq!(s.bone_index("missing"), None);
}

#[test]
fn bone_mut_edits_only_the_found_bone() {
    let mut s = rig();
    if let Some(b) = s.bone_mut("spine") {
        b.bind_transform = 42;
    }
    assert_eq!(s.bones[3].bind_transform, 42);
    assert_eq!(s.bones[2].bind_transform, 2);
    assert!(s.bone_mut("missing").is_none());
}

#[test]
fn roots_and_children_keep_order() {
    let s = rig();
    let roots: Vec<&str> = s.root_bones().iter().map(|b| b.id.as_str()).collect();
    assert_eq!(roots, vec!["root", "prop"]);
    let kids: Vec<&str> = s.children_of("pelvis").iter().map(|b| b.id.as_str()).collect();
    assert_eq!(kids, vec!["thigh_l", "spine"]);
    assert!(s.children_of("head").is_empty());
}

#[test]
fn depth_first_visits_subtrees_in_order() {
    let s = rig();
    let order: Vec<(&str, usize)> = s.depth_first().iter().map(|(b, d)| (b.id.as_str(), *d)).collect();
    assert_eq!(
        order,
        vec![
            ("root", 0),
            ("pelvis", 1),
            ("thigh_l", 2),
            ("shin_l", 3),
            ("spine", 2),
            ("head", 3),
            ("prop", 0),
        ]
    );
    let idx = s.depth_first_order();
    assert_eq!(idx, vec![(0, 0), (1, 1), (2, 2), (4, 3), (3, 2), (6, 3), (5, 0)]);
}

#[test]
fn depth_zero_entries_are_exactly_the_roots() {
    let s = rig();
    for (b, d) in s.depth_first() {
        assert_eq!(d == 0, b.parent.is_none());
    }
}

#[test]
fn depth_first_skips_orphans_and_stops_on_loops() {
    // "a" and "b" name each other as parents: no root reaches them.
    let mut s = rig();
    s.bones.push(bone("a", Some("b"), 7));
    s.bones.push(bone("b", Some("a"), 8));
    assert_eq!(s.depth_first().len(), 7);

    // A root sharing its id with its own child would loop forever; the walk
    // stops at the depth bound instead.
    let looped = Skeleton { bones: vec![bone("x", None, 0), bone("x", Some("x"), 1)] };
    let order = looped.depth_first_order();
    assert_eq!(order, vec![(0, 0), (1, 1)]);
}

#[test]
fn empty_skeleton_has_no_order() {
    let s: Skeleton<u32> = Skeleton { bones: Vec::new() };
    assert!(s.depth_first().is_empty());
    assert!(s.root_bones().is_empty());
}

#[test]
fn depth_first_lists_each_parent_before_its_children() {
    // Children listed before their parents in the bone list.
    let s = Skeleton {
        bones: vec![
            bone("hand", Some("arm"), 0),
            bone("arm", Some("chest"), 1),
            bone("chest", None, 2),
            bone("head", Some("chest"), 3),
        ],
    };
    let order = s.depth_first_order();
    assert_eq!(order, vec![(2, 0), (1, 1), (0, 2), (3, 1)]);
    for (m, &(bi, depth)) in order.iter().enumerate() {
        if depth > 0 {
            let parent = s.bones[bi].parent.clone().unwrap();
            assert!(order[..m].iter().any(|&(j, _)| s.bones[j].id == parent));
        }
    }
}
