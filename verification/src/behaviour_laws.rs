//! What sampling, pose lookup, keyframe deletion and the panels' row
//! marking promise, stated over keyframe times, ids and selections.

use vstd::prelude::*;
use crate::animation::{
    Keyframe,
    TrackSample,
    PoseSource,
    TrackView,
    sample_spec,
    segment_index_from,
    local_pose_spec,
    find_track,
    lemma_find_track,
};
use crate::skeleton::{Bone, depth_first_spec};
use crate::editor::{
    SkeletalAnimEditorPanel,
    RowShade,
    HierarchyRow,
    KeyView,
    unselected_from,
    pruned_track,
    nonempty_tracks,
    tracks_after_delete,
};
use crate::order_laws::{ids_distinct, law_depth_first_lists_no_bone_twice};

verus! {

/// Keyframe times strictly increase along the track.
pub open spec fn times_increasing<T>(kfs: Seq<Keyframe<T>>) -> bool {
    forall|a: int, b: int| 0 <= a < b < kfs.len() ==> #[trigger] kfs[a].time < #[trigger] kfs[b].time
}

/// Searching the segments from `from` on finds segment `i` when `t` lies
/// after its start and no later than its end.
proof fn lemma_segment_found<T>(kfs: Seq<Keyframe<T>>, t: int, i: int, from: int)
    requires
        times_increasing(kfs),
        0 <= from <= i,
        i + 1 < kfs.len(),
        kfs[i].time < t <= kfs[i + 1].time,
    ensures
        segment_index_from(kfs, t, from) == Some(i),
    decreases i - from,
{
    if from < i {
        assert(kfs[from + 1].time <= kfs[i].time) by {
            if from + 1 < i {
                assert(kfs[from + 1].time < kfs[i].time);
            }
        }
        lemma_segment_found(kfs, t, i, from + 1);
    }
}

/// Inside a track whose keyframe times strictly increase, sampling at a time
/// strictly between keyframes `i` and `i + 1` blends exactly those two, by
/// the time elapsed since keyframe `i` over the gap between them.
pub proof fn law_sample_blends_the_surrounding_keyframes<T>(kfs: Seq<Keyframe<T>>, t: int, i: int)
    requires
        times_increasing(kfs),
        0 <= i,
        i + 1 < kfs.len(),
        kfs.len() <= usize::MAX,
        kfs[i].time < t < kfs[i + 1].time,
    ensures
        sample_spec(kfs, t) == Some(
            TrackSample::Blend {
                from: i as usize,
                to: (i + 1) as usize,
                elapsed: (t - kfs[i].time) as u64,
                span: (kfs[i + 1].time - kfs[i].time) as u64,
            },
        ),
{
    let n = kfs.len();
    if i > 0 {
        assert(kfs[0].time < kfs[i].time);
    }
    if i + 1 < n - 1 {
        assert(kfs[i + 1].time < kfs[n - 1].time);
    }
    lemma_segment_found(kfs, t, i, 0);
}

/// Sampling exactly at an inner keyframe's time blends fully into it from
/// the keyframe before: the whole gap has elapsed.
pub proof fn law_sample_at_an_inner_keyframe<T>(kfs: Seq<Keyframe<T>>, i: int)
    requires
        times_increasing(kfs),
        0 < i,
        i + 1 < kfs.len(),
        kfs.len() <= usize::MAX,
    ensures
        sample_spec(kfs, kfs[i].time as int) == Some(
            TrackSample::Blend {
                from: (i - 1) as usize,
                to: i as usize,
                elapsed: (kfs[i].time - kfs[i - 1].time) as u64,
                span: (kfs[i].time - kfs[i - 1].time) as u64,
            },
        ),
{
    let n = kfs.len();
    assert(kfs[0].time < kfs[i].time);
    assert(kfs[i].time < kfs[n - 1].time);
    assert(kfs[i - 1].time < kfs[i].time);
    lemma_segment_found(kfs, kfs[i].time as int, i - 1, 0);
}

/// Sampling a non-empty track at or before its first keyframe holds the
/// first keyframe, and at or after its last (strictly later than its first)
/// holds the last.
pub proof fn law_sample_holds_outside_the_range<T>(kfs: Seq<Keyframe<T>>, t: int)
    requires
        kfs.len() >= 1,
        kfs.len() <= usize::MAX,
    ensures
        t <= kfs[0].time ==> sample_spec(kfs, t) == Some(TrackSample::Hold(0)),
        t >= kfs[kfs.len() - 1].time && t > kfs[0].time ==> sample_spec(kfs, t) == Some(
            TrackSample::Hold((kfs.len() - 1) as usize),
        ),
{
}

/// A bone whose first track has keyframes takes its local pose from that
/// track at every time, as the track samples there; before the track's
/// first keyframe that is the first keyframe held.
pub proof fn law_animated_bone_takes_its_track<T, U>(
    tracks: Seq<TrackView<T>>,
    bones: Seq<Bone<U>>,
    id: Seq<char>,
    t: int,
    ti: int,
)
    requires
        0 <= ti < tracks.len(),
        tracks.len() <= usize::MAX,
        tracks[ti].1.len() <= usize::MAX,
        tracks[ti].0 == id,
        forall|j: int| 0 <= j < ti ==> tracks[j].0 != id,
        tracks[ti].1.len() > 0,
    ensures
        local_pose_spec(tracks, bones, id, t) matches PoseSource::Sampled { track, sample } && track == ti
            && sample_spec(tracks[ti].1, t) == Some(sample),
        t <= tracks[ti].1[0].time ==> local_pose_spec(tracks, bones, id, t) == (PoseSource::Sampled {
            track: ti as usize,
            sample: TrackSample::Hold(0),
        }),
{
    lemma_find_track(tracks, id);
    match find_track(tracks, id) {
        Some(j) => {
            if j < ti {
                assert(tracks[j].0 != id);
            } else if j > ti {
                assert(tracks[ti].0 != id);
            }
        },
        None => {
            assert(tracks[ti].0 != id);
        },
    }
}

/// A bone with no track, or whose first track is empty, takes the bind pose
/// of the first bone with its id, or identity when there is none.
pub proof fn law_unanimated_bone_takes_its_bind_pose<T, U>(
    tracks: Seq<TrackView<T>>,
    bones: Seq<Bone<U>>,
    id: Seq<char>,
    t: int,
)
    requires
        bones.len() <= usize::MAX,
        forall|j: int|
            0 <= j < tracks.len() && tracks[j].0 == id && (forall|k: int| 0 <= k < j ==> tracks[k].0 != id)
                ==> tracks[j].1.len() == 0,
    ensures
        forall|bi: int|
            0 <= bi < bones.len() && bones[bi].id@ == id && (forall|j: int| 0 <= j < bi ==> bones[j].id@ != id)
                ==> local_pose_spec(tracks, bones, id, t) == PoseSource::Bind(bi as usize),
        (forall|bi: int| 0 <= bi < bones.len() ==> bones[bi].id@ != id) ==> local_pose_spec(tracks, bones, id, t)
            == PoseSource::Identity,
{
    lemma_find_track(tracks, id);
    crate::skeleton::lemma_find_bone(bones, id);
    match find_track(tracks, id) {
        Some(j) => {
            assert(tracks[j].1.len() == 0);
        },
        None => {},
    }
    assert forall|bi: int|
        0 <= bi < bones.len() && bones[bi].id@ == id && (forall|j: int| 0 <= j < bi ==> bones[j].id@ != id)
            implies local_pose_spec(tracks, bones, id, t) == PoseSource::Bind(bi as usize) by {
        match crate::skeleton::find_bone(bones, id) {
            Some(x) => {
                if x < bi {
                    assert(bones[x].id@ != id);
                } else if x > bi {
                    assert(bones[bi].id@ != id);
                }
            },
            None => {
                assert(bones[bi].id@ != id);
            },
        }
    }
}

/// The timeline row of the selected bone's track is shaded as selected, and
/// every other row alternates even/odd by its position, whatever keyframes
/// are selected.
pub proof fn law_selected_bone_row_is_highlighted<T>(e: SkeletalAnimEditorPanel<T>, i: int)
    requires
        0 <= i < e.animation.tracks.len(),
    ensures
        e.selected_bone matches Some(b) && b@ == e.animation.tracks@[i].bone_id@ ==> e.row_shade_spec(i)
            == RowShade::Selected,
        !(e.selected_bone matches Some(b) && b@ == e.animation.tracks@[i].bone_id@) ==> e.row_shade_spec(i)
            == if i % 2 == 0 {
            RowShade::Even
        } else {
            RowShade::Odd
        },
{
}

/// Row shading depends only on the selected bone and the tracks' bones: two
/// editors that differ in anything else, the keyframe selection included,
/// shade every row alike.
pub proof fn law_row_shade_ignores_keyframe_selection<T>(
    a: SkeletalAnimEditorPanel<T>,
    b: SkeletalAnimEditorPanel<T>,
    i: int,
)
    requires
        a.selected_bone == b.selected_bone,
        a.animation.tracks.len() == b.animation.tracks.len(),
        forall|j: int| 0 <= j < a.animation.tracks.len() ==> a.animation.tracks@[j].bone_id@ == b.animation.tracks@[j].bone_id@,
        0 <= i < a.animation.tracks.len(),
    ensures
        a.row_shade_spec(i) == b.row_shade_spec(i),
{
}

/// Indices, from `k` on, of the `n` keyframes of bone `id` that `sel` does
/// not select, in order.
spec fn kept_from(n: int, id: Seq<char>, sel: Set<KeyView>, k: int) -> Seq<int>
    decreases n - k,
{
    if k < 0 || k >= n {
        seq![]
    } else {
        (if sel.contains((id, k as usize)) {
            seq![]
        } else {
            seq![k]
        }) + kept_from(n, id, sel, k + 1)
    }
}

proof fn lemma_unselected<T>(kfs: Seq<Keyframe<T>>, id: Seq<char>, sel: Set<KeyView>, k: int)
    requires
        0 <= k <= kfs.len(),
    ensures
        ({
            let idx = kept_from(kfs.len() as int, id, sel, k);
            let r = unselected_from(kfs, id, sel, k);
            &&& idx.len() == r.len()
            &&& forall|m: int| 0 <= m < r.len() ==> k <= #[trigger] idx[m] < kfs.len() && r[m] == kfs[idx[m]]
            &&& forall|m1: int, m2: int| 0 <= m1 < m2 < idx.len() ==> #[trigger] idx[m1] < #[trigger] idx[m2]
            &&& forall|j: int| k <= j < kfs.len() ==> (idx.contains(j) <==> !sel.contains((id, j as usize)))
        }),
    decreases kfs.len() - k,
{
    let n = kfs.len() as int;
    if k < n {
        lemma_unselected(kfs, id, sel, k + 1);
        let rest_i = kept_from(n, id, sel, k + 1);
        let rest_r = unselected_from(kfs, id, sel, k + 1);
        let idx = kept_from(n, id, sel, k);
        let r = unselected_from(kfs, id, sel, k);
        if sel.contains((id, k as usize)) {
            assert(idx =~= rest_i);
            assert(r =~= rest_r);
            assert forall|j: int| k <= j < n implies (idx.contains(j) <==> !sel.contains((id, j as usize))) by {
                if j == k && idx.contains(j) {
                    let m = choose|m: int| 0 <= m < idx.len() && idx[m] == j;
                    assert(rest_i[m] >= k + 1);
                }
            }
        } else {
            assert(idx == seq![k] + rest_i);
            assert(r == seq![kfs[k]] + rest_r);
            assert forall|m: int| 0 <= m < r.len() implies k <= #[trigger] idx[m] < kfs.len() && r[m] == kfs[idx[m]] by {
                if m > 0 {
                    assert(idx[m] == rest_i[m - 1] && r[m] == rest_r[m - 1]);
                }
            }
            assert forall|m1: int, m2: int| 0 <= m1 < m2 < idx.len() implies #[trigger] idx[m1] < #[trigger] idx[m2] by {
                assert(idx[m2] == rest_i[m2 - 1]);
                if m1 > 0 {
                    assert(idx[m1] == rest_i[m1 - 1]);
                }
            }
            assert forall|j: int| k <= j < n implies (idx.contains(j) <==> !sel.contains((id, j as usize))) by {
                if j == k {
                    assert(idx[0] == k);
                } else {
                    if rest_i.contains(j) {
                        let m = choose|m: int| 0 <= m < rest_i.len() && rest_i[m] == j;
                        assert(idx[m + 1] == j);
                    }
                    if idx.contains(j) {
                        let m = choose|m: int| 0 <= m < idx.len() && idx[m] == j;
                        assert(m > 0);
                        assert(rest_i[m - 1] == j);
                    }
                }
            }
        }
    }
}

/// `r` is the keyframes of `kfs` at the positions `idx`, in order, and
/// those positions are exactly the ones `sel` does not select under `id`.
pub open spec fn keeps_unselected<T>(
    kfs: Seq<Keyframe<T>>,
    r: Seq<Keyframe<T>>,
    id: Seq<char>,
    sel: Set<KeyView>,
    idx: Seq<int>,
) -> bool {
    &&& idx.len() == r.len()
    &&& forall|m: int| 0 <= m < r.len() ==> 0 <= #[trigger] idx[m] < kfs.len() && r[m] == kfs[idx[m]]
    &&& forall|m1: int, m2: int| 0 <= m1 < m2 < idx.len() ==> #[trigger] idx[m1] < #[trigger] idx[m2]
    &&& forall|k: int| 0 <= k < kfs.len() ==> (idx.contains(k) <==> !sel.contains((id, k as usize)))
}

/// Deleting the selected keyframes leaves the first track of each bone with
/// exactly its keyframes whose (bone, index) is not selected, in their
/// order: no unselected keyframe goes and no selected one stays. A later
/// track of the same bone is left as it was.
pub proof fn law_deletion_keeps_exactly_the_unselected_keyframes<T>(
    tracks: Seq<TrackView<T>>,
    sel: Set<KeyView>,
    i: int,
)
    requires
        0 <= i < tracks.len(),
    ensures
        pruned_track(tracks, sel, i).0 == tracks[i].0,
        (exists|j: int| 0 <= j < i && tracks[j].0 == tracks[i].0) ==> pruned_track(tracks, sel, i) == tracks[i],
        (forall|j: int| 0 <= j < i ==> tracks[j].0 != tracks[i].0) ==> exists|idx: Seq<int>|
            #[trigger] keeps_unselected(tracks[i].1, pruned_track(tracks, sel, i).1, tracks[i].0, sel, idx),
{
    let id = tracks[i].0;
    lemma_find_track(tracks, id);
    if forall|j: int| 0 <= j < i ==> tracks[j].0 != id {
        match find_track(tracks, id) {
            Some(x) => {
                if x < i {
                    assert(tracks[x].0 != id);
                } else if x > i {
                    assert(tracks[i].0 != id);
                }
            },
            None => {
                assert(tracks[i].0 != id);
            },
        }
        lemma_unselected(tracks[i].1, id, sel, 0);
        let idx = kept_from(tracks[i].1.len() as int, id, sel, 0);
        assert(keeps_unselected(tracks[i].1, pruned_track(tracks, sel, i).1, id, sel, idx));
    } else {
        let j = choose|j: int| 0 <= j < i && tracks[j].0 == id;
        match find_track(tracks, id) {
            Some(x) => {
                assert(x <= j);
            },
            None => {
                assert(tracks[j].0 != id);
            },
        }
    }
}

/// A track still has keyframes.
pub open spec fn track_has_keyframes<T>() -> spec_fn(TrackView<T>) -> bool {
    |t: TrackView<T>| t.1.len() > 0
}

/// After deleting, the tracks kept are exactly those that still have
/// keyframes, in their order.
pub proof fn law_deletion_drops_exactly_the_emptied_tracks<T>(s: Seq<TrackView<T>>)
    ensures
        nonempty_tracks(s) == s.filter(track_has_keyframes()),
    decreases s.len(),
{
    if s.len() > 0 {
        law_deletion_drops_exactly_the_emptied_tracks(s.drop_last());
        reveal(Seq::filter);
        let p = track_has_keyframes::<T>();
        let f = s.drop_last().filter(p);
        assert(s.filter(p) == if p(s.last()) { f.push(s.last()) } else { f });
        if s.last().1.len() > 0 {
            assert(f + seq![s.last()] =~= f.push(s.last()));
        } else {
            assert(f + Seq::<TrackView<T>>::empty() =~= f);
        }
    }
}

/// Deleting the selected keyframes gives each track pruned of its selected
/// keyframes, in order, leaving out the tracks that end up empty.
pub proof fn law_deletion_result<T>(tracks: Seq<TrackView<T>>, sel: Set<KeyView>)
    ensures
        tracks_after_delete(tracks, sel) == Seq::new(tracks.len(), |i: int| pruned_track(tracks, sel, i)).filter(
            track_has_keyframes(),
        ),
{
    law_deletion_drops_exactly_the_emptied_tracks(Seq::new(tracks.len(), |i: int| pruned_track(tracks, sel, i)));
}

/// The positions, in order, of the listing entries whose rows the first `k`
/// shown rows are.
proof fn lemma_shown_row_positions<T>(e: SkeletalAnimEditorPanel<T>, order: Seq<(usize, usize)>, k: int) -> (idx: Seq<int>)
    requires
        0 <= k <= order.len(),
    ensures
        idx.len() == e.shown_rows(order, k).len(),
        forall|m: int|
            0 <= m < idx.len() ==> 0 <= #[trigger] idx[m] < k && e.shown_rows(order, k)[m] == e.row_for(
                order[idx[m]],
            ),
        forall|m1: int, m2: int| 0 <= m1 < m2 < idx.len() ==> #[trigger] idx[m1] < #[trigger] idx[m2],
    decreases k,
{
    if k == 0 {
        seq![]
    } else {
        let prev = lemma_shown_row_positions(e, order, k - 1);
        let rows = e.shown_rows(order, k);
        let prows = e.shown_rows(order, k - 1);
        if e.is_shown(order, k - 1) {
            let idx = prev.push(k - 1);
            assert(rows == prows + seq![e.row_for(order[k - 1])]);
            assert forall|m: int| 0 <= m < idx.len() implies 0 <= #[trigger] idx[m] < k && rows[m] == e.row_for(
                order[idx[m]],
            ) by {
                if m < prev.len() {
                    assert(idx[m] == prev[m] && rows[m] == prows[m]);
                }
            }
            assert forall|m1: int, m2: int| 0 <= m1 < m2 < idx.len() implies #[trigger] idx[m1] < #[trigger] idx[m2] by {
                assert(idx[m1] == prev[m1]);
                if m2 < prev.len() {
                    assert(idx[m2] == prev[m2]);
                }
            }
            idx
        } else {
            assert(rows =~= prows);
            prev
        }
    }
}

/// A hierarchy row is marked selected exactly when its bone id is the
/// selected bone's id.
pub proof fn law_hierarchy_row_selected_iff_selected_bone<T>(e: SkeletalAnimEditorPanel<T>)
    ensures
        forall|m: int|
            0 <= m < e.hierarchy_spec().len() ==> ((#[trigger] e.hierarchy_spec()[m]).is_selected <==> (
            e.selected_bone matches Some(s) && s@ == e.hierarchy_spec()[m].bone_id@)),
{
    let order = depth_first_spec(e.skeleton.bones@);
    let idx = lemma_shown_row_positions(e, order, order.len() as int);
    let rows = e.hierarchy_spec();
    assert forall|m: int| 0 <= m < rows.len() implies ((#[trigger] rows[m]).is_selected <==> (
    e.selected_bone matches Some(s) && s@ == rows[m].bone_id@)) by {
        assert(rows[m] == e.row_for(order[idx[m]]));
    }
}

/// With distinct bone ids, at most one hierarchy row is marked selected.
pub proof fn law_at_most_one_hierarchy_row_selected<T>(e: SkeletalAnimEditorPanel<T>)
    requires
        ids_distinct(e.skeleton.bones@),
        e.skeleton.bones.len() <= usize::MAX,
    ensures
        forall|p: int, q: int|
            0 <= p < e.hierarchy_spec().len() && 0 <= q < e.hierarchy_spec().len() && p != q ==> !((
            #[trigger] e.hierarchy_spec()[p]).is_selected && (#[trigger] e.hierarchy_spec()[q]).is_selected),
{
    let bones = e.skeleton.bones@;
    let order = depth_first_spec(bones);
    let idx = lemma_shown_row_positions(e, order, order.len() as int);
    let rows = e.hierarchy_spec();
    law_depth_first_lists_no_bone_twice(bones);
    crate::skeleton::law_depth_first_roots_at_depth_zero(bones);
    law_hierarchy_row_selected_iff_selected_bone(e);
    assert forall|p: int, q: int| 0 <= p < rows.len() && 0 <= q < rows.len() && p != q implies !((
    #[trigger] rows[p]).is_selected && (#[trigger] rows[q]).is_selected) by {
        if rows[p].is_selected && rows[q].is_selected {
            let (ip, iq) = (idx[p], idx[q]);
            assert(rows[p] == e.row_for(order[ip]) && rows[q] == e.row_for(order[iq]));
            assert(ip != iq) by {
                if p < q {
                    assert(idx[p] < idx[q]);
                } else {
                    assert(idx[q] < idx[p]);
                }
            }
            assert(order[ip].0 < bones.len() && order[iq].0 < bones.len());
            assert(bones[order[ip].0 as int].id@ == bones[order[iq].0 as int].id@);
            assert(order[ip].0 != order[iq].0);
            assert(false);
        }
    }
}

} // verus!
