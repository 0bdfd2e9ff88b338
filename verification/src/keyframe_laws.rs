//! What inserting and deleting keyframes promise across calls.

use vstd::prelude::*;
use crate::animation::{
    Keyframe,
    TrackView,
    find_track,
    find_near,
    insert_position,
    lemma_find_track,
    lemma_find_near,
    lemma_later_index_from,
    same_time,
    times_sorted,
};
use crate::editor::{
    SkeletalAnimEditorPanel,
    keyframe_at_spec,
    tracks_with_track,
    insert_track_index,
    inserted_index,
    keyframes_after_insert,
    tracks_after_insert,
    nonempty_tracks,
};

verus! {

/// A track whose id is `id`, with no earlier track of that id, is the one
/// `find_track` finds.
proof fn lemma_find_track_is<T>(tracks: Seq<TrackView<T>>, id: Seq<char>, i: int)
    requires
        0 <= i < tracks.len(),
        tracks[i].0 == id,
        forall|j: int| 0 <= j < i ==> tracks[j].0 != id,
    ensures
        find_track(tracks, id) == Some(i),
{
    lemma_find_track(tracks, id);
    match find_track(tracks, id) {
        Some(j) => {
            if j < i {
                assert(tracks[j].0 != id);
            } else if j > i {
                assert(tracks[i].0 != id);
            }
        },
        None => {
            assert(tracks[i].0 != id);
        },
    }
}

/// A keyframe at time `t`, with no earlier keyframe at that time, is the one
/// `find_near` finds.
proof fn lemma_find_near_is<T>(kfs: Seq<Keyframe<T>>, t: int, i: int)
    requires
        0 <= i < kfs.len(),
        same_time(kfs[i].time as int, t),
        forall|j: int| 0 <= j < i ==> !same_time(kfs[j].time as int, t),
    ensures
        find_near(kfs, t) == Some(i),
{
    lemma_find_near(kfs, t);
    match find_near(kfs, t) {
        Some(j) => {
            if j < i {
                assert(!same_time(kfs[j].time as int, t));
            } else if j > i {
                assert(!same_time(kfs[i].time as int, t));
            }
        },
        None => {
            assert(!same_time(kfs[i].time as int, t));
        },
    }
}

/// After a keyframe is inserted for bone `id` at `t`, the bone's first track
/// is the one it went to.
proof fn lemma_insert_track_found<T>(tracks: Seq<TrackView<T>>, id: Seq<char>, t: int, tr: T)
    ensures
        find_track(tracks_after_insert(tracks, id, t, tr), id) == Some(insert_track_index(tracks, id)),
        0 <= insert_track_index(tracks, id) < tracks_with_track(tracks, id).len(),
        tracks_with_track(tracks, id)[insert_track_index(tracks, id)].0 == id,
{
    lemma_find_track(tracks, id);
    let tw = tracks_with_track(tracks, id);
    let ti = insert_track_index(tracks, id);
    let after = tracks_after_insert(tracks, id, t, tr);
    assert(forall|j: int| 0 <= j < ti ==> after[j] == tracks[j]);
    lemma_find_track_is(after, id, ti);
}

/// Inserting a keyframe at the playhead and then asking for the selected
/// bone's keyframe at the playhead gives back the inserted keyframe's index.
pub proof fn law_insert_then_keyframe_at_playhead<T>(tracks: Seq<TrackView<T>>, id: Seq<char>, t: int, tr: T)
    requires
        i64::MIN <= t <= i64::MAX,
    ensures
        keyframe_at_spec(tracks_after_insert(tracks, id, t, tr), id, t) == Some(
            inserted_index(tracks_with_track(tracks, id)[insert_track_index(tracks, id)].1, t),
        ),
{
    lemma_insert_track_found(tracks, id, t, tr);
    let tw = tracks_with_track(tracks, id);
    let ti = insert_track_index(tracks, id);
    let kfs = tw[ti].1;
    let new = keyframes_after_insert(kfs, t, tr);
    assert(tracks_after_insert(tracks, id, t, tr)[ti].1 == new);
    lemma_find_near(kfs, t);
    match find_near(kfs, t) {
        Some(i) => {
            lemma_find_near_is(new, t, i);
        },
        None => {
            let pos = insert_position(kfs, t);
            lemma_later_index_from(kfs, t, 0);
            assert(new[pos].time == t);
            lemma_find_near_is(new, t, pos);
        },
    }
}

proof fn lemma_nonempty_tracks_nonempty<T>(s: Seq<TrackView<T>>)
    ensures
        forall|i: int| 0 <= i < nonempty_tracks(s).len() ==> nonempty_tracks(s)[i].1.len() > 0,
    decreases s.len(),
{
    if s.len() > 0 {
        lemma_nonempty_tracks_nonempty(s.drop_last());
        let a = nonempty_tracks(s.drop_last());
        let b: Seq<TrackView<T>> = if s.last().1.len() > 0 { seq![s.last()] } else { seq![] };
        assert forall|i: int| 0 <= i < (a + b).len() implies (a + b)[i].1.len() > 0 by {
            if i < a.len() {
                assert((a + b)[i] == a[i]);
            } else {
                assert((a + b)[i] == b[i - a.len()]);
            }
        }
    }
}

/// Every track of the list after a keyframe deletion has keyframes.
pub proof fn law_deletion_leaves_no_empty_track<T>(s: Seq<TrackView<T>>)
    ensures
        forall|i: int| 0 <= i < nonempty_tracks(s).len() ==> nonempty_tracks(s)[i].1.len() > 0,
{
    lemma_nonempty_tracks_nonempty(s);
}

proof fn lemma_nonempty_tracks_all<T>(s: Seq<TrackView<T>>)
    requires
        forall|i: int| 0 <= i < s.len() ==> s[i].1.len() > 0,
    ensures
        nonempty_tracks(s) == s,
    decreases s.len(),
{
    if s.len() > 0 {
        lemma_nonempty_tracks_all(s.drop_last());
        assert(s.drop_last().push(s.last()) =~= s);
    }
}

/// With every track holding keyframes and none of bone `id`'s at `t`,
/// inserting a keyframe at `t` and then deleting the keyframe at `t` gives
/// back the tracks unchanged.
pub proof fn law_insert_then_delete_restores_tracks<T>(tracks: Seq<TrackView<T>>, id: Seq<char>, t: int, tr: T)
    requires
        i64::MIN <= t <= i64::MAX,
        keyframe_at_spec(tracks, id, t) is None,
        forall|i: int| 0 <= i < tracks.len() ==> tracks[i].1.len() > 0,
    ensures
        ({
            let after = tracks_after_insert(tracks, id, t, tr);
            let ti = find_track(after, id)->Some_0;
            let k = keyframe_at_spec(after, id, t)->Some_0;
            nonempty_tracks(after.update(ti, (id, after[ti].1.remove(k)))) == tracks
        }),
{
    law_insert_then_keyframe_at_playhead(tracks, id, t, tr);
    lemma_insert_track_found(tracks, id, t, tr);
    lemma_find_track(tracks, id);
    let after = tracks_after_insert(tracks, id, t, tr);
    let tw = tracks_with_track(tracks, id);
    let ti = insert_track_index(tracks, id);
    let kfs = tw[ti].1;
    let pos = insert_position(kfs, t);
    lemma_later_index_from(kfs, t, 0);
    match find_track(tracks, id) {
        Some(i) => {
            assert(find_near(kfs, t) is None);
            assert(inserted_index(kfs, t) == pos);
            let new = kfs.insert(pos, Keyframe { time: t as i64, transform: tr });
            assert(new.remove(pos) =~= kfs);
            assert(after.update(ti, (id, after[ti].1.remove(pos))) =~= tracks);
        },
        None => {
            assert(kfs =~= Seq::<Keyframe<T>>::empty());
            assert(find_near(kfs, t) is None);
            assert(pos == 0);
            let new = kfs.insert(0, Keyframe { time: t as i64, transform: tr });
            assert(new.remove(0) =~= Seq::<Keyframe<T>>::empty());
            let restored = after.update(ti, (id, after[ti].1.remove(pos)));
            assert(restored =~= tracks.push((id, Seq::<Keyframe<T>>::empty())));
            assert(restored.drop_last() =~= tracks);
        },
    }
    lemma_nonempty_tracks_all(tracks);
}

/// Inserting a keyframe keeps a track's keyframe times in order.
pub proof fn law_insert_keeps_times_sorted<T>(kfs: Seq<Keyframe<T>>, t: int, tr: T)
    requires
        i64::MIN <= t <= i64::MAX,
        times_sorted(kfs),
    ensures
        times_sorted(keyframes_after_insert(kfs, t, tr)),
{
    let new = keyframes_after_insert(kfs, t, tr);
    lemma_find_near(kfs, t);
    match find_near(kfs, t) {
        Some(i) => {
            assert forall|a: int, b: int| 0 <= a <= b < new.len() implies new[a].time <= new[b].time by {
                assert(new[a].time == kfs[a].time);
                assert(new[b].time == kfs[b].time);
            }
        },
        None => {
            let pos = insert_position(kfs, t);
            lemma_later_index_from(kfs, t, 0);
            assert forall|a: int, b: int| 0 <= a <= b < new.len() implies new[a].time <= new[b].time by {
                if a < pos && b < pos {
                    assert(new[a] == kfs[a] && new[b] == kfs[b]);
                } else if a < pos && b == pos {
                    assert(new[a] == kfs[a]);
                } else if a < pos {
                    assert(new[a] == kfs[a] && new[b] == kfs[b - 1]);
                } else if a == pos && b > pos {
                    assert(new[b] == kfs[b - 1]);
                    assert(kfs[pos].time > t);
                    assert(kfs[pos].time <= kfs[b - 1].time);
                } else if a > pos {
                    assert(new[a] == kfs[a - 1] && new[b] == kfs[b - 1]);
                }
            }
        },
    }
}

/// Pressing the properties panel's Key button twice, on a selected bone
/// with no keyframe selected and none at the playhead, leaves every track as
/// it was, when every track held keyframes: the first press inserts a
/// keyframe and selects it, the second removes it again.
pub proof fn law_key_button_twice_restores_tracks<T>(
    a: SkeletalAnimEditorPanel<T>,
    b: SkeletalAnimEditorPanel<T>,
    c: SkeletalAnimEditorPanel<T>,
    first: T,
)
    requires
        a.selected_bone is Some,
        a.selected_keyframe is None,
        keyframe_at_spec(a.tracks(), a.selected_bone->Some_0@, a.playback.time as int) is None,
        forall|i: int| 0 <= i < a.tracks().len() ==> a.tracks()[i].1.len() > 0,
        b.is_insert_of(a, first),
        c.is_playhead_delete_of(b),
    ensures
        b.selected_keyframe is Some,
        c.tracks() == a.tracks(),
{
    let id = a.selected_bone->Some_0@;
    let t = a.playback.time as int;
    law_insert_then_keyframe_at_playhead(a.tracks(), id, t, first);
    law_insert_then_delete_restores_tracks(a.tracks(), id, t, first);
}

} // verus!
