//! The editor's model: the skeleton and clip being edited, the bone and
//! keyframe selection, the hierarchy's expanded folders, and the playback
//! transport. Every operation here is what the editor panel does in
//! response to a user action, without the drawing and window plumbing.

use vstd::prelude::*;
use crate::skeleton::{Bone, Skeleton, find_bone, child_indices, root_indices, depth_first_spec};
use crate::animation::{AnimationClip, BoneTrack, Keyframe, TrackView, tracks_view, find_track, find_near, insert_position, TICKS_PER_SECOND, FPS_SCALE};

verus! {

/// Playback transport state for the timeline.
pub struct Playback {
    /// Current playhead position, in microseconds.
    pub time: i64,
    pub playing: bool,
}

pub struct SkeletalAnimEditorPanel<T> {
    pub is_dirty: bool,
    pub skeleton: Skeleton<T>,
    pub animation: AnimationClip<T>,
    pub selected_bone: Option<String>,
    /// Bones whose children are shown in the hierarchy; no id twice.
    pub expanded_bones: Vec<String>,
    /// "Primary" selected keyframe, used by the properties panel.
    pub selected_keyframe: Option<(String, usize)>,
    /// Full multi-selection of keyframes, as `(bone_id, keyframe_index)`
    /// pairs; no pair twice. Contains `selected_keyframe`, and is empty
    /// exactly when that is `None`.
    pub selected_keyframes: Vec<(String, usize)>,
    pub playback: Playback,
    /// Inclusive frame range to play/loop.
    pub play_range: (i32, i32),
}

/// A keyframe key as plain values.
pub type KeyView = (Seq<char>, usize);

pub open spec fn key_view(k: (String, usize)) -> KeyView {
    (k.0@, k.1)
}

pub open spec fn keys_view(s: Seq<(String, usize)>) -> Seq<KeyView> {
    s.map_values(|k: (String, usize)| key_view(k))
}

pub open spec fn names_view(s: Seq<String>) -> Seq<Seq<char>> {
    s.map_values(|x: String| x@)
}

/// Position of the first key equal to `k`.
pub open spec fn key_position_from(s: Seq<KeyView>, k: KeyView, from: int) -> Option<int>
    decreases s.len() - from,
{
    if from < 0 || from >= s.len() {
        None
    } else if s[from] == k {
        Some(from)
    } else {
        key_position_from(s, k, from + 1)
    }
}

/// Position of the first name equal to `n`.
pub open spec fn name_position_from(s: Seq<Seq<char>>, n: Seq<char>, from: int) -> Option<int>
    decreases s.len() - from,
{
    if from < 0 || from >= s.len() {
        None
    } else if s[from] == n {
        Some(from)
    } else {
        name_position_from(s, n, from + 1)
    }
}

proof fn lemma_key_position_from(s: Seq<KeyView>, k: KeyView, from: int)
    requires
        0 <= from <= s.len(),
    ensures
        match key_position_from(s, k, from) {
            Some(i) => from <= i < s.len() && s[i] == k,
            None => forall|j: int| from <= j < s.len() ==> s[j] != k,
        },
    decreases s.len() - from,
{
    if from < s.len() && s[from] != k {
        lemma_key_position_from(s, k, from + 1);
    }
}

proof fn lemma_name_position_from(s: Seq<Seq<char>>, n: Seq<char>, from: int)
    requires
        0 <= from <= s.len(),
    ensures
        match name_position_from(s, n, from) {
            Some(i) => from <= i < s.len() && s[i] == n,
            None => forall|j: int| from <= j < s.len() ==> s[j] != n,
        },
    decreases s.len() - from,
{
    if from < s.len() && s[from] != n {
        lemma_name_position_from(s, n, from + 1);
    }
}

/// The key list after toggling `k`: removed where present, else appended.
pub open spec fn toggled_keys(s: Seq<(String, usize)>, k: (String, usize)) -> Seq<(String, usize)> {
    match key_position_from(keys_view(s), key_view(k), 0) {
        Some(i) => s.remove(i),
        None => s.push(k),
    }
}

/// `base` with each key of `add` appended in turn, unless already there.
pub open spec fn merged_keys(base: Seq<(String, usize)>, add: Seq<(String, usize)>) -> Seq<(String, usize)>
    decreases add.len(),
{
    if add.len() == 0 {
        base
    } else {
        let m = merged_keys(base, add.drop_last());
        if keys_view(m).contains(key_view(add.last())) {
            m
        } else {
            m.push(add.last())
        }
    }
}

/// `base` with each name of `add` appended in turn, unless already there.
pub open spec fn merged_names(base: Seq<String>, add: Seq<String>) -> Seq<String>
    decreases add.len(),
{
    if add.len() == 0 {
        base
    } else {
        let m = merged_names(base, add.drop_last());
        if names_view(m).contains(add.last()@) {
            m
        } else {
            m.push(add.last())
        }
    }
}

/// The first key of a selection list, the "primary" selection.
pub open spec fn first_key(s: Seq<(String, usize)>) -> Option<(String, usize)> {
    if s.len() == 0 {
        None
    } else {
        Some(s[0])
    }
}

/// The parents met walking up from bone `id`, at most `fuel` of them: the
/// first bone with that id names its parent, the first bone with the
/// parent's id names the next one, and so on.
pub open spec fn ancestor_chain<T>(bones: Seq<Bone<T>>, id: Seq<char>, fuel: nat) -> Seq<String>
    decreases fuel,
{
    if fuel == 0 {
        seq![]
    } else {
        match find_bone(bones, id) {
            Some(i) => match bones[i].parent {
                Some(p) => seq![p] + ancestor_chain(bones, p@, (fuel - 1) as nat),
                None => seq![],
            },
            None => seq![],
        }
    }
}

/// Index of the keyframe of bone `id` whose time matches `t`, on the bone's
/// first track.
pub open spec fn keyframe_at_spec<T>(tracks: Seq<TrackView<T>>, id: Seq<char>, t: int) -> Option<int> {
    match find_track(tracks, id) {
        Some(ti) => find_near(tracks[ti].1, t),
        None => None,
    }
}

/// Appending an element adds it to the sequence's set.
proof fn lemma_push_to_set<A>(s: Seq<A>, x: A)
    ensures
        s.push(x).to_set() == s.to_set().insert(x),
{
    assert forall|y: A| #[trigger] s.push(x).to_set().contains(y) <==> s.to_set().insert(x).contains(y) by {
        if s.contains(y) {
            let j = choose|j: int| 0 <= j < s.len() && s[j] == y;
            assert(s.push(x)[j] == y);
        }
        if y == x {
            assert(s.push(x)[s.len() as int] == y);
        }
        if s.push(x).contains(y) && y != x {
            let j = choose|j: int| 0 <= j < s.len() + 1 && s.push(x)[j] == y;
            assert(j < s.len());
            assert(s[j] == y);
        }
    }
    assert(s.push(x).to_set() =~= s.to_set().insert(x));
}

/// A one-element sequence's set is that element alone.
proof fn lemma_single_to_set<A>(x: A)
    ensures
        seq![x].to_set() == set![x],
{
    lemma_push_to_set(Seq::<A>::empty(), x);
    assert(Seq::<A>::empty().push(x) =~= seq![x]);
    assert(Seq::<A>::empty().to_set() =~= Set::<A>::empty());
    assert(Set::<A>::empty().insert(x) =~= set![x]);
}

/// `s` with `x` removed if it holds it, else added.
pub open spec fn set_toggled<A>(s: Set<A>, x: A) -> Set<A> {
    if s.contains(x) {
        s.remove(x)
    } else {
        s.insert(x)
    }
}

/// Removing an entry from a sequence without duplicates removes it from
/// the sequence's set and keeps the sequence free of duplicates.
proof fn lemma_remove_unique<A>(s: Seq<A>, i: int)
    requires
        s.no_duplicates(),
        0 <= i < s.len(),
    ensures
        s.remove(i).to_set() == s.to_set().remove(s[i]),
        s.remove(i).no_duplicates(),
{
    let r = s.remove(i);
    assert forall|x: A| #[trigger] r.contains(x) <==> (s.contains(x) && x != s[i]) by {
        if s.contains(x) && x != s[i] {
            let j = choose|j: int| 0 <= j < s.len() && s[j] == x;
            if j < i {
                assert(r[j] == x);
            } else {
                assert(j != i);
                assert(r[j - 1] == x);
            }
        }
        if r.contains(x) {
            let j = choose|j: int| 0 <= j < s.len() - 1 && r[j] == x;
            if j < i {
                assert(s[j] == x);
                assert(j != i);
            } else {
                assert(s[j + 1] == x);
                assert(j + 1 != i);
            }
        }
    }
    assert(r.to_set() =~= s.to_set().remove(s[i]));
    assert forall|a: int, b: int| 0 <= a < b < r.len() implies r[a] != r[b] by {
        let a2 = if a < i { a } else { a + 1 };
        let b2 = if b < i { b } else { b + 1 };
        assert(r[a] == s[a2]);
        assert(r[b] == s[b2]);
    }
}

/// Toggling a key keeps the selection free of duplicates and toggles the
/// key's membership in the selection set.
proof fn lemma_toggled_keys(s: Seq<(String, usize)>, k: (String, usize))
    requires
        keys_view(s).no_duplicates(),
    ensures
        keys_view(toggled_keys(s, k)).no_duplicates(),
        keys_view(toggled_keys(s, k)).to_set() == set_toggled(keys_view(s).to_set(), key_view(k)),
{
    let kv = keys_view(s);
    lemma_key_position_from(kv, key_view(k), 0);
    match key_position_from(kv, key_view(k), 0) {
        Some(i) => {
            assert(keys_view(s.remove(i)) =~= kv.remove(i));
            lemma_remove_unique(kv, i);
            assert(kv.to_set().contains(key_view(k)));
        },
        None => {
            assert(keys_view(s.push(k)) =~= kv.push(key_view(k)));
            lemma_push_to_set(kv, key_view(k));
            assert(!kv.to_set().contains(key_view(k)));
        },
    }
}

/// Toggling a keyframe into or out of the selection twice gives back the
/// selection it started from, as a set.
pub proof fn law_toggle_keyframe_twice_restores_selection(s: Seq<(String, usize)>, k: (String, usize))
    requires
        keys_view(s).no_duplicates(),
    ensures
        keys_view(toggled_keys(toggled_keys(s, k), k)).to_set() == keys_view(s).to_set(),
{
    lemma_toggled_keys(s, k);
    lemma_toggled_keys(toggled_keys(s, k), k);
    law_set_toggled_twice(keys_view(s).to_set(), key_view(k));
}

/// Toggling an element of a set twice gives back the set.
pub proof fn law_set_toggled_twice<A>(s: Set<A>, x: A)
    ensures
        set_toggled(set_toggled(s, x), x) == s,
{
    if s.contains(x) {
        assert(s.remove(x).insert(x) =~= s);
    } else {
        assert(s.insert(x).remove(x) =~= s);
    }
}

proof fn lemma_merged_keys(base: Seq<(String, usize)>, add: Seq<(String, usize)>)
    requires
        keys_view(base).no_duplicates(),
    ensures
        keys_view(merged_keys(base, add)).no_duplicates(),
        keys_view(merged_keys(base, add)).to_set() == keys_view(base).to_set() + keys_view(
            add,
        ).to_set(),
        merged_keys(base, add).len() >= base.len(),
        merged_keys(base, add).subrange(0, base.len() as int) == base,
    decreases add.len(),
{
    if add.len() > 0 {
        lemma_merged_keys(base, add.drop_last());
        let m = merged_keys(base, add.drop_last());
        let k = add.last();
        assert(keys_view(add.drop_last()).push(key_view(k)) =~= keys_view(add));
        if !keys_view(m).contains(key_view(k)) {
            assert(keys_view(m.push(k)) =~= keys_view(m).push(key_view(k)));
            lemma_push_to_set(keys_view(m), key_view(k));
            assert(m.push(k).subrange(0, base.len() as int) =~= m.subrange(0, base.len() as int));
        }
        lemma_push_to_set(keys_view(add.drop_last()), key_view(k));
        assert(keys_view(merged_keys(base, add)).to_set() =~= keys_view(base).to_set() + keys_view(
            add,
        ).to_set());
    }
}

proof fn lemma_merged_names(base: Seq<String>, add: Seq<String>)
    requires
        names_view(base).no_duplicates(),
    ensures
        names_view(merged_names(base, add)).no_duplicates(),
        names_view(merged_names(base, add)).to_set() == names_view(base).to_set() + names_view(
            add,
        ).to_set(),
    decreases add.len(),
{
    if add.len() > 0 {
        lemma_merged_names(base, add.drop_last());
        let m = merged_names(base, add.drop_last());
        let n = add.last();
        assert(names_view(add.drop_last()).push(n@) =~= names_view(add));
        if !names_view(m).contains(n@) {
            assert(names_view(m.push(n)) =~= names_view(m).push(n@));
            lemma_push_to_set(names_view(m), n@);
        }
        lemma_push_to_set(names_view(add.drop_last()), n@);
        assert(names_view(merged_names(base, add)).to_set() =~= names_view(base).to_set()
            + names_view(add).to_set());
    }
}


/// Track to which a keyframe for bone `id` is added: its first track, or a
/// new one appended at the end.
pub open spec fn insert_track_index<T>(tracks: Seq<TrackView<T>>, id: Seq<char>) -> int {
    match find_track(tracks, id) {
        Some(i) => i,
        None => tracks.len() as int,
    }
}

/// The tracks with an empty track for bone `id` appended if it has none.
pub open spec fn tracks_with_track<T>(tracks: Seq<TrackView<T>>, id: Seq<char>) -> Seq<TrackView<T>> {
    if find_track(tracks, id) is Some {
        tracks
    } else {
        tracks.push((id, seq![]))
    }
}

/// Index that a keyframe inserted at `t` ends up at: the keyframe already
/// at that time, or the insertion position.
pub open spec fn inserted_index<T>(kfs: Seq<Keyframe<T>>, t: int) -> int {
    match find_near(kfs, t) {
        Some(i) => i,
        None => insert_position(kfs, t),
    }
}

/// Keyframes after inserting `transform` at `t`: a keyframe already at that
/// time takes the transform in place; otherwise a new keyframe goes before
/// the first later one.
pub open spec fn keyframes_after_insert<T>(kfs: Seq<Keyframe<T>>, t: int, transform: T) -> Seq<Keyframe<T>> {
    match find_near(kfs, t) {
        Some(i) => kfs.update(i, Keyframe { time: kfs[i].time, transform }),
        None => kfs.insert(insert_position(kfs, t), Keyframe { time: t as i64, transform }),
    }
}

/// Tracks after inserting a keyframe for bone `id` at `t`.
pub open spec fn tracks_after_insert<T>(tracks: Seq<TrackView<T>>, id: Seq<char>, t: int, transform: T) -> Seq<TrackView<T>> {
    let tw = tracks_with_track(tracks, id);
    let ti = insert_track_index(tracks, id);
    tw.update(ti, (id, keyframes_after_insert(tw[ti].1, t, transform)))
}

/// The keyframes from index `k` on that are not selected under bone `id`.
pub open spec fn unselected_from<T>(kfs: Seq<Keyframe<T>>, id: Seq<char>, sel: Set<KeyView>, k: int) -> Seq<Keyframe<T>>
    decreases kfs.len() - k,
{
    if k < 0 || k >= kfs.len() {
        seq![]
    } else {
        (if sel.contains((id, k as usize)) {
            seq![]
        } else {
            seq![kfs[k]]
        }) + unselected_from(kfs, id, sel, k + 1)
    }
}

/// Track `i` with its selected keyframes dropped, when it is the first
/// track of its bone; later tracks of the same bone are left alone.
pub open spec fn pruned_track<T>(tracks: Seq<TrackView<T>>, sel: Set<KeyView>, i: int) -> TrackView<T> {
    if find_track(tracks, tracks[i].0) == Some(i) {
        (tracks[i].0, unselected_from(tracks[i].1, tracks[i].0, sel, 0))
    } else {
        tracks[i]
    }
}

/// The tracks that still have keyframes, in order.
pub open spec fn nonempty_tracks<T>(s: Seq<TrackView<T>>) -> Seq<TrackView<T>>
    decreases s.len(),
{
    if s.len() == 0 {
        seq![]
    } else {
        nonempty_tracks(s.drop_last()) + if s.last().1.len() > 0 {
            seq![s.last()]
        } else {
            seq![]
        }
    }
}

/// Tracks after deleting the selected keyframes and dropping emptied tracks.
pub open spec fn tracks_after_delete<T>(tracks: Seq<TrackView<T>>, sel: Set<KeyView>) -> Seq<TrackView<T>> {
    nonempty_tracks(Seq::new(tracks.len(), |i: int| pruned_track(tracks, sel, i)))
}

impl<T> SkeletalAnimEditorPanel<T> {
    /// The keyframe multi-selection as a set of plain values.
    pub open spec fn selection(self) -> Set<KeyView> {
        keys_view(self.selected_keyframes@).to_set()
    }

    /// The expanded hierarchy folders as a set of bone ids.
    pub open spec fn expanded(self) -> Set<Seq<char>> {
        names_view(self.expanded_bones@).to_set()
    }

    /// The clip's tracks as plain values.
    pub open spec fn tracks(self) -> Seq<TrackView<T>> {
        tracks_view(self.animation.tracks@)
    }

    /// The editor's invariant: the selection lists hold no entry twice, and
    /// the primary keyframe is present exactly when the multi-selection is
    /// non-empty, and is then part of it.
    pub open spec fn wf(self) -> bool {
        &&& keys_view(self.selected_keyframes@).no_duplicates()
        &&& names_view(self.expanded_bones@).no_duplicates()
        &&& match self.selected_keyframe {
            None => self.selected_keyframes.len() == 0,
            Some(k) => self.selection().contains(key_view(k)),
        }
    }

    /// Everything but the keyframe selection is as in `other`.
    pub open spec fn same_but_keyframe_selection(self, other: Self) -> bool {
        &&& self.is_dirty == other.is_dirty
        &&& self.skeleton == other.skeleton
        &&& self.animation == other.animation
        &&& self.selected_bone == other.selected_bone
        &&& self.expanded_bones == other.expanded_bones
        &&& self.playback == other.playback
        &&& self.play_range == other.play_range
    }

    /// The key the selection is resynced to: the selected bone's keyframe at
    /// the playhead, if it has one.
    pub open spec fn resynced_key(self) -> Option<(String, usize)> {
        match self.selected_bone {
            Some(b) => match keyframe_at_spec(self.tracks(), b@, self.playback.time as int) {
                Some(i) => Some((b, i as usize)),
                None => None,
            },
            None => None,
        }
    }

    fn clone_key(k: &(String, usize)) -> (r: (String, usize))
        ensures
            r == *k,
    {
        (k.0.clone(), k.1)
    }

    fn key_position(&self, key: &(String, usize)) -> (r: Option<usize>)
        ensures
            match key_position_from(keys_view(self.selected_keyframes@), key_view(*key), 0) {
                Some(i) => r == Some(i as usize),
                None => r is None,
            },
            match r {
                Some(i) => i < self.selected_keyframes.len() && key_position_from(
                    keys_view(self.selected_keyframes@),
                    key_view(*key),
                    0,
                ) == Some(i as int) && keys_view(self.selected_keyframes@)[i as int] == key_view(*key),
                None => !keys_view(self.selected_keyframes@).contains(key_view(*key)),
            },
    {
        proof {
            lemma_key_position_from(keys_view(self.selected_keyframes@), key_view(*key), 0);
        }
        let mut i: usize = 0;
        while i < self.selected_keyframes.len()
            invariant
                i <= self.selected_keyframes.len(),
                key_position_from(keys_view(self.selected_keyframes@), key_view(*key), 0)
                    == key_position_from(keys_view(self.selected_keyframes@), key_view(*key), i as int),
            decreases self.selected_keyframes.len() - i,
        {
            let k = &self.selected_keyframes[i];
            if k.0 == key.0 && k.1 == key.1 {
                return Some(i);
            }
            i = i + 1;
        }
        None
    }

    fn expanded_position(&self, id: &String) -> (r: Option<usize>)
        ensures
            match name_position_from(names_view(self.expanded_bones@), id@, 0) {
                Some(i) => r == Some(i as usize),
                None => r is None,
            },
            match r {
                Some(i) => i < self.expanded_bones.len() && name_position_from(
                    names_view(self.expanded_bones@),
                    id@,
                    0,
                ) == Some(i as int) && names_view(self.expanded_bones@)[i as int] == id@,
                None => !names_view(self.expanded_bones@).contains(id@),
            },
    {
        proof {
            lemma_name_position_from(names_view(self.expanded_bones@), id@, 0);
        }
        let mut i: usize = 0;
        while i < self.expanded_bones.len()
            invariant
                i <= self.expanded_bones.len(),
                name_position_from(names_view(self.expanded_bones@), id@, 0) == name_position_from(
                    names_view(self.expanded_bones@),
                    id@,
                    i as int,
                ),
            decreases self.expanded_bones.len() - i,
        {
            if self.expanded_bones[i] == *id {
                return Some(i);
            }
            i = i + 1;
        }
        None
    }

    /// Add `id` to the expanded folders unless it is there already.
    fn expand(&mut self, id: String)
        requires
            names_view(old(self).expanded_bones@).no_duplicates(),
        ensures
            final(self).expanded_bones@ == merged_names(old(self).expanded_bones@, seq![id]),
            names_view(final(self).expanded_bones@).no_duplicates(),
            final(self).expanded() == old(self).expanded().insert(id@),
            final(self).is_dirty == old(self).is_dirty,
            final(self).skeleton == old(self).skeleton,
            final(self).animation == old(self).animation,
            final(self).selected_bone == old(self).selected_bone,
            final(self).selected_keyframe == old(self).selected_keyframe,
            final(self).selected_keyframes == old(self).selected_keyframes,
            final(self).playback == old(self).playback,
            final(self).play_range == old(self).play_range,
    {
        proof {
            lemma_merged_names(self.expanded_bones@, seq![id]);
            lemma_name_position_from(names_view(self.expanded_bones@), id@, 0);
            assert(seq![id].drop_last() =~= Seq::<String>::empty());
            assert(names_view(seq![id]) =~= seq![id@]);
            assert(merged_names(self.expanded_bones@, Seq::<String>::empty()) == self.expanded_bones@);
            lemma_single_to_set(id@);
            assert(merged_names(self.expanded_bones@, seq![id]) == if names_view(self.expanded_bones@).contains(id@) {
                self.expanded_bones@
            } else {
                self.expanded_bones@.push(id)
            });
        }
        if self.expanded_position(&id).is_none() {
            self.expanded_bones.push(id);
        }
    }

    /// Select a single keyframe on a bone's track, replacing any existing
    /// multi-selection.
    pub fn select_keyframe(&mut self, keyframe: Option<(String, usize)>)
        ensures
            final(self).same_but_keyframe_selection(*old(self)),
            final(self).selected_keyframe == keyframe,
            final(self).selected_keyframes@ == match keyframe {
                Some(k) => seq![k],
                None => Seq::<(String, usize)>::empty(),
            },
            final(self).selection() == match keyframe {
                Some(k) => set![key_view(k)],
                None => Set::<KeyView>::empty(),
            },
            old(self).wf() ==> final(self).wf(),
    {
        self.selected_keyframes.clear();
        if let Some(key) = &keyframe {
            self.selected_keyframes.push(Self::clone_key(key));
        }
        self.selected_keyframe = keyframe;
        proof {
            let s = self.selected_keyframes@;
            if s.len() == 1 {
                assert(keys_view(s) =~= seq![key_view(s[0])]);
                lemma_single_to_set(key_view(s[0]));
            } else {
                assert(keys_view(s).to_set() =~= Set::<KeyView>::empty());
            }
        }
    }

    /// Toggle whether `key` is part of the multi-selection; the primary
    /// selection becomes the first key left selected, if any.
    pub fn toggle_keyframe_selection(&mut self, key: (String, usize))
        requires
            old(self).wf(),
        ensures
            final(self).wf(),
            final(self).same_but_keyframe_selection(*old(self)),
            final(self).selected_keyframes@ == toggled_keys(old(self).selected_keyframes@, key),
            final(self).selected_keyframe == first_key(final(self).selected_keyframes@),
            final(self).selection() == set_toggled(old(self).selection(), key_view(key)),
    {
        let ghost old_keys = self.selected_keyframes@;
        proof {
            lemma_key_position_from(keys_view(old_keys), key_view(key), 0);
            lemma_toggled_keys(old_keys, key);
        }
        match self.key_position(&key) {
            Some(i) => {
                self.selected_keyframes.remove(i);
            },
            None => {
                self.selected_keyframes.push(Self::clone_key(&key));
            },
        }
        self.selected_keyframe = if self.selected_keyframes.len() > 0 {
            Some(Self::clone_key(&self.selected_keyframes[0]))
        } else {
            None
        };
        proof {
            let s = self.selected_keyframes@;
            if s.len() > 0 {
                assert(keys_view(s)[0] == key_view(s[0]));
                assert(keys_view(s).to_set().contains(key_view(s[0])));
            }
        }
    }

    /// Replace the keyframe multi-selection wholesale (box-select), or with
    /// `additive` merge `keys` into it; a key listed twice is kept once. The
    /// primary selection becomes the first selected key, if any.
    pub fn set_selected_keyframes(&mut self, keys: Vec<(String, usize)>, additive: bool)
        requires
            old(self).wf(),
        ensures
            final(self).wf(),
            final(self).same_but_keyframe_selection(*old(self)),
            final(self).selected_keyframes@ == if additive {
                merged_keys(old(self).selected_keyframes@, keys@)
            } else {
                merged_keys(Seq::empty(), keys@)
            },
            final(self).selected_keyframe == first_key(final(self).selected_keyframes@),
            final(self).selection() == if additive {
                old(self).selection() + keys_view(keys@).to_set()
            } else {
                keys_view(keys@).to_set()
            },
    {
        if !additive {
            self.selected_keyframes.clear();
            proof {
                assert(keys_view(self.selected_keyframes@) =~= Seq::<KeyView>::empty());
            }
        }
        let ghost base = self.selected_keyframes@;
        let mut i: usize = 0;
        while i < keys.len()
            invariant
                i <= keys.len(),
                keys_view(base).no_duplicates(),
                self.selected_keyframes@ == merged_keys(base, keys@.take(i as int)),
                self.same_but_keyframe_selection(*old(self)),
            decreases keys.len() - i,
        {
            proof {
                assert(keys@.take(i + 1).drop_last() =~= keys@.take(i as int));
                assert(keys@.take(i + 1).last() == keys@[i as int]);
                lemma_merged_keys(base, keys@.take(i as int));
            }
            let present = self.key_position(&keys[i]).is_some();
            proof {
                lemma_key_position_from(keys_view(self.selected_keyframes@), key_view(keys@[i as int]), 0);
                let kv = keys_view(self.selected_keyframes@);
                if !present {
                    assert(!kv.contains(key_view(keys@[i as int])));
                } else {
                    assert(kv.contains(key_view(keys@[i as int])));
                }
            }
            if !present {
                self.selected_keyframes.push(Self::clone_key(&keys[i]));
            }
            i = i + 1;
        }
        proof {
            assert(keys@.take(keys.len() as int) =~= keys@);
            lemma_merged_keys(base, keys@);
            if !additive {
                assert(keys_view(base).to_set() =~= Set::<KeyView>::empty());
            }
        }
        self.selected_keyframe = if self.selected_keyframes.len() > 0 {
            Some(Self::clone_key(&self.selected_keyframes[0]))
        } else {
            None
        };
        proof {
            let s = self.selected_keyframes@;
            if s.len() > 0 {
                assert(keys_view(s)[0] == key_view(s[0]));
                assert(keys_view(s).to_set().contains(key_view(s[0])));
            }
            assert(keys_view(base) + keys_view(keys@) == keys_view(base) + keys_view(keys@));
            if additive {
                assert(old(self).selection() == keys_view(base).to_set());
            }
        }
    }

    /// The index of `bone_id`'s keyframe at the current playhead time, if
    /// any, on the bone's first track.
    pub fn keyframe_at_playhead(&self, bone_id: &str) -> (r: Option<usize>)
        ensures
            match keyframe_at_spec(self.tracks(), bone_id@, self.playback.time as int) {
                Some(i) => r == Some(i as usize),
                None => r is None,
            },
            match r {
                Some(i) => keyframe_at_spec(self.tracks(), bone_id@, self.playback.time as int) == Some(
                    i as int,
                ),
                None => keyframe_at_spec(self.tracks(), bone_id@, self.playback.time as int) is None,
            },
    {
        proof {
            crate::animation::lemma_find_track(self.tracks(), bone_id@);
        }
        match self.animation.track(bone_id) {
            Some(t) => t.keyframe_near(self.playback.time),
            None => None,
        }
    }

    /// Reset the keyframe selection to the selected bone's keyframe at the
    /// playhead, or clear it when there is none.
    fn resync_selected_keyframe(&mut self)
        requires
            names_view(old(self).expanded_bones@).no_duplicates(),
        ensures
            final(self).wf(),
            final(self).same_but_keyframe_selection(*old(self)),
            final(self).selected_keyframe == old(self).resynced_key(),
            final(self).selected_keyframes@ == match old(self).resynced_key() {
                Some(k) => seq![k],
                None => Seq::<(String, usize)>::empty(),
            },
    {
        let key = match &self.selected_bone {
            Some(bone_id) => match self.keyframe_at_playhead(bone_id) {
                Some(idx) => Some((bone_id.clone(), idx)),
                None => None,
            },
            None => None,
        };
        self.select_keyframe(key);
        proof {
            let s = self.selected_keyframes@;
            if s.len() == 1 {
                assert(keys_view(s) =~= seq![key_view(s[0])]);
            }
        }
    }

    /// Mark the ancestors of `bone_id` as expanded, nearest first, so that a
    /// selected bone is visible in the hierarchy.
    fn expand_ancestors(&mut self, bone_id: &String)
        requires
            names_view(old(self).expanded_bones@).no_duplicates(),
        ensures
            final(self).expanded_bones@ == merged_names(
                old(self).expanded_bones@,
                ancestor_chain(old(self).skeleton.bones@, bone_id@, old(self).skeleton.bones.len() as nat),
            ),
            names_view(final(self).expanded_bones@).no_duplicates(),
            final(self).expanded() == old(self).expanded() + names_view(
                ancestor_chain(old(self).skeleton.bones@, bone_id@, old(self).skeleton.bones.len() as nat),
            ).to_set(),
            final(self).is_dirty == old(self).is_dirty,
            final(self).skeleton == old(self).skeleton,
            final(self).animation == old(self).animation,
            final(self).selected_bone == old(self).selected_bone,
            final(self).selected_keyframe == old(self).selected_keyframe,
            final(self).selected_keyframes == old(self).selected_keyframes,
            final(self).playback == old(self).playback,
            final(self).play_range == old(self).play_range,
    {
        let ghost bones = self.skeleton.bones@;
        let ghost base = self.expanded_bones@;
        let ghost chain = ancestor_chain(bones, bone_id@, bones.len() as nat);
        let n = self.skeleton.bones.len();
        let mut cur: String = bone_id.clone();
        let mut steps: usize = 0;
        let mut done = false;
        let ghost mut added: Seq<String> = seq![];
        while steps < n && !done
            invariant
                bones == self.skeleton.bones@,
                n == bones.len(),
                steps <= n,
                added.len() == steps,
                chain == added + if done {
                    seq![]
                } else {
                    ancestor_chain(bones, cur@, (n - steps) as nat)
                },
                self.expanded_bones@ == merged_names(base, added),
                names_view(base).no_duplicates(),
                names_view(self.expanded_bones@).no_duplicates(),
                self.is_dirty == old(self).is_dirty,
                self.skeleton == old(self).skeleton,
                self.animation == old(self).animation,
                self.selected_bone == old(self).selected_bone,
                self.selected_keyframe == old(self).selected_keyframe,
                self.selected_keyframes == old(self).selected_keyframes,
                self.playback == old(self).playback,
                self.play_range == old(self).play_range,
            decreases n - steps, if done { 0int } else { 1int },
        {
            let parent = match self.skeleton.bone(&cur) {
                Some(b) => match &b.parent {
                    Some(p) => Some(p.clone()),
                    None => None,
                },
                None => None,
            };
            match parent {
                Some(p) => {
                    proof {
                        let rest = ancestor_chain(bones, p@, (n - steps - 1) as nat);
                        assert(ancestor_chain(bones, cur@, (n - steps) as nat) == seq![p] + rest);
                        assert(added + (seq![p] + rest) =~= added.push(p) + rest);
                        assert(added.push(p).drop_last() =~= added);
                        lemma_merged_names(base, added);
                    }
                    self.expand(p.clone());
                    proof {
                        let m = merged_names(base, added);
                        assert(added.push(p).last() == p);
                        assert(seq![p].drop_last() =~= Seq::<String>::empty());
                        assert(merged_names(m, Seq::<String>::empty()) == m);
                        assert(merged_names(base, added.push(p)) == merged_names(m, seq![p]));
                        added = added.push(p);
                    }
                    cur = p;
                    steps = steps + 1;
                },
                None => {
                    proof {
                        assert(ancestor_chain(bones, cur@, (n - steps) as nat) =~= Seq::<String>::empty());
                        assert(added + Seq::<String>::empty() =~= added);
                    }
                    done = true;
                },
            }
        }
        proof {
            if !done {
                assert(ancestor_chain(bones, cur@, 0) =~= Seq::<String>::empty());
            }
            assert(added + Seq::<String>::empty() =~= added);
            assert(chain == added);
            lemma_merged_names(base, chain);
        }
    }

    /// Select a bone (or clear the selection), expanding its ancestors in
    /// the hierarchy. The keyframe selection is resynced to whatever the
    /// new bone has keyed at the current playhead time.
    pub fn select_bone(&mut self, bone_id: Option<String>)
        requires
            old(self).wf(),
        ensures
            final(self).wf(),
            final(self).selected_bone == bone_id,
            final(self).expanded_bones@ == match bone_id {
                Some(id) => merged_names(
                    old(self).expanded_bones@,
                    ancestor_chain(old(self).skeleton.bones@, id@, old(self).skeleton.bones.len() as nat),
                ),
                None => old(self).expanded_bones@,
            },
            final(self).expanded() == match bone_id {
                Some(id) => old(self).expanded() + names_view(
                    ancestor_chain(old(self).skeleton.bones@, id@, old(self).skeleton.bones.len() as nat),
                ).to_set(),
                None => old(self).expanded(),
            },
            final(self).selected_keyframe == (SkeletalAnimEditorPanel {
                selected_bone: bone_id,
                ..*old(self)
            }).resynced_key(),
            final(self).selected_keyframes@ == match final(self).selected_keyframe {
                Some(k) => seq![k],
                None => Seq::<(String, usize)>::empty(),
            },
            final(self).is_dirty == old(self).is_dirty,
            final(self).skeleton == old(self).skeleton,
            final(self).animation == old(self).animation,
            final(self).playback == old(self).playback,
            final(self).play_range == old(self).play_range,
    {
        if let Some(id) = &bone_id {
            self.expand_ancestors(id);
        }
        self.selected_bone = bone_id;
        self.resync_selected_keyframe();
    }
}

/// A track pushed onto the list is found by its id when no earlier track
/// has that id.
proof fn lemma_find_pushed_track<T>(tracks: Seq<TrackView<T>>, t: TrackView<T>)
    requires
        find_track(tracks, t.0) is None,
    ensures
        find_track(tracks.push(t), t.0) == Some(tracks.len() as int),
{
    crate::animation::lemma_find_track(tracks, t.0);
    crate::animation::lemma_find_track(tracks.push(t), t.0);
    assert(tracks.push(t)[tracks.len() as int] == t);
    match find_track(tracks.push(t), t.0) {
        Some(j) => {
            if j < tracks.len() {
                assert(tracks.push(t)[j] == tracks[j]);
            }
        },
        None => {},
    }
}

impl<T> SkeletalAnimEditorPanel<T> {
    /// `self` is what inserting a keyframe holding `transform` at the
    /// playhead makes of `old`: nothing changes without a selected bone;
    /// otherwise the bone's track (created if missing) gets the keyframe,
    /// which becomes the only selected one.
    pub open spec fn is_insert_of(self, old: Self, transform: T) -> bool {
        match old.selected_bone {
            None => self == old,
            Some(b) => {
                let tv = tracks_with_track(old.tracks(), b@);
                let ti = insert_track_index(old.tracks(), b@);
                let index = inserted_index(tv[ti].1, old.playback.time as int);
                &&& self.tracks() == tracks_after_insert(
                    old.tracks(),
                    b@,
                    old.playback.time as int,
                    transform,
                )
                &&& self.is_dirty
                &&& self.selected_keyframe == Some((b, index as usize))
                &&& self.selected_keyframe == self.resynced_key()
                &&& self.selected_keyframes@ == seq![(b, index as usize)]
                &&& self.animation.name == old.animation.name
                &&& self.animation.duration == old.animation.duration
                &&& self.animation.fps_milli == old.animation.fps_milli
                &&& self.skeleton == old.skeleton
                &&& self.selected_bone == old.selected_bone
                &&& self.expanded_bones == old.expanded_bones
                &&& self.playback == old.playback
                &&& self.play_range == old.play_range
            },
        }
    }

    /// `self` is what removing the selected bone's keyframe at the playhead
    /// makes of `old`: nothing changes when there is none; otherwise the
    /// keyframe leaves its track, a track left empty goes, and the keyframe
    /// selection is resynced to the playhead.
    pub open spec fn is_playhead_delete_of(self, old: Self) -> bool {
        match old.selected_bone {
            None => self == old,
            Some(b) => match keyframe_at_spec(old.tracks(), b@, old.playback.time as int) {
                None => self == old,
                Some(k) => {
                    let ti = find_track(old.tracks(), b@)->Some_0;
                    &&& self.tracks() == nonempty_tracks(
                        old.tracks().update(ti, (b@, old.tracks()[ti].1.remove(k))),
                    )
                    &&& self.is_dirty
                    &&& self.selected_keyframe == self.resynced_key()
                    &&& self.selected_keyframes@ == match self.resynced_key() {
                        Some(key) => seq![key],
                        None => Seq::<(String, usize)>::empty(),
                    }
                    &&& self.animation.name == old.animation.name
                    &&& self.animation.duration == old.animation.duration
                    &&& self.animation.fps_milli == old.animation.fps_milli
                    &&& self.skeleton == old.skeleton
                    &&& self.selected_bone == old.selected_bone
                    &&& self.expanded_bones == old.expanded_bones
                    &&& self.playback == old.playback
                    &&& self.play_range == old.play_range
                },
            },
        }
    }

    /// Insert (or update) a keyframe on the selected bone's track at the
    /// current playhead time, holding `transform` (the bone's current pose).
    /// Creates the track if the bone has none yet. A keyframe already at
    /// that time takes the transform in place rather than being duplicated.
    /// The new keyframe becomes the selection. No-op if no bone is selected.
    pub fn insert_keyframe(&mut self, transform: T)
        requires
            old(self).wf(),
        ensures
            final(self).wf(),
            final(self).is_insert_of(*old(self), transform),
    {
        let bone_id = match &self.selected_bone {
            Some(b) => b.clone(),
            None => return ,
        };
        let time = self.playback.time;
        let ghost old_tracks = self.tracks();
        proof {
            crate::animation::lemma_find_track(old_tracks, bone_id@);
        }
        if self.animation.track_index(&bone_id).is_none() {
            self.animation.tracks.push(BoneTrack { bone_id: bone_id.clone(), keyframes: Vec::new() });
            proof {
                assert(self.tracks() =~= old_tracks.push((bone_id@, seq![])));
                lemma_find_pushed_track(old_tracks, (bone_id@, seq![]));
            }
        }
        let ghost tw = self.tracks();
        assert(tw == tracks_with_track(old_tracks, bone_id@));
        let ti = match self.animation.track_index(&bone_id) {
            Some(i) => i,
            None => {
                proof {
                    assert(false);
                }
                return ;
            },
        };
        assert(ti == insert_track_index(old_tracks, bone_id@));
        let ghost kfs = self.animation.tracks@[ti as int].keyframes@;
        assert(kfs == tw[ti as int].1);
        proof {
            crate::animation::lemma_find_near(kfs, time as int);
        }
        let ghost tr = transform;
        let index = match self.animation.tracks[ti].keyframe_near(time) {
            Some(i) => {
                self.animation.tracks[ti].keyframes[i].transform = transform;
                assert(self.animation.tracks@[ti as int].keyframes@ =~= kfs.update(
                    i as int,
                    Keyframe { time: kfs[i as int].time, transform: tr },
                ));
                assert(find_near(kfs, time as int) == Some(i as int));
                assert(self.animation.tracks@[ti as int].keyframes@ == keyframes_after_insert(
                    kfs,
                    time as int,
                    tr,
                ));
                i
            },
            None => {
                let pos = self.animation.tracks[ti].insert_position(time);
                self.animation.tracks[ti].keyframes.insert(pos, Keyframe { time, transform });
                assert(self.animation.tracks@[ti as int].keyframes@ =~= kfs.insert(
                    pos as int,
                    Keyframe { time, transform: tr },
                ));
                assert(find_near(kfs, time as int) is None);
                assert(self.animation.tracks@[ti as int].keyframes@ == keyframes_after_insert(
                    kfs,
                    time as int,
                    tr,
                ));
                pos
            },
        };
        proof {
            assert(self.animation.tracks@[ti as int].keyframes@ =~= keyframes_after_insert(
                kfs,
                time as int,
                tr,
            ));
            assert(self.tracks() =~= tw.update(
                ti as int,
                (bone_id@, keyframes_after_insert(kfs, time as int, tr)),
            ));
        }
        self.is_dirty = true;
        proof {
            crate::keyframe_laws::law_insert_then_keyframe_at_playhead(old_tracks, bone_id@, time as int, tr);
        }
        self.select_keyframe(Some((bone_id, index)));
        proof {
            lemma_single_to_set(key_view(self.selected_keyframes@[0]));
            assert(keys_view(self.selected_keyframes@) =~= seq![key_view(self.selected_keyframes@[0])]);
        }
    }
}

impl<T> SkeletalAnimEditorPanel<T> {
    /// The clip as it was but for its tracks.
    pub open spec fn same_but_tracks(self, other: Self) -> bool {
        &&& self.animation.name == other.animation.name
        &&& self.animation.duration == other.animation.duration
        &&& self.animation.fps_milli == other.animation.fps_milli
        &&& self.is_dirty == other.is_dirty
        &&& self.skeleton == other.skeleton
        &&& self.selected_bone == other.selected_bone
        &&& self.expanded_bones == other.expanded_bones
        &&& self.selected_keyframe == other.selected_keyframe
        &&& self.selected_keyframes == other.selected_keyframes
        &&& self.playback == other.playback
        &&& self.play_range == other.play_range
    }

    /// Whether `(id, k)` is part of the keyframe multi-selection.
    fn is_key_selected(&self, id: &String, k: usize) -> (r: bool)
        ensures
            r == self.selection().contains((id@, k)),
    {
        let mut i: usize = 0;
        while i < self.selected_keyframes.len()
            invariant
                i <= self.selected_keyframes.len(),
                forall|j: int| 0 <= j < i ==> keys_view(self.selected_keyframes@)[j] != (id@, k),
            decreases self.selected_keyframes.len() - i,
        {
            let e = &self.selected_keyframes[i];
            if e.0 == *id && e.1 == k {
                assert(keys_view(self.selected_keyframes@)[i as int] == (id@, k));
                return true;
            }
            i = i + 1;
        }
        false
    }

    /// Drop the tracks left with no keyframes.
    fn drop_empty_tracks(&mut self)
        ensures
            final(self).tracks() == nonempty_tracks(old(self).tracks()),
            final(self).same_but_tracks(*old(self)),
    {
        let ghost mid = self.tracks();
        let mut i: usize = 0;
        let ghost mut j: int = 0;
        while i < self.animation.tracks.len()
            invariant
                0 <= j <= mid.len(),
                self.tracks() == nonempty_tracks(mid.take(j)) + mid.skip(j),
                i == nonempty_tracks(mid.take(j)).len(),
                self.same_but_tracks(*old(self)),
            decreases self.animation.tracks.len() - i,
        {
            let ghost cur = self.tracks();
            proof {
                assert(mid.take(j + 1).drop_last() =~= mid.take(j));
                assert(mid.take(j + 1).last() == mid[j]);
                assert(cur[i as int] == mid.skip(j)[0]);
                assert(mid.skip(j)[0] == mid[j]);
            }
            if self.animation.tracks[i].keyframes.len() == 0 {
                self.animation.tracks.remove(i);
                proof {
                    assert(self.tracks() =~= cur.remove(i as int));
                    assert(nonempty_tracks(mid.take(j + 1)) == nonempty_tracks(mid.take(j)));
                    assert(cur.remove(i as int) =~= nonempty_tracks(mid.take(j)) + mid.skip(j + 1));
                }
            } else {
                proof {
                    assert(nonempty_tracks(mid.take(j + 1)) == nonempty_tracks(mid.take(j)).push(mid[j]));
                    assert(cur =~= nonempty_tracks(mid.take(j + 1)) + mid.skip(j + 1));
                }
                i = i + 1;
            }
            proof {
                j = j + 1;
            }
        }
        proof {
            assert(j == mid.len());
            assert(mid.take(j) =~= mid);
            assert(mid.skip(j) =~= Seq::<TrackView<T>>::empty());
            assert(self.tracks() =~= nonempty_tracks(mid));
        }
    }

    /// Remove every keyframe in the current multi-selection from its bone's
    /// first track, drop the tracks left empty, and clear the selection.
    /// No-op if nothing is selected.
    pub fn delete_selected_keyframes(&mut self)
        requires
            old(self).wf(),
        ensures
            final(self).wf(),
            old(self).selected_keyframes.len() == 0 ==> *final(self) == *old(self),
            old(self).selected_keyframes.len() > 0 ==> {
                &&& final(self).tracks() == tracks_after_delete(old(self).tracks(), old(self).selection())
                &&& final(self).is_dirty
                &&& final(self).selected_keyframe is None
                &&& final(self).selected_keyframes.len() == 0
                &&& final(self).animation.name == old(self).animation.name
                &&& final(self).animation.duration == old(self).animation.duration
                &&& final(self).animation.fps_milli == old(self).animation.fps_milli
                &&& final(self).skeleton == old(self).skeleton
                &&& final(self).selected_bone == old(self).selected_bone
                &&& final(self).expanded_bones == old(self).expanded_bones
                &&& final(self).playback == old(self).playback
                &&& final(self).play_range == old(self).play_range
            },
    {
        if self.selected_keyframes.len() == 0 {
            return ;
        }
        let ghost start = *self;
        let ghost old_tv = self.tracks();
        let ghost sel = self.selection();
        let n = self.animation.tracks.len();
        let mut firsts: Vec<bool> = Vec::new();
        let mut m: usize = 0;
        while m < n
            invariant
                n == self.animation.tracks.len(),
                old_tv == self.tracks(),
                m <= n,
                firsts.len() == m,
                forall|x: int| 0 <= x < m ==> firsts@[x] == (find_track(old_tv, old_tv[x].0) == Some(x)),
            decreases n - m,
        {
            let is_first = match self.animation.track_index(&self.animation.tracks[m].bone_id) {
                Some(x) => x == m,
                None => false,
            };
            firsts.push(is_first);
            m = m + 1;
        }
        let mut ti: usize = 0;
        while ti < n
            invariant
                n == self.animation.tracks.len(),
                n == old_tv.len(),
                ti <= n,
                firsts.len() == n,
                forall|x: int| 0 <= x < n ==> firsts@[x] == (find_track(old_tv, old_tv[x].0) == Some(x)),
                forall|x: int| 0 <= x < ti ==> self.tracks()[x] == pruned_track(old_tv, sel, x),
                forall|x: int| ti <= x < n ==> self.tracks()[x] == old_tv[x],
                sel == self.selection(),
                self.same_but_tracks(start),
            decreases n - ti,
        {
            if firsts[ti] {
                let ghost before = self.tracks();
                let ghost kfs0 = old_tv[ti as int].1;
                let id = self.animation.tracks[ti].bone_id.clone();
                assert(id@ == old_tv[ti as int].0);
                let mut k: usize = self.animation.tracks[ti].keyframes.len();
                assert(kfs0.take(k as int) =~= kfs0);
                while k > 0
                    invariant
                        n == self.animation.tracks.len(),
                        ti < n,
                        k <= kfs0.len(),
                        self.animation.tracks@[ti as int].bone_id@ == id@,
                        self.animation.tracks@[ti as int].keyframes@ == kfs0.take(k as int)
                            + unselected_from(kfs0, id@, sel, k as int),
                        forall|x: int| 0 <= x < n && x != ti ==> self.tracks()[x] == before[x],
                        sel == self.selection(),
                        self.same_but_tracks(start),
                    decreases k,
                {
                    k = k - 1;
                    let ghost cur = self.animation.tracks@[ti as int].keyframes@;
                    proof {
                        assert(cur[k as int] == kfs0[k as int]);
                    }
                    if self.is_key_selected(&id, k) {
                        self.animation.tracks[ti].keyframes.remove(k);
                        proof {
                            assert(self.animation.tracks@[ti as int].keyframes@ =~= kfs0.take(k as int)
                                + unselected_from(kfs0, id@, sel, k as int));
                        }
                    } else {
                        proof {
                            assert(cur =~= kfs0.take(k as int) + unselected_from(kfs0, id@, sel, k as int));
                        }
                    }
                }
                proof {
                    assert(kfs0.take(0) + unselected_from(kfs0, id@, sel, 0) =~= unselected_from(
                        kfs0,
                        id@,
                        sel,
                        0,
                    ));
                    assert(self.tracks()[ti as int] == pruned_track(old_tv, sel, ti as int));
                }
            } else {
                assert(self.tracks()[ti as int] == pruned_track(old_tv, sel, ti as int));
            }
            ti = ti + 1;
        }
        proof {
            assert(self.tracks() =~= Seq::new(old_tv.len(), |i: int| pruned_track(old_tv, sel, i)));
        }
        self.drop_empty_tracks();
        self.is_dirty = true;
        self.select_keyframe(None);
    }

    /// Remove the selected bone's keyframe at the current playhead time, if
    /// any, drop its track if that empties it, and resync the selection.
    /// No-op if no bone is selected or it has no keyframe there.
    #[verifier::rlimit(40)]
    pub fn delete_keyframe_at_playhead(&mut self)
        requires
            old(self).wf(),
        ensures
            final(self).wf(),
            final(self).is_playhead_delete_of(*old(self)),
    {
        let bone_id = match &self.selected_bone {
            Some(b) => b.clone(),
            None => return ,
        };
        let index = match self.keyframe_at_playhead(&bone_id) {
            Some(i) => i,
            None => return ,
        };
        let ghost old_tv = self.tracks();
        assert(keyframe_at_spec(old_tv, bone_id@, self.playback.time as int) == Some(index as int));
        proof {
            crate::animation::lemma_find_track(old_tv, bone_id@);
            crate::animation::lemma_find_near(old_tv[find_track(old_tv, bone_id@)->Some_0].1, self.playback.time as int);
        }
        let ti = match self.animation.track_index(&bone_id) {
            Some(i) => i,
            None => {
                proof {
                    assert(false);
                }
                return ;
            },
        };
        assert(find_track(old_tv, bone_id@) == Some(ti as int));
        self.animation.tracks[ti].keyframes.remove(index);
        proof {
            assert(self.tracks() =~= old_tv.update(
                ti as int,
                (bone_id@, old_tv[ti as int].1.remove(index as int)),
            ));
        }
        self.drop_empty_tracks();
        self.is_dirty = true;
        self.resync_selected_keyframe();
    }
}

/// Floor of `a / b` for a positive `b`, on whole microseconds.
fn div_floor(a: i64, b: i64) -> (r: i64)
    requires
        b > 0,
        a > i64::MIN,
    ensures
        r as int == a as int / b as int,
{
    if a >= 0 {
        a / b
    } else {
        let q = (-a - 1) / b;
        proof {
            let x = (-a - 1) as int;
            let qq = x / (b as int);
            let rr = x % (b as int);
            vstd::arithmetic::div_mod::lemma_fundamental_div_mod(x, b as int);
            assert(a as int == (-qq - 1) * (b as int) + ((b as int) - rr - 1)) by (nonlinear_arith)
                requires
                    x == (b as int) * qq + rr,
                    x == -(a as int) - 1;
            vstd::arithmetic::div_mod::lemma_fundamental_div_mod_converse(
                a as int,
                b as int,
                -qq - 1,
                (b as int) - rr - 1,
            );
        }
        -q - 1
    }
}

/// `p / d` rounded to the nearest integer, halves away from zero.
pub open spec fn round_div(p: int, d: int) -> int {
    if p >= 0 {
        (p + d / 2) / d
    } else {
        -((-p + d / 2) / d)
    }
}

/// `x` clamped into the range of `i32`, as a float-to-`i32` cast does.
pub open spec fn saturate_i32(x: int) -> i32 {
    if x > i32::MAX {
        i32::MAX
    } else if x < i32::MIN {
        i32::MIN
    } else {
        x as i32
    }
}

/// Ticks per frame at a rate of one thousandth of a frame per second.
pub open spec fn rate_ticks() -> int {
    TICKS_PER_SECOND * FPS_SCALE
}

/// A clip's frame rate for timing, in thousandths of a frame per second:
/// at least one frame per second.
pub open spec fn timing_rate(fps_milli: u32) -> int {
    if fps_milli < FPS_SCALE {
        FPS_SCALE as int
    } else {
        fps_milli as int
    }
}

/// Frame count of a clip: its duration times its frame rate, rounded, at
/// least 0.
pub open spec fn clip_frames(duration: i64, fps_milli: u32) -> i32 {
    let p = duration * fps_milli;
    if p <= 0 {
        0
    } else {
        saturate_i32(round_div(p, rate_ticks()))
    }
}

fn clip_frame_count(duration: i64, fps: u32) -> (r: i32)
    ensures
        r == clip_frames(duration, fps),
{
    let per: i128 = (TICKS_PER_SECOND * FPS_SCALE) as i128;
    assert((duration as i128) * (fps as i128) <= 9223372036854775807 * 4294967295) by (nonlinear_arith)
        requires
            duration <= 9223372036854775807,
            0 <= fps <= 4294967295;
    assert((duration as i128) * (fps as i128) >= -9223372036854775808 * 4294967295) by (nonlinear_arith)
        requires
            duration >= -9223372036854775808,
            0 <= fps <= 4294967295;
    let p = duration as i128 * fps as i128;
    if p <= 0 {
        0
    } else {
        let q = (p + per / 2) / per;
        if q > i32::MAX as i128 {
            i32::MAX
        } else {
            q as i32
        }
    }
}

/// The frame, rounded, that time `t` falls on at the rate `fps_milli`
/// (at least one frame per second).
pub open spec fn frame_at(t: i64, fps_milli: u32) -> i32 {
    saturate_i32(round_div(t * timing_rate(fps_milli), rate_ticks()))
}

/// Whether a bone has children, by id.
/// Entry `j` of the listing `order` is a proper ancestor of entry `m`: it
/// comes earlier, lies shallower, and every entry between them lies deeper
/// than it.
pub open spec fn listing_ancestor(order: Seq<(usize, usize)>, j: int, m: int) -> bool {
    &&& 0 <= j < m
    &&& order[j].1 < order[m].1
    &&& forall|l: int| j < l < m ==> order[l].1 > order[j].1
}

pub open spec fn has_children_spec<T>(bones: Seq<Bone<T>>, id: Seq<char>) -> bool {
    child_indices(bones, id).len() > 0
}

/// One row of the bone hierarchy tree.
pub struct HierarchyRow {
    pub bone_id: String,
    pub name: String,
    pub depth: usize,
    pub has_children: bool,
    pub is_expanded: bool,
    pub is_selected: bool,
}

impl<T> SkeletalAnimEditorPanel<T> {
    /// The track and keyframe indices the primary selection resolves to.
    pub open spec fn selected_slot(self) -> Option<(int, int)> {
        match self.selected_keyframe {
            Some(k) => match find_track(self.tracks(), k.0@) {
                Some(ti) => if k.1 < self.tracks()[ti].1.len() {
                    Some((ti, k.1 as int))
                } else {
                    None
                },
                None => None,
            },
            None => None,
        }
    }

    /// The bone index the selected bone resolves to.
    pub open spec fn selected_bone_index(self) -> Option<int> {
        match self.selected_bone {
            Some(b) => find_bone(self.skeleton.bones@, b@),
            None => None,
        }
    }

    /// The transform shown in the properties panel: the selected keyframe's,
    /// else the selected bone's bind pose; `None` stands for identity.
    pub open spec fn current_transform_spec(self) -> Option<T> {
        match self.selected_slot() {
            Some((ti, k)) => Some(self.tracks()[ti].1[k].transform),
            None => match self.selected_bone_index() {
                Some(bi) => Some(self.skeleton.bones@[bi].bind_transform),
                None => None,
            },
        }
    }

    /// The playhead bounds `(start, end)` in microseconds: the inclusive
    /// frame range, from the start of its first frame to the end of its last,
    /// at the clip's frame rate (at least one frame per second), rounded down.
    pub open spec fn range_bounds(self) -> (int, int) {
        let fps = timing_rate(self.animation.fps_milli);
        let start = (self.play_range.0 * rate_ticks()) / fps;
        let end = ((self.play_range.1 + 1) * rate_ticks()) / fps;
        (start, if end < start { start } else { end })
    }

    /// The transform currently shown in the properties panel: the selected
    /// keyframe's transform, or the selected bone's bind pose; `None` stands
    /// for the identity transform.
    pub fn current_transform(&self) -> (r: Option<&T>)
        ensures
            match self.current_transform_spec() {
                Some(t) => r matches Some(x) && *x == t,
                None => r is None,
            },
    {
        if let Some((bone_id, index)) = &self.selected_keyframe {
            if let Some(ti) = self.animation.track_index(bone_id) {
                if *index < self.animation.tracks[ti].keyframes.len() {
                    return Some(&self.animation.tracks[ti].keyframes[*index].transform);
                }
            }
        }
        if let Some(bone_id) = &self.selected_bone {
            if let Some(bi) = self.skeleton.bone_index(bone_id) {
                return Some(&self.skeleton.bones[bi].bind_transform);
            }
        }
        None
    }

    /// Write `transform` (the properties panel's inputs) into the selected
    /// keyframe, or into the selected bone's bind pose when no keyframe is
    /// selected. Nothing changes when the selection does not resolve.
    pub fn apply_transform_inputs(&mut self, transform: T)
        requires
            old(self).wf(),
        ensures
            final(self).wf(),
            match old(self).selected_slot() {
                Some((ti, k)) => {
                    &&& final(self).tracks() == old(self).tracks().update(
                        ti,
                        (
                            old(self).tracks()[ti].0,
                            old(self).tracks()[ti].1.update(
                                k,
                                Keyframe { time: old(self).tracks()[ti].1[k].time, transform },
                            ),
                        ),
                    )
                    &&& final(self).is_dirty
                    &&& final(self).skeleton == old(self).skeleton
                },
                None => if old(self).selected_keyframe is None && old(self).selected_bone_index() is Some {
                    let bi = old(self).selected_bone_index()->Some_0;
                    &&& final(self).skeleton.bones@ == old(self).skeleton.bones@.update(
                        bi,
                        Bone { bind_transform: transform, ..old(self).skeleton.bones@[bi] },
                    )
                    &&& final(self).is_dirty
                    &&& final(self).animation == old(self).animation
                } else {
                    *final(self) == *old(self)
                },
            },
            final(self).animation.name == old(self).animation.name,
            final(self).animation.duration == old(self).animation.duration,
            final(self).animation.fps_milli == old(self).animation.fps_milli,
            final(self).selected_bone == old(self).selected_bone,
            final(self).expanded_bones == old(self).expanded_bones,
            final(self).selected_keyframe == old(self).selected_keyframe,
            final(self).selected_keyframes == old(self).selected_keyframes,
            final(self).playback == old(self).playback,
            final(self).play_range == old(self).play_range,
            old(self).selected_slot() is Some || (old(self).selected_keyframe is None
                && old(self).selected_bone_index() is Some) ==> final(self).current_transform_spec()
                == Some(transform),
    {
        let ghost old_tv = self.tracks();
        let ghost old_bones = self.skeleton.bones@;
        match &self.selected_keyframe {
            Some(key) => {
                let bone_id = key.0.clone();
                let index = key.1;
                if let Some(ti) = self.animation.track_index(&bone_id) {
                    if index < self.animation.tracks[ti].keyframes.len() {
                        let ghost tr = transform;
                        self.animation.tracks[ti].keyframes[index].transform = transform;
                        self.is_dirty = true;
                        proof {
                            crate::animation::lemma_find_track_same_ids(self.tracks(), old_tv, bone_id@);
                            assert(self.tracks() =~= old_tv.update(
                                ti as int,
                                (
                                    old_tv[ti as int].0,
                                    old_tv[ti as int].1.update(
                                        index as int,
                                        Keyframe { time: old_tv[ti as int].1[index as int].time, transform: tr },
                                    ),
                                ),
                            ));
                        }
                    }
                }
            },
            None => {
                if let Some(bone_id) = &self.selected_bone {
                    let bone_id = bone_id.clone();
                    if let Some(bi) = self.skeleton.bone_index(&bone_id) {
                        self.skeleton.bones[bi].bind_transform = transform;
                        self.is_dirty = true;
                        proof {
                            crate::skeleton::lemma_find_bone_same_ids(self.skeleton.bones@, old_bones, bone_id@);
                        }
                    }
                }
            },
        }
    }

    /// Set the start of the playback range (inclusive frame number).
    pub fn set_play_range_start(&mut self, start: i32)
        ensures
            *final(self) == (SkeletalAnimEditorPanel { play_range: (start, old(self).play_range.1), ..*old(self) }),
    {
        self.play_range.0 = start;
    }

    /// Set the end of the playback range (inclusive frame number).
    pub fn set_play_range_end(&mut self, end: i32)
        ensures
            *final(self) == (SkeletalAnimEditorPanel { play_range: (old(self).play_range.0, end), ..*old(self) }),
    {
        self.play_range.1 = end;
    }

    /// The `(start, end)` playhead bounds in microseconds, derived from the
    /// inclusive frame range and the clip's frame rate.
    pub fn play_range_ticks(&self) -> (r: (i64, i64))
        ensures
            (r.0 as int, r.1 as int) == self.range_bounds(),
            r.0 <= r.1,
    {
        let fps: i64 = if (self.animation.fps_milli as i64) < FPS_SCALE {
            FPS_SCALE
        } else {
            self.animation.fps_milli as i64
        };
        let per: i64 = TICKS_PER_SECOND * FPS_SCALE;
        let start = div_floor(self.play_range.0 as i64 * per, fps);
        let end0 = div_floor((self.play_range.1 as i64 + 1) * per, fps);
        let end = if end0 < start {
            start
        } else {
            end0
        };
        (start, end)
    }

    /// Move the playhead to `time`, clamped to the playback range, resyncing
    /// the selected keyframe to the new time.
    pub fn seek(&mut self, time: i64)
        requires
            old(self).wf(),
        ensures
            final(self).wf(),
            final(self).playback.time == if time < old(self).range_bounds().0 {
                old(self).range_bounds().0
            } else if time > old(self).range_bounds().1 {
                old(self).range_bounds().1
            } else {
                time as int
            },
            old(self).range_bounds().0 <= final(self).playback.time <= old(self).range_bounds().1,
            final(self).playback.playing == old(self).playback.playing,
            final(self).selected_keyframe == final(self).resynced_key(),
            final(self).selected_keyframes@ == match final(self).resynced_key() {
                Some(k) => seq![k],
                None => Seq::<(String, usize)>::empty(),
            },
            final(self).is_dirty == old(self).is_dirty,
            final(self).skeleton == old(self).skeleton,
            final(self).animation == old(self).animation,
            final(self).selected_bone == old(self).selected_bone,
            final(self).expanded_bones == old(self).expanded_bones,
            final(self).play_range == old(self).play_range,
    {
        let (start, end) = self.play_range_ticks();
        self.playback.time = if time < start {
            start
        } else if time > end {
            end
        } else {
            time
        };
        self.resync_selected_keyframe();
    }

    /// Start or stop clip playback.
    pub fn toggle_play(&mut self)
        ensures
            *final(self) == (SkeletalAnimEditorPanel {
                playback: Playback { playing: !old(self).playback.playing, ..old(self).playback },
                ..*old(self)
            }),
    {
        self.playback.playing = !self.playback.playing;
    }

    /// One playback tick: while playing, advance the playhead by `elapsed`
    /// microseconds, looping back to the start of the playback range once it
    /// reaches the end. Returns whether playback is still running.
    pub fn advance_playhead(&mut self, elapsed: u32) -> (r: bool)
        ensures
            r == old(self).playback.playing,
            ({
                let (start, end) = old(self).range_bounds();
                let span = if end - start < 1000 { 1000 } else { end - start };
                let t = old(self).playback.time + elapsed;
                final(self).playback.time == if !old(self).playback.playing {
                    old(self).playback.time as int
                } else if t >= end {
                    start + (t - start) % span
                } else {
                    t
                }
            }),
            ({
                let (start, end) = old(self).range_bounds();
                old(self).playback.playing && start <= old(self).playback.time && end - start >= 1000
                    ==> start <= final(self).playback.time < end
            }),
            *final(self) == (SkeletalAnimEditorPanel {
                playback: Playback { time: final(self).playback.time, ..old(self).playback },
                ..*old(self)
            }),
    {
        if !self.playback.playing {
            return false;
        }
        let (start, end) = self.play_range_ticks();
        let span: i128 = if (end as i128 - start as i128) < 1000 {
            1000
        } else {
            end as i128 - start as i128
        };
        let mut t: i128 = self.playback.time as i128 + elapsed as i128;
        if t >= end as i128 {
            t = start as i128 + (t - start as i128) % span;
        }
        proof {
            assert(-2147483648 * 1000000000 <= start && end <= 2147483648 * 1000000000) by {
                let fps = timing_rate(self.animation.fps_milli);
                assert(rate_ticks() == 1000000000);
                let a = self.play_range.0 * 1000000000int;
                let b = (self.play_range.1 + 1) * 1000000000int;
                assert(a / fps <= a || a < 0) by (nonlinear_arith)
                    requires fps >= 1;
                assert(a / fps >= a || a >= 0) by (nonlinear_arith)
                    requires fps >= 1;
                assert(0 <= a / fps || a < 0) by (nonlinear_arith)
                    requires fps >= 1;
                assert(a / fps <= 0 || a >= 0) by (nonlinear_arith)
                    requires fps >= 1;
                assert(b / fps <= b || b < 0) by (nonlinear_arith)
                    requires fps >= 1;
                assert(0 <= b / fps || b < 0) by (nonlinear_arith)
                    requires fps >= 1;
                assert(b / fps <= 0 || b >= 0) by (nonlinear_arith)
                    requires fps >= 1;
                assert(b / fps >= b || b >= 0) by (nonlinear_arith)
                    requires fps >= 1;
            }
        }
        self.playback.time = t as i64;
        true
    }

    /// Toggle whether `bone_id`'s children are shown in the hierarchy panel.
    pub fn toggle_bone_expanded(&mut self, bone_id: &str)
        requires
            old(self).wf(),
        ensures
            final(self).wf(),
            match name_position_from(names_view(old(self).expanded_bones@), bone_id@, 0) {
                Some(i) => final(self).expanded_bones@ == old(self).expanded_bones@.remove(i),
                None => final(self).expanded_bones@.drop_last() == old(self).expanded_bones@
                    && final(self).expanded_bones@.len() == old(self).expanded_bones@.len() + 1
                    && final(self).expanded_bones@.last()@ == bone_id@,
            },
            final(self).expanded() == set_toggled(old(self).expanded(), bone_id@),
            *final(self) == (SkeletalAnimEditorPanel { expanded_bones: final(self).expanded_bones, ..*old(self) }),
    {
        let id = bone_id.to_owned();
        let ghost old_names = self.expanded_bones@;
        match self.expanded_position(&id) {
            Some(i) => {
                self.expanded_bones.remove(i);
                proof {
                    let nv = names_view(old_names);
                    assert(names_view(old_names.remove(i as int)) =~= nv.remove(i as int));
                    lemma_remove_unique(nv, i as int);
                    assert(nv.to_set().contains(bone_id@));
                }
            },
            None => {
                self.expanded_bones.push(id);
                proof {
                    let nv = names_view(old_names);
                    assert(names_view(self.expanded_bones@) =~= nv.push(bone_id@));
                    lemma_push_to_set(nv, bone_id@);
                    assert(!nv.to_set().contains(bone_id@));
                    assert(self.expanded_bones@.drop_last() =~= old_names);
                }
            },
        }
    }

    /// Whether `bone_id`'s children are shown in the hierarchy panel.
    pub fn is_bone_expanded(&self, bone_id: &str) -> (r: bool)
        ensures
            r == self.expanded().contains(bone_id@),
    {
        let id = bone_id.to_owned();
        self.expanded_position(&id).is_some()
    }
}

impl<T> SkeletalAnimEditorPanel<T> {
    /// The hierarchy row of depth-first entry `e`.
    pub open spec fn row_for(self, e: (usize, usize)) -> HierarchyRow {
        let b = self.skeleton.bones@[e.0 as int];
        let has_children = has_children_spec(self.skeleton.bones@, b.id@);
        HierarchyRow {
            bone_id: b.id,
            name: b.name,
            depth: e.1,
            has_children,
            is_expanded: has_children && self.expanded().contains(b.id@),
            is_selected: self.selected_bone matches Some(s) && s@ == b.id@,
        }
    }

    /// The entry is a folder shown closed: a bone with children that is not
    /// expanded.
    pub open spec fn is_closed_folder(self, e: (usize, usize)) -> bool {
        self.row_for(e).has_children && !self.row_for(e).is_expanded
    }

    /// Entry `m` of the listing `order` is shown: none of its proper
    /// ancestors in the listing is a closed folder.
    pub open spec fn is_shown(self, order: Seq<(usize, usize)>, m: int) -> bool {
        forall|j: int| #[trigger] listing_ancestor(order, j, m) ==> !self.is_closed_folder(order[j])
    }

    /// The rows of the shown entries among the first `k` of `order`, in
    /// order.
    pub open spec fn shown_rows(self, order: Seq<(usize, usize)>, k: int) -> Seq<HierarchyRow>
        decreases k,
    {
        if k <= 0 {
            seq![]
        } else {
            self.shown_rows(order, k - 1) + if self.is_shown(order, k - 1) {
                seq![self.row_for(order[k - 1])]
            } else {
                seq![]
            }
        }
    }

    /// The rows of the bone hierarchy tree: the depth-first entries none of
    /// whose ancestors is a closed folder, each as its row.
    pub open spec fn hierarchy_spec(self) -> Seq<HierarchyRow> {
        let order = depth_first_spec(self.skeleton.bones@);
        self.shown_rows(order, order.len() as int)
    }

    /// The rows the tree loop has built after `k` entries, and the depth
    /// below which entries are being skipped under a closed folder, if any.
    spec fn rows_upto(self, order: Seq<(usize, usize)>, k: int) -> (Seq<HierarchyRow>, Option<usize>)
        decreases k,
    {
        if k <= 0 {
            (seq![], None)
        } else {
            let prev = self.rows_upto(order, k - 1);
            let e = order[k - 1];
            if prev.1 matches Some(d) && e.1 > d {
                prev
            } else {
                let row = self.row_for(e);
                (
                    prev.0.push(row),
                    if row.has_children && !row.is_expanded {
                        Some(e.1)
                    } else {
                        None
                    },
                )
            }
        }
    }

    /// Entry `j` is a shown closed folder, and every entry after it, up to
    /// `k`, lies deeper.
    spec fn closes_until(self, order: Seq<(usize, usize)>, j: int, k: int) -> bool {
        &&& self.is_shown(order, j)
        &&& self.is_closed_folder(order[j])
        &&& forall|l: int| j < l < k ==> order[l].1 > order[j].1
    }

    /// Below a closed folder that is an ancestor of entry `k`, some ancestor
    /// of `k` is a closed folder that is itself shown.
    proof fn lemma_shown_closed_ancestor(self, order: Seq<(usize, usize)>, j: int, k: int)
        requires
            listing_ancestor(order, j, k),
            self.is_closed_folder(order[j]),
        ensures
            exists|i: int| #[trigger] listing_ancestor(order, i, k) && self.is_closed_folder(order[i])
                && self.is_shown(order, i),
        decreases j,
    {
        if !self.is_shown(order, j) {
            let a = choose|a: int| #[trigger] listing_ancestor(order, a, j) && self.is_closed_folder(order[a]);
            assert forall|l: int| a < l < k implies order[l].1 > order[a].1 by {
                if l < j {
                } else if l == j {
                } else {
                    assert(order[l].1 > order[j].1);
                }
            }
            assert(listing_ancestor(order, a, k));
            self.lemma_shown_closed_ancestor(order, a, k);
        } else {
            assert(listing_ancestor(order, j, k) && self.is_closed_folder(order[j]) && self.is_shown(order, j));
        }
    }

    /// The tree loop builds exactly the shown rows, and skips below a depth
    /// exactly while a shown closed folder is open above.
    proof fn lemma_rows_upto(self, order: Seq<(usize, usize)>, k: int)
        requires
            0 <= k <= order.len(),
        ensures
            self.rows_upto(order, k).0 == self.shown_rows(order, k),
            match self.rows_upto(order, k).1 {
                Some(d) => exists|j: int| 0 <= j < k && #[trigger] self.closes_until(order, j, k) && order[j].1 == d,
                None => forall|j: int| 0 <= j < k ==> !#[trigger] self.closes_until(order, j, k),
            },
        decreases k,
    {
        if k > 0 {
            let i = k - 1;
            self.lemma_rows_upto(order, i);
            let prev = self.rows_upto(order, i);
            let e = order[i];
            match prev.1 {
                Some(d) => {
                    let j0 = choose|j: int| 0 <= j < i && #[trigger] self.closes_until(order, j, i) && order[j].1 == d;
                    if e.1 > d {
                        assert(listing_ancestor(order, j0, i));
                        assert(!self.is_shown(order, i));
                        assert(self.closes_until(order, j0, k));
                    } else {
                        assert forall|j: int| #[trigger] listing_ancestor(order, j, i) implies !self.is_closed_folder(
                            order[j],
                        ) by {
                            if self.is_closed_folder(order[j]) {
                                if j < j0 {
                                    assert(order[j0].1 > order[j].1);
                                    assert(listing_ancestor(order, j, j0));
                                } else if j > j0 {
                                    assert(order[j].1 > d);
                                }
                            }
                        }
                        assert(self.is_shown(order, i));
                        if self.is_closed_folder(e) {
                            assert(self.closes_until(order, i, k));
                        } else {
                            assert forall|j: int| 0 <= j < k implies !#[trigger] self.closes_until(order, j, k) by {
                                if j < i && self.closes_until(order, j, k) {
                                    assert(e.1 > order[j].1);
                                    if j < j0 {
                                        assert(order[j0].1 > order[j].1);
                                        assert(listing_ancestor(order, j, j0));
                                    } else if j > j0 {
                                        assert(order[j].1 > d);
                                    }
                                }
                            }
                        }
                    }
                },
                None => {
                    if !self.is_shown(order, i) {
                        let j = choose|j: int| #[trigger] listing_ancestor(order, j, i) && self.is_closed_folder(order[j]);
                        self.lemma_shown_closed_ancestor(order, j, i);
                        let j2 = choose|j2: int| #[trigger] listing_ancestor(order, j2, i) && self.is_closed_folder(
                            order[j2],
                        ) && self.is_shown(order, j2);
                        assert(self.closes_until(order, j2, i));
                        assert(false);
                    }
                    if self.is_closed_folder(e) {
                        assert(self.closes_until(order, i, k));
                    } else {
                        assert forall|j: int| 0 <= j < k implies !#[trigger] self.closes_until(order, j, k) by {
                            if j < i && self.closes_until(order, j, k) {
                                assert(self.closes_until(order, j, i));
                            }
                        }
                    }
                },
            }
        }
    }

    /// Create an editor model for `skeleton` and `animation`: nothing
    /// selected, the first root bone expanded, the playhead at 0, and the
    /// playback range covering the clip's frames.
    pub fn new(skeleton: Skeleton<T>, animation: AnimationClip<T>) -> (r: Self)
        ensures
            r.wf(),
            r.skeleton == skeleton,
            r.animation == animation,
            !r.is_dirty,
            r.selected_bone is None,
            r.selected_keyframe is None,
            r.selected_keyframes.len() == 0,
            r.playback == (Playback { time: 0, playing: false }),
            r.play_range == (0i32, clip_frames(animation.duration, animation.fps_milli)),
            r.expanded_bones@ == if root_indices(skeleton.bones@).len() > 0 {
                seq![skeleton.bones@[root_indices(skeleton.bones@)[0] as int].id]
            } else {
                Seq::<String>::empty()
            },
    {
        let roots = skeleton.root_bones();
        let mut expanded_bones: Vec<String> = Vec::new();
        if roots.len() > 0 {
            expanded_bones.push(roots[0].id.clone());
        }
        let frames = clip_frame_count(animation.duration, animation.fps_milli);
        let r = SkeletalAnimEditorPanel {
            is_dirty: false,
            skeleton,
            animation,
            selected_bone: None,
            expanded_bones,
            selected_keyframe: None,
            selected_keyframes: Vec::new(),
            playback: Playback { time: 0, playing: false },
            play_range: (0, frames),
        };
        proof {
            let nv = names_view(r.expanded_bones@);
            assert(nv.len() <= 1);
            assert(nv.no_duplicates());
        }
        r
    }

    /// The rows of the bone hierarchy tree: the skeleton in depth-first
    /// order, leaving out the bones under a collapsed folder.
    pub fn hierarchy_rows(&self) -> (r: Vec<HierarchyRow>)
        ensures
            r@ == self.hierarchy_spec(),
    {
        let order = self.skeleton.depth_first_order();
        let mut rows: Vec<HierarchyRow> = Vec::new();
        let mut skip: Option<usize> = None;
        let mut k: usize = 0;
        while k < order.len()
            invariant
                k <= order.len(),
                order@ == depth_first_spec(self.skeleton.bones@),
                forall|m: int| 0 <= m < order.len() ==> order@[m].0 < self.skeleton.bones.len(),
                (rows@, skip) == self.rows_upto(order@, k as int),
            decreases order.len() - k,
        {
            let (bi, depth) = order[k];
            let hidden = match skip {
                Some(d) => depth > d,
                None => false,
            };
            if !hidden {
                let bone = &self.skeleton.bones[bi];
                let has_children = self.skeleton.children_of(&bone.id).len() > 0;
                let is_expanded = has_children && self.is_bone_expanded(&bone.id);
                let is_selected = match &self.selected_bone {
                    Some(s) => *s == bone.id,
                    None => false,
                };
                rows.push(
                    HierarchyRow {
                        bone_id: bone.id.clone(),
                        name: bone.name.clone(),
                        depth,
                        has_children,
                        is_expanded,
                        is_selected,
                    },
                );
                skip = if has_children && !is_expanded {
                    Some(depth)
                } else {
                    None
                };
            }
            k = k + 1;
        }
        proof {
            self.lemma_rows_upto(order@, order.len() as int);
        }
        rows
    }

    /// The playhead's frame, rounded, at the clip's frame rate (at least one
    /// frame per second).
    pub fn playhead_frame(&self) -> (r: i32)
        ensures
            r == frame_at(self.playback.time, self.animation.fps_milli),
    {
        let fps: i128 = if (self.animation.fps_milli as i64) < FPS_SCALE {
            FPS_SCALE as i128
        } else {
            self.animation.fps_milli as i128
        };
        assert((self.playback.time as i128) * fps <= 9223372036854775807 * 4294967295) by (nonlinear_arith)
            requires
                self.playback.time <= 9223372036854775807,
                1 <= fps <= 4294967295;
        assert((self.playback.time as i128) * fps >= -9223372036854775808 * 4294967295) by (nonlinear_arith)
            requires
                self.playback.time >= -9223372036854775808,
                1 <= fps <= 4294967295;
        let p = self.playback.time as i128 * fps;
        let per: i128 = (TICKS_PER_SECOND * FPS_SCALE) as i128;
        let half = per / 2;
        let q: i128 = if p >= 0 {
            (p + half) / per
        } else {
            -((-p + half) / per)
        };
        if q > i32::MAX as i128 {
            i32::MAX
        } else if q < i32::MIN as i128 {
            i32::MIN
        } else {
            q as i32
        }
    }

    /// The state of the properties panel's "Key" indicators: whether a
    /// keyframe is selected (keyed), and whether the transform inputs are
    /// locked because the selected bone is animated but not keyed here.
    pub fn keyframe_indicator_state(&self) -> (r: (bool, bool))
        ensures
            r.0 == self.selected_keyframe is Some,
            r.1 == (!r.0 && (self.selected_bone matches Some(b) && find_track(self.tracks(), b@) is Some)),
    {
        let keyed = self.selected_keyframe.is_some();
        let has_track = match &self.selected_bone {
            Some(b) => self.animation.track_index(b).is_some(),
            None => false,
        };
        (keyed, has_track && !keyed)
    }

    /// The number shown for the selected keyframe in the properties
    /// header ("Keyframe #n"): the primary keyframe's index plus one.
    pub fn keyframe_number(&self) -> (r: Option<usize>)
        requires
            self.selected_keyframe matches Some(k) ==> k.1 < usize::MAX,
        ensures
            r == match self.selected_keyframe {
                Some(k) => Some((k.1 + 1) as usize),
                None => None,
            },
    {
        match &self.selected_keyframe {
            Some((_, index)) => Some(*index + 1),
            None => None,
        }
    }

    /// Name of the selected bone, if it is in the skeleton.
    pub fn selected_bone_name(&self) -> (r: Option<&String>)
        ensures
            match self.selected_bone_index() {
                Some(bi) => r == Some(&self.skeleton.bones@[bi].name),
                None => r is None,
            },
    {
        match &self.selected_bone {
            Some(b) => match self.skeleton.bone(b) {
                Some(bone) => Some(&bone.name),
                None => None,
            },
            None => None,
        }
    }

    /// Label of track `i` in the timeline gutter: its bone's name, or the
    /// bone id when the skeleton has no such bone.
    pub fn track_label(&self, i: usize) -> (r: &String)
        requires
            i < self.animation.tracks.len(),
        ensures
            match find_bone(self.skeleton.bones@, self.tracks()[i as int].0) {
                Some(bi) => *r == self.skeleton.bones@[bi].name,
                None => *r == self.animation.tracks@[i as int].bone_id,
            },
    {
        match self.skeleton.bone(&self.animation.tracks[i].bone_id) {
            Some(b) => &b.name,
            None => &self.animation.tracks[i].bone_id,
        }
    }
}

impl<T> SkeletalAnimEditorPanel<T> {
    /// A click on keyframe `key` in the timeline. With shift held the key
    /// joins or leaves the multi-selection; otherwise its bone becomes the
    /// selected bone and the key the only selected keyframe.
    pub fn click_keyframe(&mut self, key: (String, usize), shift: bool)
        requires
            old(self).wf(),
        ensures
            final(self).wf(),
            shift ==> {
                &&& final(self).same_but_keyframe_selection(*old(self))
                &&& final(self).selected_keyframes@ == toggled_keys(old(self).selected_keyframes@, key)
                &&& final(self).selected_keyframe == first_key(final(self).selected_keyframes@)
                &&& final(self).selection() == set_toggled(old(self).selection(), key_view(key))
            },
            !shift ==> {
                &&& final(self).selected_bone == Some(key.0)
                &&& final(self).expanded_bones@ == merged_names(
                    old(self).expanded_bones@,
                    ancestor_chain(old(self).skeleton.bones@, key.0@, old(self).skeleton.bones.len() as nat),
                )
                &&& final(self).selected_keyframe == Some(key)
                &&& final(self).selected_keyframes@ == seq![key]
                &&& final(self).selection() == set![key_view(key)]
                &&& final(self).is_dirty == old(self).is_dirty
                &&& final(self).skeleton == old(self).skeleton
                &&& final(self).animation == old(self).animation
                &&& final(self).playback == old(self).playback
                &&& final(self).play_range == old(self).play_range
            },
    {
        if shift {
            self.toggle_keyframe_selection(key);
        } else {
            self.select_bone(Some(key.0.clone()));
            self.select_keyframe(Some(key));
        }
    }

    /// A click on a bone with children in the hierarchy tree: its folder
    /// opens or closes, and the bone becomes the selected bone.
    pub fn click_tree_folder(&mut self, bone_id: String)
        requires
            old(self).wf(),
        ensures
            final(self).wf(),
            final(self).selected_bone == Some(bone_id),
            final(self).expanded() == set_toggled(old(self).expanded(), bone_id@) + names_view(
                ancestor_chain(old(self).skeleton.bones@, bone_id@, old(self).skeleton.bones.len() as nat),
            ).to_set(),
            final(self).selected_keyframe == (SkeletalAnimEditorPanel {
                selected_bone: Some(bone_id),
                ..*old(self)
            }).resynced_key(),
            final(self).selected_keyframes@ == match final(self).selected_keyframe {
                Some(k) => seq![k],
                None => Seq::<(String, usize)>::empty(),
            },
            final(self).is_dirty == old(self).is_dirty,
            final(self).skeleton == old(self).skeleton,
            final(self).animation == old(self).animation,
            final(self).playback == old(self).playback,
            final(self).play_range == old(self).play_range,
    {
        self.toggle_bone_expanded(&bone_id);
        let ghost mid = self.expanded_bones@;
        let ghost chain = ancestor_chain(self.skeleton.bones@, bone_id@, self.skeleton.bones.len() as nat);
        self.select_bone(Some(bone_id));
        proof {
            lemma_merged_names(mid, chain);
        }
    }

    /// The properties panel's "Key" button: while a keyframe is selected it
    /// removes the selected bone's keyframe at the playhead; otherwise it
    /// inserts one there holding `transform` (the bone's current pose).
    pub fn press_key_button(&mut self, transform: T)
        requires
            old(self).wf(),
        ensures
            final(self).wf(),
            old(self).selected_keyframe is Some ==> final(self).is_playhead_delete_of(*old(self)),
            old(self).selected_keyframe is None ==> final(self).is_insert_of(*old(self), transform),
    {
        if self.selected_keyframe.is_some() {
            self.delete_keyframe_at_playhead();
        } else {
            self.insert_keyframe(transform);
        }
    }

    /// The end of a box-select drag in the timeline, over the keyframes
    /// `hits` inside the box. A drag replaces the selection with `hits`, or
    /// with `additive` adds them to it; a click without a drag clears the
    /// selection unless `additive`.
    pub fn finish_box_select(&mut self, hits: Vec<(String, usize)>, dragged: bool, additive: bool)
        requires
            old(self).wf(),
        ensures
            final(self).wf(),
            final(self).same_but_keyframe_selection(*old(self)),
            dragged ==> {
                &&& final(self).selected_keyframes@ == if additive {
                    merged_keys(old(self).selected_keyframes@, hits@)
                } else {
                    merged_keys(Seq::empty(), hits@)
                }
                &&& final(self).selected_keyframe == first_key(final(self).selected_keyframes@)
                &&& final(self).selection() == if additive {
                    old(self).selection() + keys_view(hits@).to_set()
                } else {
                    keys_view(hits@).to_set()
                }
            },
            !dragged && additive ==> *final(self) == *old(self),
            !dragged && !additive ==> final(self).selected_keyframes@.len() == 0
                && final(self).selected_keyframe is None && final(self).selection() == Set::<KeyView>::empty(),
    {
        if dragged {
            self.set_selected_keyframes(hits, additive);
        } else if !additive {
            let none: Vec<(String, usize)> = Vec::new();
            self.set_selected_keyframes(none, false);
            proof {
                assert(merged_keys(Seq::<(String, usize)>::empty(), Seq::<(String, usize)>::empty())
                    == Seq::<(String, usize)>::empty());
            }
        }
    }
}

/// How a timeline track row is shaded.
#[derive(PartialEq, Eq, Structural, Clone, Copy, Debug)]
pub enum RowShade {
    /// The row of the selected bone.
    Selected,
    /// An even-numbered row, counting from 0.
    Even,
    /// An odd-numbered row.
    Odd,
}

/// What the timeline draws for one track row.
pub struct TimelineRow {
    pub shade: RowShade,
    /// Each keyframe's time, and whether it is in the keyframe selection.
    pub keys: Vec<(i64, bool)>,
}

impl<T> SkeletalAnimEditorPanel<T> {
    /// The shading of track row `i`.
    pub open spec fn row_shade_spec(self, i: int) -> RowShade {
        if self.selected_bone matches Some(b) && b@ == self.tracks()[i].0 {
            RowShade::Selected
        } else if i % 2 == 0 {
            RowShade::Even
        } else {
            RowShade::Odd
        }
    }

    /// The keyframe marks of track row `i`: each keyframe's time, and
    /// whether it is selected.
    pub open spec fn key_marks_spec(self, i: int) -> Seq<(i64, bool)> {
        let tv = self.tracks()[i];
        Seq::new(tv.1.len(), |k: int| (tv.1[k].time, self.selection().contains((tv.0, k as usize))))
    }

    /// The rows of the timeline, one per track in track order: the row's
    /// shading, and its keyframe diamonds with the selected ones marked.
    pub fn timeline_rows(&self) -> (r: Vec<TimelineRow>)
        ensures
            r.len() == self.animation.tracks.len(),
            forall|i: int|
                0 <= i < r.len() ==> (#[trigger] r@[i]).shade == self.row_shade_spec(i)
                    && r@[i].keys@ == self.key_marks_spec(i),
    {
        let mut rows: Vec<TimelineRow> = Vec::new();
        let mut i: usize = 0;
        while i < self.animation.tracks.len()
            invariant
                i <= self.animation.tracks.len(),
                rows.len() == i,
                forall|m: int|
                    0 <= m < i ==> (#[trigger] rows@[m]).shade == self.row_shade_spec(m)
                        && rows@[m].keys@ == self.key_marks_spec(m),
            decreases self.animation.tracks.len() - i,
        {
            let track = &self.animation.tracks[i];
            let selected_row = match &self.selected_bone {
                Some(b) => *b == track.bone_id,
                None => false,
            };
            let shade = if selected_row {
                RowShade::Selected
            } else if i % 2 == 0 {
                RowShade::Even
            } else {
                RowShade::Odd
            };
            let mut keys: Vec<(i64, bool)> = Vec::new();
            let mut k: usize = 0;
            while k < track.keyframes.len()
                invariant
                    i < self.animation.tracks.len(),
                    track == &self.animation.tracks[i as int],
                    k <= track.keyframes.len(),
                    keys.len() == k,
                    forall|n: int|
                        0 <= n < k ==> #[trigger] keys@[n] == self.key_marks_spec(i as int)[n],
                decreases track.keyframes.len() - k,
            {
                let selected = self.is_key_selected(&track.bone_id, k);
                keys.push((track.keyframes[k].time, selected));
                k = k + 1;
            }
            proof {
                assert(keys@ =~= self.key_marks_spec(i as int));
            }
            rows.push(TimelineRow { shade, keys });
            i = i + 1;
        }
        rows
    }
}

} // verus!
