//! Animation clip data model and the decisions of pose evaluation.
//!
//! Times are whole microseconds. A keyframe's transform is a type parameter:
//! which keyframes a pose is built from is decided here, while blending the
//! transforms themselves is left to the caller.

use vstd::prelude::*;
use crate::skeleton::{Bone, Skeleton, find_bone, evaluation_order};

verus! {

/// Clock resolution: ticks (microseconds) per second.
pub const TICKS_PER_SECOND: i64 = 1000000;

/// Frame-rate resolution: a clip's rate counts thousandths of a frame per
/// second.
pub const FPS_SCALE: i64 = 1000;

/// Largest time difference, exclusive, for two times to count as the same
/// keyframe time (a tenth of a millisecond).
pub const KEYFRAME_EPS: i64 = 100;

pub struct Keyframe<T> {
    /// Time in microseconds.
    pub time: i64,
    pub transform: T,
}

pub struct BoneTrack<T> {
    pub bone_id: String,
    pub keyframes: Vec<Keyframe<T>>,
}

pub struct AnimationClip<T> {
    pub name: String,
    /// Total length of the clip in microseconds.
    pub duration: i64,
    /// Frame rate, in thousandths of a frame per second (30 fps is 30000,
    /// NTSC's 29.97 fps is 29970).
    pub fps_milli: u32,
    pub tracks: Vec<BoneTrack<T>>,
}

/// How a track's transform at some time is obtained from its keyframes.
#[derive(PartialEq, Eq, Structural, Clone, Copy, Debug)]
pub enum TrackSample {
    /// The transform of keyframe `.0`, unchanged.
    Hold(usize),
    /// Linear blend from keyframe `from` to keyframe `to`, by the fraction
    /// `elapsed / span`.
    Blend { from: usize, to: usize, elapsed: u64, span: u64 },
}

/// Where a bone's local transform at some time comes from.
#[derive(PartialEq, Eq, Structural, Clone, Copy, Debug)]
pub enum PoseSource {
    /// Sampled from the clip track at index `track`.
    Sampled { track: usize, sample: TrackSample },
    /// The bind pose of the skeleton bone at index `.0`.
    Bind(usize),
    /// No track and no bone: the identity transform.
    Identity,
}

/// One step of world-transform evaluation, in depth-first order.
#[derive(PartialEq, Eq, Structural, Clone, Copy, Debug)]
pub struct WorldStep {
    /// Index of the bone in the skeleton.
    pub bone: usize,
    /// Depth of the bone in the hierarchy.
    pub depth: usize,
    /// Earlier step whose world matrix is the parent's, or `None` for the
    /// identity.
    pub parent_step: Option<usize>,
    /// The bone's local transform.
    pub local: PoseSource,
}

/// Two times count as the same keyframe time.
pub open spec fn same_time(a: int, b: int) -> bool {
    -KEYFRAME_EPS < a - b < KEYFRAME_EPS
}

pub fn times_match(a: i64, b: i64) -> (r: bool)
    ensures
        r == same_time(a as int, b as int),
{
    let d = a as i128 - b as i128;
    -(KEYFRAME_EPS as i128) < d && d < KEYFRAME_EPS as i128
}

/// A track as plain values: its bone id and its keyframes.
pub type TrackView<T> = (Seq<char>, Seq<Keyframe<T>>);

pub open spec fn track_view<T>(t: BoneTrack<T>) -> TrackView<T> {
    (t.bone_id@, t.keyframes@)
}

pub open spec fn tracks_view<T>(tracks: Seq<BoneTrack<T>>) -> Seq<TrackView<T>> {
    tracks.map_values(|t: BoneTrack<T>| track_view(t))
}

/// Index of the first track at or after `from` whose bone is `id`.
pub open spec fn track_index_from<T>(tracks: Seq<TrackView<T>>, id: Seq<char>, from: int) -> Option<int>
    decreases tracks.len() - from,
{
    if from < 0 || from >= tracks.len() {
        None
    } else if tracks[from].0 == id {
        Some(from)
    } else {
        track_index_from(tracks, id, from + 1)
    }
}

/// Index of the first track of bone `id`, as `AnimationClip::track` finds it.
pub open spec fn find_track<T>(tracks: Seq<TrackView<T>>, id: Seq<char>) -> Option<int> {
    track_index_from(tracks, id, 0)
}

proof fn lemma_track_index_from<T>(tracks: Seq<TrackView<T>>, id: Seq<char>, from: int)
    requires
        0 <= from <= tracks.len(),
    ensures
        match track_index_from(tracks, id, from) {
            Some(i) => from <= i < tracks.len() && tracks[i].0 == id && forall|j: int|
                from <= j < i ==> tracks[j].0 != id,
            None => forall|j: int| from <= j < tracks.len() ==> tracks[j].0 != id,
        },
    decreases tracks.len() - from,
{
    if from < tracks.len() && tracks[from].0 != id {
        lemma_track_index_from(tracks, id, from + 1);
    }
}

/// `find_track` is the first track of the bone, or `None` when it has none.
pub proof fn lemma_find_track<T>(tracks: Seq<TrackView<T>>, id: Seq<char>)
    ensures
        match find_track(tracks, id) {
            Some(i) => 0 <= i < tracks.len() && tracks[i].0 == id && forall|j: int|
                0 <= j < i ==> tracks[j].0 != id,
            None => forall|j: int| 0 <= j < tracks.len() ==> tracks[j].0 != id,
        },
{
    lemma_track_index_from(tracks, id, 0);
}

proof fn lemma_track_index_same_ids<T>(a: Seq<TrackView<T>>, b: Seq<TrackView<T>>, id: Seq<char>, from: int)
    requires
        a.len() == b.len(),
        forall|i: int| 0 <= i < a.len() ==> a[i].0 == b[i].0,
    ensures
        track_index_from(a, id, from) == track_index_from(b, id, from),
    decreases a.len() - from,
{
    if 0 <= from < a.len() && a[from].0 != id {
        lemma_track_index_same_ids(a, b, id, from + 1);
    }
}

/// Track lists with the same bone ids in the same places find the same
/// track for every bone.
pub proof fn lemma_find_track_same_ids<T>(a: Seq<TrackView<T>>, b: Seq<TrackView<T>>, id: Seq<char>)
    requires
        a.len() == b.len(),
        forall|i: int| 0 <= i < a.len() ==> a[i].0 == b[i].0,
    ensures
        find_track(a, id) == find_track(b, id),
{
    lemma_track_index_same_ids(a, b, id, 0);
}

/// Index of the first keyframe at or after `from` whose time matches `t`.
pub open spec fn near_index_from<T>(kfs: Seq<Keyframe<T>>, t: int, from: int) -> Option<int>
    decreases kfs.len() - from,
{
    if from < 0 || from >= kfs.len() {
        None
    } else if same_time(kfs[from].time as int, t) {
        Some(from)
    } else {
        near_index_from(kfs, t, from + 1)
    }
}

/// Index of the first keyframe whose time matches `t`.
pub open spec fn find_near<T>(kfs: Seq<Keyframe<T>>, t: int) -> Option<int> {
    near_index_from(kfs, t, 0)
}

proof fn lemma_near_index_from<T>(kfs: Seq<Keyframe<T>>, t: int, from: int)
    requires
        0 <= from <= kfs.len(),
    ensures
        match near_index_from(kfs, t, from) {
            Some(i) => from <= i < kfs.len() && same_time(kfs[i].time as int, t) && forall|j: int|
                from <= j < i ==> !same_time(kfs[j].time as int, t),
            None => forall|j: int| from <= j < kfs.len() ==> !same_time(kfs[j].time as int, t),
        },
    decreases kfs.len() - from,
{
    if from < kfs.len() && !same_time(kfs[from].time as int, t) {
        lemma_near_index_from(kfs, t, from + 1);
    }
}

/// `find_near` is the first keyframe at the time, or `None` when none is.
pub proof fn lemma_find_near<T>(kfs: Seq<Keyframe<T>>, t: int)
    ensures
        match find_near(kfs, t) {
            Some(i) => 0 <= i < kfs.len() && same_time(kfs[i].time as int, t) && forall|j: int|
                0 <= j < i ==> !same_time(kfs[j].time as int, t),
            None => forall|j: int| 0 <= j < kfs.len() ==> !same_time(kfs[j].time as int, t),
        },
{
    lemma_near_index_from(kfs, t, 0);
}

/// Index of the first keyframe at or after `from` that comes after `t`.
pub open spec fn later_index_from<T>(kfs: Seq<Keyframe<T>>, t: int, from: int) -> Option<int>
    decreases kfs.len() - from,
{
    if from < 0 || from >= kfs.len() {
        None
    } else if kfs[from].time > t {
        Some(from)
    } else {
        later_index_from(kfs, t, from + 1)
    }
}

pub proof fn lemma_later_index_from<T>(kfs: Seq<Keyframe<T>>, t: int, from: int)
    requires
        0 <= from <= kfs.len(),
    ensures
        match later_index_from(kfs, t, from) {
            Some(i) => from <= i < kfs.len() && kfs[i].time > t && forall|j: int|
                from <= j < i ==> kfs[j].time <= t,
            None => forall|j: int| from <= j < kfs.len() ==> kfs[j].time <= t,
        },
    decreases kfs.len() - from,
{
    if from < kfs.len() && kfs[from].time <= t {
        lemma_later_index_from(kfs, t, from + 1);
    }
}

/// Position where a keyframe at `t` is inserted: before the first later
/// keyframe, or at the end.
pub open spec fn insert_position<T>(kfs: Seq<Keyframe<T>>, t: int) -> int {
    match later_index_from(kfs, t, 0) {
        Some(i) => i,
        None => kfs.len() as int,
    }
}

/// Index of the first keyframe at or after `from` that starts a segment
/// `[kfs[i].time, kfs[i + 1].time]` containing `t`.
pub open spec fn segment_index_from<T>(kfs: Seq<Keyframe<T>>, t: int, from: int) -> Option<int>
    decreases kfs.len() - from,
{
    if from < 0 || from + 1 >= kfs.len() {
        None
    } else if kfs[from].time <= t && t <= kfs[from + 1].time {
        Some(from)
    } else {
        segment_index_from(kfs, t, from + 1)
    }
}

/// The blend within segment `i` at time `t`.
pub open spec fn blend_at<T>(kfs: Seq<Keyframe<T>>, t: int, i: int) -> TrackSample {
    let span = kfs[i + 1].time - kfs[i].time;
    TrackSample::Blend {
        from: i as usize,
        to: (i + 1) as usize,
        elapsed: (t - kfs[i].time) as u64,
        span: (if span < 1 { 1 } else { span }) as u64,
    }
}

/// How a track with keyframes `kfs` is sampled at `t`: the nearest keyframe
/// is held outside the track's range, and the two surrounding keyframes are
/// blended inside it.
pub open spec fn sample_spec<T>(kfs: Seq<Keyframe<T>>, t: int) -> Option<TrackSample> {
    if kfs.len() == 0 {
        None
    } else if kfs.len() == 1 || t <= kfs[0].time {
        Some(TrackSample::Hold(0))
    } else if t >= kfs[kfs.len() - 1].time {
        Some(TrackSample::Hold((kfs.len() - 1) as usize))
    } else {
        match segment_index_from(kfs, t, 0) {
            Some(i) => Some(blend_at(kfs, t, i)),
            None => Some(TrackSample::Hold((kfs.len() - 1) as usize)),
        }
    }
}

/// Where the local transform of bone `id` at `t` comes from: its track if
/// that samples to something, else the skeleton's bind pose, else identity.
pub open spec fn local_pose_spec<T, U>(
    tracks: Seq<TrackView<T>>,
    bones: Seq<Bone<U>>,
    id: Seq<char>,
    t: int,
) -> PoseSource {
    match find_track(tracks, id) {
        Some(ti) if sample_spec(tracks[ti].1, t) is Some => PoseSource::Sampled {
            track: ti as usize,
            sample: sample_spec(tracks[ti].1, t)->Some_0,
        },
        _ => match find_bone(bones, id) {
            Some(bi) => PoseSource::Bind(bi as usize),
            None => PoseSource::Identity,
        },
    }
}

/// Keyframe times never decrease along the track.
pub open spec fn times_sorted<T>(kfs: Seq<Keyframe<T>>) -> bool {
    forall|i: int, j: int| 0 <= i <= j < kfs.len() ==> kfs[i].time <= kfs[j].time
}

impl<T> BoneTrack<T> {
    /// Sample the track at `time`, holding the nearest keyframe outside the
    /// track's range and blending the two surrounding keyframes inside it.
    pub fn sample(&self, time: i64) -> (r: Option<TrackSample>)
        ensures
            r == sample_spec(self.keyframes@, time as int),
            r matches Some(TrackSample::Hold(i)) ==> i < self.keyframes.len(),
            r matches Some(TrackSample::Blend { from, to, elapsed, span }) ==> to == from + 1 && to
                < self.keyframes.len() && self.keyframes@[from as int].time <= time
                <= self.keyframes@[to as int].time && span >= 1,
    {
        let kfs = &self.keyframes;
        let n = kfs.len();
        if n == 0 {
            return None;
        }
        if n == 1 || time <= kfs[0].time {
            return Some(TrackSample::Hold(0));
        }
        if time >= kfs[n - 1].time {
            return Some(TrackSample::Hold(n - 1));
        }
        let mut i: usize = 0;
        while i + 1 < n
            invariant
                kfs@ == self.keyframes@,
                n == kfs.len(),
                n >= 2,
                i + 1 <= n,
                kfs@[0].time < time < kfs@[n - 1].time,
                segment_index_from(kfs@, time as int, 0) == segment_index_from(
                    kfs@,
                    time as int,
                    i as int,
                ),
            decreases n - i,
        {
            let a = kfs[i].time;
            let b = kfs[i + 1].time;
            if time >= a && time <= b {
                let span_wide = b as i128 - a as i128;
                let span: u64 = if span_wide < 1 {
                    1
                } else {
                    span_wide as u64
                };
                let elapsed = (time as i128 - a as i128) as u64;
                return Some(TrackSample::Blend { from: i, to: i + 1, elapsed, span });
            }
            i = i + 1;
        }
        Some(TrackSample::Hold(n - 1))
    }

    /// Index of the first keyframe whose time matches `time`.
    pub fn keyframe_near(&self, time: i64) -> (r: Option<usize>)
        ensures
            match find_near(self.keyframes@, time as int) {
                Some(i) => r == Some(i as usize),
                None => r is None,
            },
            match r {
                Some(i) => i < self.keyframes.len() && find_near(self.keyframes@, time as int) == Some(
                    i as int,
                ),
                None => find_near(self.keyframes@, time as int) is None,
            },
    {
        proof {
            lemma_find_near(self.keyframes@, time as int);
        }
        let mut i: usize = 0;
        while i < self.keyframes.len()
            invariant
                i <= self.keyframes.len(),
                find_near(self.keyframes@, time as int) == near_index_from(
                    self.keyframes@,
                    time as int,
                    i as int,
                ),
            decreases self.keyframes.len() - i,
        {
            if times_match(self.keyframes[i].time, time) {
                return Some(i);
            }
            i = i + 1;
        }
        None
    }

    /// Position before the first keyframe later than `time`, or the length.
    pub fn insert_position(&self, time: i64) -> (r: usize)
        ensures
            r as int == insert_position(self.keyframes@, time as int),
            r <= self.keyframes.len(),
    {
        proof {
            lemma_later_index_from(self.keyframes@, time as int, 0);
        }
        let mut i: usize = 0;
        while i < self.keyframes.len()
            invariant
                i <= self.keyframes.len(),
                later_index_from(self.keyframes@, time as int, 0) == later_index_from(
                    self.keyframes@,
                    time as int,
                    i as int,
                ),
            decreases self.keyframes.len() - i,
        {
            if self.keyframes[i].time > time {
                return i;
            }
            i = i + 1;
        }
        self.keyframes.len()
    }
}

impl<T> AnimationClip<T> {
    /// Index of the first track of bone `bone_id`.
    pub fn track_index(&self, bone_id: &str) -> (r: Option<usize>)
        ensures
            match find_track(tracks_view(self.tracks@), bone_id@) {
                Some(i) => r == Some(i as usize),
                None => r is None,
            },
            match r {
                Some(i) => i < self.tracks.len() && find_track(tracks_view(self.tracks@), bone_id@)
                    == Some(i as int),
                None => find_track(tracks_view(self.tracks@), bone_id@) is None,
            },
    {
        proof {
            lemma_find_track(tracks_view(self.tracks@), bone_id@);
        }
        let key = bone_id.to_owned();
        let mut i: usize = 0;
        while i < self.tracks.len()
            invariant
                key@ == bone_id@,
                i <= self.tracks.len(),
                find_track(tracks_view(self.tracks@), bone_id@) == track_index_from(
                    tracks_view(self.tracks@),
                    bone_id@,
                    i as int,
                ),
            decreases self.tracks.len() - i,
        {
            if self.tracks[i].bone_id == key {
                return Some(i);
            }
            i = i + 1;
        }
        None
    }

    /// The first track of bone `bone_id`.
    pub fn track(&self, bone_id: &str) -> (r: Option<&BoneTrack<T>>)
        ensures
            match find_track(tracks_view(self.tracks@), bone_id@) {
                Some(i) => r == Some(&self.tracks@[i]),
                None => r is None,
            },
    {
        proof {
            lemma_find_track(tracks_view(self.tracks@), bone_id@);
        }
        match self.track_index(bone_id) {
            Some(i) => Some(&self.tracks[i]),
            None => None,
        }
    }

    /// Mutable access to the first track of bone `bone_id`; the other tracks
    /// stay as they are.
    pub fn track_mut(&mut self, bone_id: &str) -> (r: Option<&mut BoneTrack<T>>)
        ensures
            final(self).name == old(self).name,
            final(self).duration == old(self).duration,
            final(self).fps_milli == old(self).fps_milli,
            match find_track(tracks_view(old(self).tracks@), bone_id@) {
                Some(i) => r matches Some(t) && *t == old(self).tracks@[i] && final(self).tracks@
                    == old(self).tracks@.update(i, *final(t)),
                None => r is None && *final(self) == *old(self),
            },
    {
        proof {
            lemma_find_track(tracks_view(self.tracks@), bone_id@);
        }
        match self.track_index(bone_id) {
            Some(i) => Some(&mut self.tracks[i]),
            None => None,
        }
    }

    /// Where the local transform of `bone_id` at `time` comes from: the
    /// bone's animation track, else the skeleton's bind pose, else identity.
    pub fn local_transform<U>(&self, skeleton: &Skeleton<U>, bone_id: &str, time: i64) -> (r: PoseSource)
        ensures
            r == local_pose_spec(tracks_view(self.tracks@), skeleton.bones@, bone_id@, time as int),
    {
        proof {
            lemma_find_track(tracks_view(self.tracks@), bone_id@);
        }
        if let Some(ti) = self.track_index(bone_id) {
            if let Some(sample) = self.tracks[ti].sample(time) {
                return PoseSource::Sampled { track: ti, sample };
            }
        }
        match skeleton.bone_index(bone_id) {
            Some(bi) => PoseSource::Bind(bi),
            None => PoseSource::Identity,
        }
    }
}

/// The earlier step, if any, whose bone carries the id `parent` names: the
/// last such step before step `k`.
pub open spec fn parent_step_spec<U>(bones: Seq<Bone<U>>, order: Seq<(usize, usize)>, k: int) -> Option<int> {
    match bones[order[k].0 as int].parent {
        None => None,
        Some(p) => last_step_before(bones, order, p@, k),
    }
}

/// The last step before `k` whose bone has id `id`.
pub open spec fn last_step_before<U>(bones: Seq<Bone<U>>, order: Seq<(usize, usize)>, id: Seq<char>, k: int) -> Option<int>
    decreases k,
{
    if k <= 0 {
        None
    } else if bones[order[k - 1].0 as int].id@ == id {
        Some(k - 1)
    } else {
        last_step_before(bones, order, id, k - 1)
    }
}

/// Plan for computing every bone's world matrix at `time`: one step per
/// entry of `evaluation_order` (the depth-first order from the roots, then
/// the subtrees under bones whose parent names no bone, then any bone left,
/// on a loop of parents), so that every bone gets a step, each naming where
/// its parent's matrix comes from and where its local transform comes from.
/// A step's world matrix is its parent step's (or identity) times its local
/// matrix; each bone id maps to the matrix of the last step for that id.
pub fn world_transform_plan<T, U>(skeleton: &Skeleton<U>, clip: &AnimationClip<T>, time: i64) -> (r: Vec<WorldStep>)
    ensures
        r.len() == evaluation_order(skeleton.bones@).len(),
        forall|k: int|
            0 <= k < r.len() ==> {
                let step = #[trigger] r@[k];
                let e = evaluation_order(skeleton.bones@)[k];
                &&& step.bone == e.0
                &&& step.depth == e.1
                &&& step.parent_step == match parent_step_spec(
                    skeleton.bones@,
                    evaluation_order(skeleton.bones@),
                    k,
                ) {
                    Some(j) => Some(j as usize),
                    None => None,
                }
                &&& step.local == local_pose_spec(
                    tracks_view(clip.tracks@),
                    skeleton.bones@,
                    skeleton.bones@[e.0 as int].id@,
                    time as int,
                )
            },
{
    let order = skeleton.evaluation_order();
    let ghost bones = skeleton.bones@;
    let mut steps: Vec<WorldStep> = Vec::new();
    let mut k: usize = 0;
    while k < order.len()
        invariant
            k <= order.len(),
            bones == skeleton.bones@,
            order@ == evaluation_order(bones),
            forall|m: int| 0 <= m < order.len() ==> order@[m].0 < bones.len(),
            steps.len() == k,
            forall|m: int|
                0 <= m < k ==> {
                    let step = #[trigger] steps@[m];
                    let e = order@[m];
                    &&& step.bone == e.0
                    &&& step.depth == e.1
                    &&& step.parent_step == match parent_step_spec(bones, order@, m) {
                        Some(j) => Some(j as usize),
                        None => None,
                    }
                    &&& step.local == local_pose_spec(
                        tracks_view(clip.tracks@),
                        bones,
                        bones[e.0 as int].id@,
                        time as int,
                    )
                },
        decreases order.len() - k,
    {
        let (bi, depth) = order[k];
        let bone = &skeleton.bones[bi];
        let parent_step = match &bone.parent {
            None => None,
            Some(p) => {
                let mut j: usize = k;
                let mut found: Option<usize> = None;
                while j > 0 && found.is_none()
                    invariant
                        j <= k,
                        k < order.len(),
                        forall|m: int| 0 <= m < order.len() ==> order@[m].0 < bones.len(),
                        bones == skeleton.bones@,
                        found is None ==> last_step_before(bones, order@, p@, k as int)
                            == last_step_before(bones, order@, p@, j as int),
                        found matches Some(x) ==> last_step_before(bones, order@, p@, k as int)
                            == Some(x as int),
                    decreases j,
                {
                    if skeleton.bones[order[j - 1].0].id == *p {
                        found = Some(j - 1);
                    }
                    j = j - 1;
                }
                found
            },
        };
        let local = clip.local_transform(skeleton, &bone.id, time);
        steps.push(WorldStep { bone: bi, depth, parent_step, local });
        k = k + 1;
    }
    steps
}

} // verus!
