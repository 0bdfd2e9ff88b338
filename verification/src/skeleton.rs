//! Skeleton data model: bones arranged in a parent/child hierarchy.
//!
//! A bone names its parent by id. The local bind-pose transform is a type
//! parameter: the hierarchy logic never looks inside it.

use vstd::prelude::*;

verus! {

pub struct Bone<T> {
    pub id: String,
    pub name: String,
    pub parent: Option<String>,
    /// Local bind-pose transform, relative to the parent bone.
    pub bind_transform: T,
}

pub struct Skeleton<T> {
    pub bones: Vec<Bone<T>>,
}

/// `b` names the bone `id` as its parent.
pub open spec fn has_parent<T>(b: Bone<T>, id: Seq<char>) -> bool {
    b.parent matches Some(p) && p@ == id
}

/// `b` has no parent.
pub open spec fn is_root<T>(b: Bone<T>) -> bool {
    b.parent is None
}

/// Index of the first bone at or after `from` whose id is `id`.
pub open spec fn bone_index_from<T>(bones: Seq<Bone<T>>, id: Seq<char>, from: int) -> Option<int>
    decreases bones.len() - from,
{
    if from < 0 || from >= bones.len() {
        None
    } else if bones[from].id@ == id {
        Some(from)
    } else {
        bone_index_from(bones, id, from + 1)
    }
}

/// Index of the first bone whose id is `id`, as `Skeleton::bone` finds it.
pub open spec fn find_bone<T>(bones: Seq<Bone<T>>, id: Seq<char>) -> Option<int> {
    bone_index_from(bones, id, 0)
}

pub proof fn lemma_bone_index_from<T>(bones: Seq<Bone<T>>, id: Seq<char>, from: int)
    requires
        0 <= from <= bones.len(),
    ensures
        match bone_index_from(bones, id, from) {
            Some(i) => from <= i < bones.len() && bones[i].id@ == id && forall|j: int|
                from <= j < i ==> bones[j].id@ != id,
            None => forall|j: int| from <= j < bones.len() ==> bones[j].id@ != id,
        },
    decreases bones.len() - from,
{
    if from < bones.len() && bones[from].id@ != id {
        lemma_bone_index_from(bones, id, from + 1);
    }
}

/// `find_bone` is the first bone with the id, or `None` when no bone has it.
pub proof fn lemma_find_bone<T>(bones: Seq<Bone<T>>, id: Seq<char>)
    ensures
        match find_bone(bones, id) {
            Some(i) => 0 <= i < bones.len() && bones[i].id@ == id && forall|j: int|
                0 <= j < i ==> bones[j].id@ != id,
            None => forall|j: int| 0 <= j < bones.len() ==> bones[j].id@ != id,
        },
{
    lemma_bone_index_from(bones, id, 0);
}

proof fn lemma_bone_index_same_ids<T>(a: Seq<Bone<T>>, b: Seq<Bone<T>>, id: Seq<char>, from: int)
    requires
        a.len() == b.len(),
        forall|i: int| 0 <= i < a.len() ==> a[i].id@ == b[i].id@,
    ensures
        bone_index_from(a, id, from) == bone_index_from(b, id, from),
    decreases a.len() - from,
{
    if 0 <= from < a.len() && a[from].id@ != id {
        lemma_bone_index_same_ids(a, b, id, from + 1);
    }
}

/// Bone lists with the same ids in the same places find the same bone for
/// every id.
pub proof fn lemma_find_bone_same_ids<T>(a: Seq<Bone<T>>, b: Seq<Bone<T>>, id: Seq<char>)
    requires
        a.len() == b.len(),
        forall|i: int| 0 <= i < a.len() ==> a[i].id@ == b[i].id@,
    ensures
        find_bone(a, id) == find_bone(b, id),
{
    lemma_bone_index_same_ids(a, b, id, 0);
}

/// Indices, in order, of the bones among the first `k` whose parent is `id`.
pub open spec fn children_upto<T>(bones: Seq<Bone<T>>, id: Seq<char>, k: int) -> Seq<usize>
    decreases k,
{
    if k <= 0 {
        seq![]
    } else {
        children_upto(bones, id, k - 1) + if has_parent(bones[k - 1], id) {
            seq![(k - 1) as usize]
        } else {
            seq![]
        }
    }
}

/// Indices, in order, of the bones whose parent is `id`.
pub open spec fn child_indices<T>(bones: Seq<Bone<T>>, id: Seq<char>) -> Seq<usize> {
    children_upto(bones, id, bones.len() as int)
}

/// Indices, in order, of the bones among the first `k` that have no parent.
pub open spec fn roots_upto<T>(bones: Seq<Bone<T>>, k: int) -> Seq<usize>
    decreases k,
{
    if k <= 0 {
        seq![]
    } else {
        roots_upto(bones, k - 1) + if is_root(bones[k - 1]) {
            seq![(k - 1) as usize]
        } else {
            seq![]
        }
    }
}

/// Indices, in order, of the bones that have no parent.
pub open spec fn root_indices<T>(bones: Seq<Bone<T>>) -> Seq<usize> {
    roots_upto(bones, bones.len() as int)
}

/// Pre-order listing `(bone index, depth)` of the subtree under bone `i`
/// placed at `depth`. The descent stops at depth `bones.len() - 1`: no
/// parent chain of distinct bones is longer, so only a hierarchy that loops
/// through repeated ids reaches that bound.
pub open spec fn subtree_order<T>(bones: Seq<Bone<T>>, i: usize, depth: nat) -> Seq<(usize, usize)>
    decreases bones.len() - depth, 0int,
{
    seq![(i, depth as usize)] + if depth + 1 < bones.len() {
        forest_order(bones, child_indices(bones, bones[i as int].id@), depth + 1)
    } else {
        seq![]
    }
}

/// Pre-order listing of the subtrees under each bone of `list`, in turn.
pub open spec fn forest_order<T>(bones: Seq<Bone<T>>, list: Seq<usize>, depth: nat) -> Seq<(usize, usize)>
    decreases bones.len() - depth, list.len(),
{
    if list.len() == 0 {
        seq![]
    } else {
        forest_order(bones, list.drop_last(), depth) + subtree_order(bones, list.last(), depth)
    }
}

/// Depth-first order of the whole skeleton, starting from the roots.
pub open spec fn depth_first_spec<T>(bones: Seq<Bone<T>>) -> Seq<(usize, usize)> {
    forest_order(bones, root_indices(bones), 0)
}

/// Bone `i` names a parent, but no bone has that id.
pub open spec fn is_orphan<T>(bones: Seq<Bone<T>>, i: int) -> bool {
    bones[i].parent matches Some(p) && find_bone(bones, p@) is None
}

/// Indices, in order, of the orphans among the first `k` bones.
pub open spec fn orphans_upto<T>(bones: Seq<Bone<T>>, k: int) -> Seq<usize>
    decreases k,
{
    if k <= 0 {
        seq![]
    } else {
        orphans_upto(bones, k - 1) + if is_orphan(bones, k - 1) {
            seq![(k - 1) as usize]
        } else {
            seq![]
        }
    }
}

/// Indices, in order, of the bones whose parent names no bone.
pub open spec fn orphan_indices<T>(bones: Seq<Bone<T>>) -> Seq<usize> {
    orphans_upto(bones, bones.len() as int)
}

/// One of the first `m` entries of the listing `s` is bone `b`.
pub open spec fn lists_bone_upto(s: Seq<(usize, usize)>, b: int, m: int) -> bool {
    exists|j: int| #![trigger s[j]] 0 <= j < m && s[j].0 == b
}

/// Some entry of the listing `s` is bone `b`.
pub open spec fn lists_bone(s: Seq<(usize, usize)>, b: int) -> bool {
    lists_bone_upto(s, b, s.len() as int)
}

/// The bones among the first `k` that `s` does not list, in order, each at
/// depth 0.
pub open spec fn unlisted_upto(s: Seq<(usize, usize)>, k: int) -> Seq<(usize, usize)>
    decreases k,
{
    if k <= 0 {
        seq![]
    } else {
        unlisted_upto(s, k - 1) + if lists_bone(s, k - 1) {
            seq![]
        } else {
            seq![((k - 1) as usize, 0usize)]
        }
    }
}

/// The depth-first order from the roots, then from the bones whose parent
/// names no bone.
pub open spec fn reachable_order<T>(bones: Seq<Bone<T>>) -> Seq<(usize, usize)> {
    depth_first_spec(bones) + forest_order(bones, orphan_indices(bones), 0)
}

/// Order in which every bone gets its world matrix: the depth-first order
/// from the roots, then the subtrees under bones whose parent names no
/// bone, then, at depth 0, each bone that neither reaches (a bone on or
/// under a loop of parents).
pub open spec fn evaluation_order<T>(bones: Seq<Bone<T>>) -> Seq<(usize, usize)> {
    reachable_order(bones) + unlisted_upto(reachable_order(bones), bones.len() as int)
}

/// The indices listed by `roots_upto` are valid and name roots.
pub(crate) proof fn lemma_roots_upto<T>(bones: Seq<Bone<T>>, k: int)
    requires
        0 <= k <= bones.len(),
        bones.len() <= usize::MAX,
    ensures
        forall|m: int|
            #![trigger roots_upto(bones, k)[m]]
            0 <= m < roots_upto(bones, k).len() ==> roots_upto(bones, k)[m] < k && is_root(
                bones[roots_upto(bones, k)[m] as int],
            ),
    decreases k,
{
    if k > 0 {
        lemma_roots_upto(bones, k - 1);
        let a = roots_upto(bones, k - 1);
        let b: Seq<usize> = if is_root(bones[k - 1]) { seq![(k - 1) as usize] } else { seq![] };
        assert(roots_upto(bones, k) == a + b);
        assert forall|m: int| 0 <= m < (a + b).len() implies (a + b)[m] < k && is_root(
            bones[(a + b)[m] as int],
        ) by {
            if m < a.len() {
                assert((a + b)[m] == a[m]);
            } else {
                assert((a + b)[m] == b[m - a.len()]);
            }
        }
    }
}

/// The indices listed by `children_upto` are valid and name children of `id`.
pub(crate) proof fn lemma_children_upto<T>(bones: Seq<Bone<T>>, id: Seq<char>, k: int)
    requires
        0 <= k <= bones.len(),
        bones.len() <= usize::MAX,
    ensures
        forall|m: int|
            #![trigger children_upto(bones, id, k)[m]]
            0 <= m < children_upto(bones, id, k).len() ==> children_upto(bones, id, k)[m] < k
                && has_parent(bones[children_upto(bones, id, k)[m] as int], id),
    decreases k,
{
    if k > 0 {
        lemma_children_upto(bones, id, k - 1);
        let a = children_upto(bones, id, k - 1);
        let b: Seq<usize> = if has_parent(bones[k - 1], id) { seq![(k - 1) as usize] } else { seq![] };
        assert(children_upto(bones, id, k) == a + b);
        assert forall|m: int| 0 <= m < (a + b).len() implies (a + b)[m] < k && has_parent(
            bones[(a + b)[m] as int],
            id,
        ) by {
            if m < a.len() {
                assert((a + b)[m] == a[m]);
            } else {
                assert((a + b)[m] == b[m - a.len()]);
            }
        }
    }
}

/// Every entry of a subtree listing names a valid bone, lies at `depth` or
/// deeper, sits at exactly `depth` only for the subtree's own root, and
/// sits deeper only for a bone that has a parent.
proof fn lemma_subtree_entries<T>(bones: Seq<Bone<T>>, i: usize, depth: nat)
    requires
        i < bones.len(),
        depth < bones.len(),
        bones.len() <= usize::MAX,
    ensures
        forall|m: int|
            0 <= m < subtree_order(bones, i, depth).len() ==> {
                let e = #[trigger] subtree_order(bones, i, depth)[m];
                &&& e.0 < bones.len()
                &&& e.1 >= depth
                &&& e.1 == depth ==> e.0 == i
                &&& e.1 > depth ==> !is_root(bones[e.0 as int])
            },
    decreases bones.len() - depth, 0int,
{
    if depth + 1 < bones.len() {
        let ch = child_indices(bones, bones[i as int].id@);
        lemma_children_upto(bones, bones[i as int].id@, bones.len() as int);
        lemma_forest_entries(bones, ch, depth + 1, bones[i as int].id@);
        let a = forest_order(bones, ch, depth + 1);
        assert forall|m: int| 0 <= m < (seq![(i, depth as usize)] + a).len() implies {
            let e = #[trigger] (seq![(i, depth as usize)] + a)[m];
            &&& e.0 < bones.len()
            &&& e.1 >= depth
            &&& e.1 == depth ==> e.0 == i
            &&& e.1 > depth ==> !is_root(bones[e.0 as int])
        } by {
            if m > 0 {
                assert((seq![(i, depth as usize)] + a)[m] == a[m - 1]);
            }
        }
    }
}

/// Every entry of a forest listing over children of `id` names a valid
/// bone at `depth` or deeper that has a parent.
proof fn lemma_forest_entries<T>(bones: Seq<Bone<T>>, list: Seq<usize>, depth: nat, id: Seq<char>)
    requires
        bones.len() <= usize::MAX,
        depth < bones.len() || list.len() == 0,
        forall|m: int|
            #![trigger list[m]]
            0 <= m < list.len() ==> list[m] < bones.len() && has_parent(bones[list[m] as int], id),
    ensures
        forall|m: int|
            0 <= m < forest_order(bones, list, depth).len() ==> {
                let e = #[trigger] forest_order(bones, list, depth)[m];
                &&& e.0 < bones.len()
                &&& e.1 >= depth
                &&& !is_root(bones[e.0 as int])
            },
    decreases bones.len() - depth, list.len(),
{
    if list.len() > 0 {
        lemma_forest_entries(bones, list.drop_last(), depth, id);
        let last = list.last();
        assert(has_parent(bones[list[list.len() - 1] as int], id));
        lemma_subtree_entries(bones, last, depth);
        let a = forest_order(bones, list.drop_last(), depth);
        let b = subtree_order(bones, last, depth);
        assert forall|m: int| 0 <= m < (a + b).len() implies {
            let e = #[trigger] (a + b)[m];
            &&& e.0 < bones.len()
            &&& e.1 >= depth
            &&& !is_root(bones[e.0 as int])
        } by {
            if m >= a.len() {
                assert((a + b)[m] == b[m - a.len()]);
            } else {
                assert((a + b)[m] == a[m]);
            }
        }
    }
}

/// Every entry of a forest listing over roots names a valid bone, and an
/// entry lies at depth 0 exactly when its bone is a root.
proof fn lemma_root_forest_entries<T>(bones: Seq<Bone<T>>, list: Seq<usize>)
    requires
        bones.len() <= usize::MAX,
        forall|m: int|
            #![trigger list[m]]
            0 <= m < list.len() ==> list[m] < bones.len() && is_root(bones[list[m] as int]),
    ensures
        forall|m: int|
            0 <= m < forest_order(bones, list, 0).len() ==> {
                let e = #[trigger] forest_order(bones, list, 0)[m];
                &&& e.0 < bones.len()
                &&& (e.1 == 0 <==> is_root(bones[e.0 as int]))
            },
    decreases list.len(),
{
    if list.len() > 0 {
        lemma_root_forest_entries(bones, list.drop_last());
        let last = list.last();
        assert(is_root(bones[list[list.len() - 1] as int]));
        lemma_subtree_entries(bones, last, 0);
        let a = forest_order(bones, list.drop_last(), 0);
        let b = subtree_order(bones, last, 0);
        assert forall|m: int| 0 <= m < (a + b).len() implies {
            let e = #[trigger] (a + b)[m];
            &&& e.0 < bones.len()
            &&& (e.1 == 0 <==> is_root(bones[e.0 as int]))
        } by {
            if m >= a.len() {
                assert((a + b)[m] == b[m - a.len()]);
            } else {
                assert((a + b)[m] == a[m]);
            }
        }
    }
}

/// Depth-first order lists valid bones, and lists a bone at depth 0
/// exactly when it is a root: every deeper entry hangs under a parent.
pub proof fn law_depth_first_roots_at_depth_zero<T>(bones: Seq<Bone<T>>)
    requires
        bones.len() <= usize::MAX,
    ensures
        forall|m: int|
            0 <= m < depth_first_spec(bones).len() ==> {
                let e = #[trigger] depth_first_spec(bones)[m];
                &&& e.0 < bones.len()
                &&& (e.1 == 0 <==> is_root(bones[e.0 as int]))
            },
{
    lemma_roots_upto(bones, bones.len() as int);
    lemma_root_forest_entries(bones, root_indices(bones));
}

/// The id a bone names as its parent (empty for a root).
pub open spec fn parent_of<T>(b: Bone<T>) -> Seq<char> {
    match b.parent {
        Some(p) => p@,
        None => seq![],
    }
}

/// Some entry before position `m` of the listing `s` is a bone with id `id`.
pub open spec fn id_listed_before<T>(bones: Seq<Bone<T>>, s: Seq<(usize, usize)>, id: Seq<char>, m: int) -> bool {
    exists|j: int| #![trigger s[j]] 0 <= j < m && bones[s[j].0 as int].id@ == id
}

/// Below its first entry, every entry of a subtree listing comes after an
/// entry for the bone its parent names.
proof fn lemma_subtree_parents_first<T>(bones: Seq<Bone<T>>, i: usize, depth: nat)
    requires
        i < bones.len(),
        depth < bones.len(),
        bones.len() <= usize::MAX,
    ensures
        forall|m: int|
            0 < m < subtree_order(bones, i, depth).len() ==> id_listed_before(
                bones,
                subtree_order(bones, i, depth),
                parent_of(bones[(#[trigger] subtree_order(bones, i, depth)[m]).0 as int]),
                m,
            ),
    decreases bones.len() - depth, 0int,
{
    if depth + 1 < bones.len() {
        let id = bones[i as int].id@;
        let ch = child_indices(bones, id);
        lemma_children_upto(bones, id, bones.len() as int);
        let top = |b: Bone<T>| has_parent(b, id);
        assert forall|m: int| 0 <= m < ch.len() implies ch[m] < bones.len() && top(bones[ch[m] as int]) by {
            assert(ch[m] < bones.len() && has_parent(bones[ch[m] as int], id));
        }
        lemma_forest_parents_first(bones, ch, depth + 1, top);
        let f = forest_order(bones, ch, depth + 1);
        let s = seq![(i, depth as usize)] + f;
        assert(subtree_order(bones, i, depth) == s);
        assert forall|m: int| 0 < m < s.len() implies id_listed_before(
            bones,
            s,
            parent_of(bones[(#[trigger] s[m]).0 as int]),
            m,
        ) by {
            assert(s[m] == f[m - 1]);
            let pid = parent_of(bones[f[m - 1].0 as int]);
            if top(bones[f[m - 1].0 as int]) {
                assert(s[0] == (i, depth as usize));
                assert(bones[s[0].0 as int].id@ == pid);
            } else {
                assert(id_listed_before(bones, f, pid, m - 1));
                let j = choose|j: int| #![trigger f[j]] 0 <= j < m - 1 && bones[f[j].0 as int].id@ == pid;
                assert(s[j + 1] == f[j]);
            }
        }
    }
}

/// Every entry of a forest listing over bones that satisfy `top` either
/// satisfies `top` itself or comes after an entry for the bone its parent
/// names.
pub(crate) proof fn lemma_forest_parents_first<T>(
    bones: Seq<Bone<T>>,
    list: Seq<usize>,
    depth: nat,
    top: spec_fn(Bone<T>) -> bool,
)
    requires
        bones.len() <= usize::MAX,
        depth < bones.len() || list.len() == 0,
        forall|m: int| #![trigger list[m]] 0 <= m < list.len() ==> list[m] < bones.len() && top(bones[list[m] as int]),
    ensures
        forall|m: int|
            0 <= m < forest_order(bones, list, depth).len() ==> {
                let e = #[trigger] forest_order(bones, list, depth)[m];
                top(bones[e.0 as int]) || id_listed_before(
                    bones,
                    forest_order(bones, list, depth),
                    parent_of(bones[e.0 as int]),
                    m,
                )
            },
    decreases bones.len() - depth, list.len(),
{
    if list.len() > 0 {
        lemma_forest_parents_first(bones, list.drop_last(), depth, top);
        let last = list.last();
        assert(list[list.len() - 1] == last);
        lemma_subtree_parents_first(bones, last, depth);
        let a = forest_order(bones, list.drop_last(), depth);
        let b = subtree_order(bones, last, depth);
        let f = a + b;
        assert(forest_order(bones, list, depth) == f);
        assert forall|m: int| 0 <= m < f.len() implies {
            let e = #[trigger] f[m];
            top(bones[e.0 as int]) || id_listed_before(bones, f, parent_of(bones[e.0 as int]), m)
        } by {
            if m < a.len() {
                assert(f[m] == a[m]);
                let pid = parent_of(bones[a[m].0 as int]);
                if !top(bones[a[m].0 as int]) {
                    assert(id_listed_before(bones, a, pid, m));
                    let j = choose|j: int| #![trigger a[j]] 0 <= j < m && bones[a[j].0 as int].id@ == pid;
                    assert(f[j] == a[j]);
                }
            } else {
                let p = m - a.len();
                assert(f[m] == b[p]);
                if p == 0 {
                    assert(b[0] == (last, depth as usize));
                } else {
                    let pid = parent_of(bones[b[p].0 as int]);
                    assert(id_listed_before(bones, b, pid, p));
                    let j = choose|j: int| #![trigger b[j]] 0 <= j < p && bones[b[j].0 as int].id@ == pid;
                    assert(f[a.len() + j] == b[j]);
                }
            }
        }
    }
}

/// In depth-first order, every bone below the top level has a parent, and
/// comes after an entry for the bone its parent names: a parent is always
/// visited before its children.
pub proof fn law_depth_first_parent_listed_first<T>(bones: Seq<Bone<T>>)
    requires
        bones.len() <= usize::MAX,
    ensures
        forall|m: int|
            0 <= m < depth_first_spec(bones).len() && (#[trigger] depth_first_spec(bones)[m]).1 > 0 ==> {
                &&& bones[depth_first_spec(bones)[m].0 as int].parent is Some
                &&& id_listed_before(
                    bones,
                    depth_first_spec(bones),
                    parent_of(bones[depth_first_spec(bones)[m].0 as int]),
                    m,
                )
            },
{
    let roots = root_indices(bones);
    lemma_roots_upto(bones, bones.len() as int);
    law_depth_first_roots_at_depth_zero(bones);
    let top = |b: Bone<T>| is_root(b);
    assert forall|m: int| 0 <= m < roots.len() implies roots[m] < bones.len() && top(bones[roots[m] as int]) by {
        assert(roots[m] < bones.len() && is_root(bones[roots[m] as int]));
    }
    if roots.len() > 0 {
        assert(roots[0] < bones.len());
    }
    lemma_forest_parents_first(bones, roots, 0, top);
    let order = depth_first_spec(bones);
    assert forall|m: int| 0 <= m < order.len() && (#[trigger] order[m]).1 > 0 implies {
        &&& bones[order[m].0 as int].parent is Some
        &&& id_listed_before(bones, order, parent_of(bones[order[m].0 as int]), m)
    } by {
        assert(!is_root(bones[order[m].0 as int]));
        assert(!top(bones[order[m].0 as int]));
    }
}

impl<T> Skeleton<T> {
    /// Index of the first bone whose id is `id`.
    pub fn bone_index(&self, id: &str) -> (r: Option<usize>)
        ensures
            r matches Some(i) ==> find_bone(self.bones@, id@) == Some(i as int),
            r is None ==> find_bone(self.bones@, id@) is None,
            match r {
                Some(i) => i < self.bones.len() && self.bones@[i as int].id@ == id@ && forall|j: int|
                    0 <= j < i ==> self.bones@[j].id@ != id@,
                None => forall|j: int| 0 <= j < self.bones.len() ==> self.bones@[j].id@ != id@,
            },
    {
        let key = id.to_owned();
        let mut i: usize = 0;
        while i < self.bones.len()
            invariant
                key@ == id@,
                i <= self.bones.len(),
                bone_index_from(self.bones@, id@, 0) == bone_index_from(self.bones@, id@, i as int),
            decreases self.bones.len() - i,
        {
            if self.bones[i].id == key {
                assert(bone_index_from(self.bones@, id@, i as int) == Some(i as int));
                proof {
                    lemma_find_bone(self.bones@, id@);
                }
                return Some(i);
            }
            i = i + 1;
        }
        proof {
            lemma_find_bone(self.bones@, id@);
        }
        None
    }

    /// The first bone whose id is `id`.
    pub fn bone(&self, id: &str) -> (r: Option<&Bone<T>>)
        ensures
            match find_bone(self.bones@, id@) {
                Some(i) => r == Some(&self.bones@[i]),
                None => r is None,
            },
    {
        match self.bone_index(id) {
            Some(i) => Some(&self.bones[i]),
            None => None,
        }
    }

    /// Mutable access to the first bone whose id is `id`; the other bones
    /// stay as they are.
    pub fn bone_mut(&mut self, id: &str) -> (r: Option<&mut Bone<T>>)
        ensures
            match find_bone(old(self).bones@, id@) {
                Some(i) => r matches Some(b) && *b == old(self).bones@[i] && final(self).bones@
                    == old(self).bones@.update(i, *final(b)),
                None => r is None && *final(self) == *old(self),
            },
    {
        match self.bone_index(id) {
            Some(i) => Some(&mut self.bones[i]),
            None => None,
        }
    }

    fn root_index_list(&self) -> (r: Vec<usize>)
        ensures
            r@ == root_indices(self.bones@),
            forall|m: int| 0 <= m < r.len() ==> r@[m] < self.bones.len(),
    {
        let mut out: Vec<usize> = Vec::new();
        let mut k: usize = 0;
        while k < self.bones.len()
            invariant
                k <= self.bones.len(),
                out@ == roots_upto(self.bones@, k as int),
                forall|m: int| 0 <= m < out.len() ==> out@[m] < k,
            decreases self.bones.len() - k,
        {
            if self.bones[k].parent.is_none() {
                out.push(k);
            }
            k = k + 1;
        }
        out
    }

    fn orphan_index_list(&self) -> (r: Vec<usize>)
        ensures
            r@ == orphan_indices(self.bones@),
            forall|m: int| 0 <= m < r.len() ==> r@[m] < self.bones.len(),
    {
        let mut out: Vec<usize> = Vec::new();
        let mut k: usize = 0;
        while k < self.bones.len()
            invariant
                k <= self.bones.len(),
                out@ == orphans_upto(self.bones@, k as int),
                forall|m: int| 0 <= m < out.len() ==> out@[m] < k,
            decreases self.bones.len() - k,
        {
            let orphan = match &self.bones[k].parent {
                Some(p) => self.bone_index(p.as_str()).is_none(),
                None => false,
            };
            if orphan {
                out.push(k);
            }
            k = k + 1;
        }
        out
    }

    fn child_index_list(&self, id: &String) -> (r: Vec<usize>)
        ensures
            r@ == child_indices(self.bones@, id@),
            forall|m: int| 0 <= m < r.len() ==> r@[m] < self.bones.len(),
    {
        let mut out: Vec<usize> = Vec::new();
        let mut k: usize = 0;
        while k < self.bones.len()
            invariant
                k <= self.bones.len(),
                out@ == children_upto(self.bones@, id@, k as int),
                forall|m: int| 0 <= m < out.len() ==> out@[m] < k,
            decreases self.bones.len() - k,
        {
            let is_child = match &self.bones[k].parent {
                Some(p) => *p == *id,
                None => false,
            };
            if is_child {
                out.push(k);
            }
            k = k + 1;
        }
        out
    }

    fn refs_of(&self, list: &Vec<usize>) -> (r: Vec<&Bone<T>>)
        requires
            forall|m: int| 0 <= m < list.len() ==> list@[m] < self.bones.len(),
        ensures
            r.len() == list.len(),
            forall|m: int| 0 <= m < list.len() ==> *r@[m] == self.bones@[list@[m] as int],
    {
        let mut out: Vec<&Bone<T>> = Vec::new();
        let mut k: usize = 0;
        while k < list.len()
            invariant
                k <= list.len(),
                out.len() == k,
                forall|m: int| 0 <= m < list.len() ==> list@[m] < self.bones.len(),
                forall|m: int| 0 <= m < k ==> *out@[m] == self.bones@[list@[m] as int],
            decreases list.len() - k,
        {
            out.push(&self.bones[list[k]]);
            k = k + 1;
        }
        out
    }

    /// The bones that have no parent, in order.
    pub fn root_bones(&self) -> (r: Vec<&Bone<T>>)
        ensures
            r.len() == root_indices(self.bones@).len(),
            forall|m: int|
                0 <= m < r.len() ==> *r@[m] == self.bones@[root_indices(self.bones@)[m] as int],
    {
        let list = self.root_index_list();
        self.refs_of(&list)
    }

    /// The bones whose parent is `id`, in order.
    pub fn children_of(&self, id: &str) -> (r: Vec<&Bone<T>>)
        ensures
            r.len() == child_indices(self.bones@, id@).len(),
            forall|m: int|
                0 <= m < r.len() ==> *r@[m] == self.bones@[child_indices(self.bones@, id@)[m] as int],
    {
        let key = id.to_owned();
        let list = self.child_index_list(&key);
        self.refs_of(&list)
    }

    /// Depth-first iteration order starting from the roots, as
    /// `(bone index, depth)` pairs.
    pub fn depth_first_order(&self) -> (r: Vec<(usize, usize)>)
        ensures
            r@ == depth_first_spec(self.bones@),
            forall|m: int| 0 <= m < r.len() ==> r@[m].0 < self.bones.len(),
    {
        let roots = self.root_index_list();
        let mut out: Vec<(usize, usize)> = Vec::new();
        let mut k: usize = 0;
        while k < roots.len()
            invariant
                k <= roots.len(),
                roots@ == root_indices(self.bones@),
                forall|m: int| 0 <= m < roots.len() ==> roots@[m] < self.bones.len(),
                out@ == forest_order(self.bones@, roots@.take(k as int), 0),
                forall|m: int| 0 <= m < out.len() ==> out@[m].0 < self.bones.len(),
            decreases roots.len() - k,
        {
            proof {
                assert(roots@.take(k + 1).drop_last() =~= roots@.take(k as int));
            }
            self.push_subtree(roots[k], 0, &mut out);
            k = k + 1;
        }
        proof {
            assert(roots@.take(roots.len() as int) =~= roots@);
        }
        out
    }

    /// Append the depth-first listing of the subtrees under each bone of
    /// `list`, in turn, at depth 0.
    fn push_forest(&self, list: &Vec<usize>, out: &mut Vec<(usize, usize)>)
        requires
            forall|m: int| 0 <= m < list.len() ==> list@[m] < self.bones.len(),
            forall|m: int| 0 <= m < old(out).len() ==> old(out)@[m].0 < self.bones.len(),
        ensures
            final(out)@ == old(out)@ + forest_order(self.bones@, list@, 0),
            forall|m: int| 0 <= m < final(out).len() ==> final(out)@[m].0 < self.bones.len(),
    {
        let ghost start = out@;
        let mut k: usize = 0;
        while k < list.len()
            invariant
                k <= list.len(),
                forall|m: int| 0 <= m < list.len() ==> list@[m] < self.bones.len(),
                out@ == start + forest_order(self.bones@, list@.take(k as int), 0),
                forall|m: int| 0 <= m < out.len() ==> out@[m].0 < self.bones.len(),
            decreases list.len() - k,
        {
            proof {
                assert(list@.take(k + 1).drop_last() =~= list@.take(k as int));
                assert(list@.take(k + 1).last() == list@[k as int]);
            }
            let ghost before = out@;
            self.push_subtree(list[k], 0, out);
            proof {
                assert(start + forest_order(self.bones@, list@.take(k + 1), 0) =~= out@);
            }
            k = k + 1;
        }
        proof {
            assert(list@.take(list.len() as int) =~= list@);
        }
    }

    /// The order in which every bone gets its world matrix: each bone once
    /// when ids are distinct (see `evaluation_order`).
    pub fn evaluation_order(&self) -> (r: Vec<(usize, usize)>)
        ensures
            r@ == evaluation_order(self.bones@),
            forall|m: int| 0 <= m < r.len() ==> r@[m].0 < self.bones.len(),
    {
        let mut out = self.depth_first_order();
        let orphans = self.orphan_index_list();
        self.push_forest(&orphans, &mut out);
        let ghost listed = out@;
        assert(listed == reachable_order(self.bones@));
        let n = self.bones.len();
        let mut seen: Vec<bool> = Vec::new();
        let mut b: usize = 0;
        while b < n
            invariant
                b <= n,
                seen.len() == b,
                forall|x: int| 0 <= x < b ==> !seen@[x],
            decreases n - b,
        {
            seen.push(false);
            b = b + 1;
        }
        let mut m: usize = 0;
        while m < out.len()
            invariant
                n == self.bones.len(),
                out@ == listed,
                m <= out.len(),
                seen.len() == n,
                forall|j: int| 0 <= j < out.len() ==> out@[j].0 < n,
                forall|x: int| 0 <= x < n ==> seen@[x] == lists_bone_upto(listed, x, m as int),
            decreases out.len() - m,
        {
            let e = out[m].0;
            seen[e] = true;
            proof {
                assert forall|x: int| 0 <= x < n implies seen@[x] == lists_bone_upto(listed, x, m + 1) by {
                    if x == e {
                        assert(listed[m as int].0 == x);
                    } else if lists_bone_upto(listed, x, m + 1) {
                        let j = choose|j: int| #![trigger listed[j]] 0 <= j < m + 1 && listed[j].0 == x;
                        assert(j < m);
                    }
                }
            }
            m = m + 1;
        }
        let mut b: usize = 0;
        while b < n
            invariant
                n == self.bones.len(),
                b <= n,
                seen.len() == n,
                forall|x: int| 0 <= x < n ==> seen@[x] == lists_bone(listed, x),
                out@ == listed + unlisted_upto(listed, b as int),
                forall|j: int| 0 <= j < out.len() ==> out@[j].0 < n,
            decreases n - b,
        {
            if !seen[b] {
                out.push((b, 0));
            }
            proof {
                assert(listed + unlisted_upto(listed, b + 1) =~= out@);
            }
            b = b + 1;
        }
        out
    }

    /// Depth-first iteration order starting from the roots, yielding `(bone, depth)`.
    pub fn depth_first(&self) -> (r: Vec<(&Bone<T>, usize)>)
        ensures
            r.len() == depth_first_spec(self.bones@).len(),
            forall|m: int|
                0 <= m < r.len() ==> *r@[m].0 == self.bones@[depth_first_spec(self.bones@)[m].0 as int]
                    && r@[m].1 == depth_first_spec(self.bones@)[m].1,
    {
        let order = self.depth_first_order();
        let mut out: Vec<(&Bone<T>, usize)> = Vec::new();
        let mut k: usize = 0;
        while k < order.len()
            invariant
                k <= order.len(),
                out.len() == k,
                order@ == depth_first_spec(self.bones@),
                forall|m: int| 0 <= m < order.len() ==> order@[m].0 < self.bones.len(),
                forall|m: int|
                    0 <= m < k ==> *out@[m].0 == self.bones@[order@[m].0 as int] && out@[m].1
                        == order@[m].1,
            decreases order.len() - k,
        {
            let (i, d) = order[k];
            out.push((&self.bones[i], d));
            k = k + 1;
        }
        out
    }

    fn push_subtree(&self, i: usize, depth: usize, out: &mut Vec<(usize, usize)>)
        requires
            i < self.bones.len(),
            depth < self.bones.len(),
            forall|m: int| 0 <= m < old(out).len() ==> old(out)@[m].0 < self.bones.len(),
        ensures
            final(out)@ == old(out)@ + subtree_order(self.bones@, i, depth as nat),
            forall|m: int| 0 <= m < final(out).len() ==> final(out)@[m].0 < self.bones.len(),
        decreases self.bones.len() - depth,
    {
        let ghost start = out@;
        out.push((i, depth));
        if depth + 1 < self.bones.len() {
            let children = self.child_index_list(&self.bones[i].id);
            let ghost ch = children@;
            let mut k: usize = 0;
            while k < children.len()
                invariant
                    k <= children.len(),
                    depth + 1 < self.bones.len(),
                    children@ == ch,
                    ch == child_indices(self.bones@, self.bones@[i as int].id@),
                    forall|m: int| 0 <= m < children.len() ==> children@[m] < self.bones.len(),
                    out@ == start + seq![(i, depth)] + forest_order(
                        self.bones@,
                        ch.take(k as int),
                        (depth + 1) as nat,
                    ),
                    forall|m: int| 0 <= m < out.len() ==> out@[m].0 < self.bones.len(),
                decreases children.len() - k,
            {
                proof {
                    assert(ch.take(k + 1).drop_last() =~= ch.take(k as int));
                }
                self.push_subtree(children[k], depth + 1, out);
                k = k + 1;
            }
            proof {
                assert(ch.take(children.len() as int) =~= ch);
            }
        }
    }
}

} // verus!
