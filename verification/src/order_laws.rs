//! What the bone orders promise: with distinct ids no bone is listed twice,
//! the evaluation order lists every bone, the depth-first order lists every
//! bone whose chain of parents reaches a root, and a bone comes after the
//! bone its parent names.

use vstd::prelude::*;
use crate::skeleton::{
    Bone,
    find_bone,
    lemma_find_bone,
    has_parent,
    is_root,
    is_orphan,
    child_indices,
    children_upto,
    root_indices,
    roots_upto,
    orphan_indices,
    orphans_upto,
    subtree_order,
    forest_order,
    depth_first_spec,
    reachable_order,
    evaluation_order,
    lists_bone,
    lists_bone_upto,
    unlisted_upto,
    lemma_children_upto,
    lemma_roots_upto,
    lemma_forest_parents_first,
    law_depth_first_parent_listed_first,
    id_listed_before,
    parent_of,
};
use crate::animation::{WorldStep, parent_step_spec, last_step_before};
use crate::editor::{SkeletalAnimEditorPanel, listing_ancestor, ancestor_chain, names_view, HierarchyRow};

verus! {

/// The index of the bone that bone `b` names as its parent, when that id
/// names a bone.
pub open spec fn parent_index<T>(bones: Seq<Bone<T>>, b: int) -> Option<int> {
    match bones[b].parent {
        Some(p) => find_bone(bones, p@),
        None => None,
    }
}

/// The bone `k` parent steps above bone `b`, if the chain goes that far.
pub open spec fn ancestor<T>(bones: Seq<Bone<T>>, b: int, k: nat) -> Option<int>
    decreases k,
{
    if k == 0 {
        Some(b)
    } else {
        match ancestor(bones, b, (k - 1) as nat) {
            Some(a) => parent_index(bones, a),
            None => None,
        }
    }
}

/// Some entry of `list` is `a`.
pub open spec fn list_has(list: Seq<usize>, a: int) -> bool {
    exists|j: int| #![trigger list[j]] 0 <= j < list.len() && list[j] as int == a
}

/// No two bones share an id.
pub open spec fn ids_distinct<T>(bones: Seq<Bone<T>>) -> bool {
    forall|i: int, j: int|
        #![trigger bones[i], bones[j]]
        0 <= i < bones.len() && 0 <= j < bones.len() && i != j ==> bones[i].id@ != bones[j].id@
}

/// With distinct ids, a bone's own id finds it.
proof fn lemma_find_own_id<T>(bones: Seq<Bone<T>>, i: int)
    requires
        ids_distinct(bones),
        0 <= i < bones.len(),
    ensures
        find_bone(bones, bones[i].id@) == Some(i),
{
    lemma_find_bone(bones, bones[i].id@);
    match find_bone(bones, bones[i].id@) {
        Some(j) => {
            if j != i {
                assert(bones[j].id@ != bones[i].id@);
            }
        },
        None => {
            assert(bones[i].id@ != bones[i].id@);
        },
    }
}

/// A bone whose parent is bone `i`'s id has parent index `i` when ids are
/// distinct, and in any case some parent index.
proof fn lemma_child_parent_index<T>(bones: Seq<Bone<T>>, c: int, i: int)
    requires
        0 <= c < bones.len(),
        0 <= i < bones.len(),
        has_parent(bones[c], bones[i].id@),
    ensures
        parent_index(bones, c) is Some,
        ids_distinct(bones) ==> parent_index(bones, c) == Some(i),
{
    lemma_find_bone(bones, bones[i].id@);
    if ids_distinct(bones) {
        lemma_find_own_id(bones, i);
    }
}

/// Climbing `a + k` steps is climbing `a` steps, then `k`.
proof fn lemma_ancestor_add<T>(bones: Seq<Bone<T>>, b: int, a: nat, k: nat)
    ensures
        ancestor(bones, b, a + k) == match ancestor(bones, b, a) {
            Some(x) => ancestor(bones, x, k),
            None => None,
        },
    decreases k,
{
    if k > 0 {
        let km = (k - 1) as nat;
        lemma_ancestor_add(bones, b, a, km);
        let n = a + k;
        assert((n - 1) as nat == a + km);
        assert(ancestor(bones, b, n) == match ancestor(bones, b, a + km) {
            Some(y) => parent_index(bones, y),
            None => None,
        });
        match ancestor(bones, b, a) {
            Some(x) => {
                assert(ancestor(bones, x, k) == match ancestor(bones, x, km) {
                    Some(y) => parent_index(bones, y),
                    None => None,
                });
            },
            None => {},
        }
    }
}

/// Nothing lies above a bone without a parent index.
proof fn lemma_ancestor_of_top<T>(bones: Seq<Bone<T>>, t: int, k: nat)
    requires
        parent_index(bones, t) is None,
        k >= 1,
    ensures
        ancestor(bones, t, k) is None,
    decreases k,
{
    assert(ancestor(bones, t, 0) == Some(t));
    if k > 1 {
        lemma_ancestor_of_top(bones, t, (k - 1) as nat);
    }
}

/// Two chains from one bone that both end at a bone without a parent index
/// have the same length and end at the same bone.
proof fn lemma_same_top<T>(bones: Seq<Bone<T>>, b: int, e1: nat, e2: nat, t1: int, t2: int)
    requires
        ancestor(bones, b, e1) == Some(t1),
        ancestor(bones, b, e2) == Some(t2),
        parent_index(bones, t1) is None,
        parent_index(bones, t2) is None,
    ensures
        e1 == e2,
        t1 == t2,
{
    if e1 < e2 {
        lemma_ancestor_add(bones, b, e1, (e2 - e1) as nat);
        assert(e1 + (e2 - e1) as nat == e2);
        lemma_ancestor_of_top(bones, t1, (e2 - e1) as nat);
    } else if e2 < e1 {
        lemma_ancestor_add(bones, b, e2, (e1 - e2) as nat);
        assert(e2 + (e1 - e2) as nat == e1);
        lemma_ancestor_of_top(bones, t2, (e1 - e2) as nat);
    }
}

/// What each entry of a subtree listing is: a valid bone at `d` or deeper,
/// the subtree's own bone at `d`, a bone with a parent index below it, and,
/// with distinct ids, a bone whose chain climbs back to the subtree's bone.
proof fn lemma_subtree_facts<T>(bones: Seq<Bone<T>>, i: usize, d: nat)
    requires
        i < bones.len(),
        d < bones.len(),
        bones.len() <= usize::MAX,
    ensures
        forall|m: int|
            0 <= m < subtree_order(bones, i, d).len() ==> {
                let e = #[trigger] subtree_order(bones, i, d)[m];
                &&& e.0 < bones.len()
                &&& e.1 >= d
                &&& e.1 == d ==> e.0 == i
                &&& e.1 > d ==> parent_index(bones, e.0 as int) is Some
                &&& ids_distinct(bones) ==> ancestor(bones, e.0 as int, (e.1 - d) as nat) == Some(i as int)
            },
    decreases bones.len() - d, 0int,
{
    let s = subtree_order(bones, i, d);
    if d + 1 < bones.len() {
        let id = bones[i as int].id@;
        let ch = child_indices(bones, id);
        lemma_children_upto(bones, id, bones.len() as int);
        lemma_forest_facts(bones, ch, d + 1);
        let f = forest_order(bones, ch, d + 1);
        assert(s == seq![(i, d as usize)] + f);
        assert forall|m: int| 0 <= m < s.len() implies {
            let e = #[trigger] s[m];
            &&& e.0 < bones.len()
            &&& e.1 >= d
            &&& e.1 == d ==> e.0 == i
            &&& e.1 > d ==> parent_index(bones, e.0 as int) is Some
            &&& ids_distinct(bones) ==> ancestor(bones, e.0 as int, (e.1 - d) as nat) == Some(i as int)
        } by {
            if m > 0 {
                let e = f[m - 1];
                assert(s[m] == e);
                if e.1 == d + 1 {
                    let j = choose|j: int| 0 <= j < ch.len() && ch[j] == e.0;
                    assert(has_parent(bones[ch[j] as int], id));
                    lemma_child_parent_index(bones, e.0 as int, i as int);
                }
                if ids_distinct(bones) {
                    let a = ancestor(bones, e.0 as int, (e.1 - d - 1) as nat)->Some_0;
                    let j = choose|j: int| #![trigger ch[j]] 0 <= j < ch.len() && ch[j] as int == a;
                    assert(has_parent(bones[ch[j] as int], id));
                    lemma_child_parent_index(bones, a, i as int);
                    assert(((e.1 - d) as nat - 1) as nat == (e.1 - d - 1) as nat);
                }
            }
        }
    }
}

/// What each entry of a forest listing over `list` is: a valid bone at `d`
/// or deeper, one of `list` at `d`, a bone with a parent index below, and,
/// with distinct ids, a bone whose chain climbs back to one of `list`.
proof fn lemma_forest_facts<T>(bones: Seq<Bone<T>>, list: Seq<usize>, d: nat)
    requires
        bones.len() <= usize::MAX,
        d < bones.len() || list.len() == 0,
        forall|m: int| #![trigger list[m]] 0 <= m < list.len() ==> list[m] < bones.len(),
    ensures
        forall|m: int|
            0 <= m < forest_order(bones, list, d).len() ==> {
                let e = #[trigger] forest_order(bones, list, d)[m];
                &&& e.0 < bones.len()
                &&& e.1 >= d
                &&& e.1 == d ==> list.contains(e.0)
                &&& e.1 > d ==> parent_index(bones, e.0 as int) is Some
                &&& ids_distinct(bones) ==> (ancestor(bones, e.0 as int, (e.1 - d) as nat) matches Some(
                    a,
                ) && list_has(list, a))
            },
    decreases bones.len() - d, list.len(),
{
    if list.len() > 0 {
        let last = list.last();
        assert(list[list.len() - 1] == last);
        lemma_forest_facts(bones, list.drop_last(), d);
        lemma_subtree_facts(bones, last, d);
        let a = forest_order(bones, list.drop_last(), d);
        let b = subtree_order(bones, last, d);
        let f = a + b;
        assert(forest_order(bones, list, d) == f);
        assert forall|m: int| 0 <= m < f.len() implies {
            let e = #[trigger] f[m];
            &&& e.0 < bones.len()
            &&& e.1 >= d
            &&& e.1 == d ==> list.contains(e.0)
            &&& e.1 > d ==> parent_index(bones, e.0 as int) is Some
            &&& ids_distinct(bones) ==> (ancestor(bones, e.0 as int, (e.1 - d) as nat) matches Some(x)
                && list_has(list, x))
        } by {
            if m < a.len() {
                let e = a[m];
                assert(f[m] == e);
                if e.1 == d {
                    let j = choose|j: int| 0 <= j < list.drop_last().len() && list.drop_last()[j] == e.0;
                    assert(list[j] == e.0);
                }
                if ids_distinct(bones) {
                    let x = ancestor(bones, e.0 as int, (e.1 - d) as nat)->Some_0;
                    let j = choose|j: int| #![trigger list.drop_last()[j]] 0 <= j < list.drop_last().len() && list.drop_last()[j] as int == x;
                    assert(list[j] as int == x);
                }
            } else {
                assert(f[m] == b[m - a.len()]);
            }
        }
    }
}

/// Appending `k - 1` to a list of distinct indices below `k - 1` keeps
/// them distinct and below `k`.
proof fn lemma_push_below(x: Seq<usize>, k: int)
    requires
        1 <= k <= usize::MAX + 1,
        x.no_duplicates(),
        forall|m: int| 0 <= m < x.len() ==> x[m] < k - 1,
    ensures
        (x + seq![(k - 1) as usize]).no_duplicates(),
        forall|m: int|
            0 <= m < (x + seq![(k - 1) as usize]).len() ==> #[trigger] (x + seq![(k - 1) as usize])[m] < k,
{
    let y = x + seq![(k - 1) as usize];
    assert(y[x.len() as int] == k - 1);
    assert forall|p: int, q: int| 0 <= p < y.len() && 0 <= q < y.len() && p != q implies y[p] != y[q] by {
        if p < x.len() && q < x.len() {
            assert(y[p] == x[p] && y[q] == x[q]);
        } else if p < x.len() {
            assert(y[p] == x[p]);
        } else if q < x.len() {
            assert(y[q] == x[q]);
        }
    }
    assert forall|m: int| 0 <= m < y.len() implies y[m] < k by {
        if m < x.len() {
            assert(y[m] == x[m]);
        }
    }
}

/// The indices of the roots among the first `k` bones are distinct and
/// below `k`.
proof fn lemma_roots_distinct<T>(bones: Seq<Bone<T>>, k: int)
    requires
        0 <= k <= bones.len(),
        bones.len() <= usize::MAX,
    ensures
        roots_upto(bones, k).no_duplicates(),
        forall|m: int| 0 <= m < roots_upto(bones, k).len() ==> roots_upto(bones, k)[m] < k,
    decreases k,
{
    if k > 0 {
        lemma_roots_distinct(bones, k - 1);
        let x = roots_upto(bones, k - 1);
        if is_root(bones[k - 1]) {
            lemma_push_below(x, k);
        } else {
            assert(roots_upto(bones, k) =~= x);
        }
    }
}

/// The indices of the children of `id` among the first `k` bones are
/// distinct and below `k`.
proof fn lemma_children_distinct<T>(bones: Seq<Bone<T>>, id: Seq<char>, k: int)
    requires
        0 <= k <= bones.len(),
        bones.len() <= usize::MAX,
    ensures
        children_upto(bones, id, k).no_duplicates(),
        forall|m: int| 0 <= m < children_upto(bones, id, k).len() ==> children_upto(bones, id, k)[m] < k,
    decreases k,
{
    if k > 0 {
        lemma_children_distinct(bones, id, k - 1);
        let x = children_upto(bones, id, k - 1);
        if has_parent(bones[k - 1], id) {
            lemma_push_below(x, k);
        } else {
            assert(children_upto(bones, id, k) =~= x);
        }
    }
}

/// The indices of the orphans among the first `k` bones are distinct, below
/// `k`, and name orphans.
proof fn lemma_orphans_distinct<T>(bones: Seq<Bone<T>>, k: int)
    requires
        0 <= k <= bones.len(),
        bones.len() <= usize::MAX,
    ensures
        orphans_upto(bones, k).no_duplicates(),
        forall|m: int|
            #![trigger orphans_upto(bones, k)[m]]
            0 <= m < orphans_upto(bones, k).len() ==> orphans_upto(bones, k)[m] < k && is_orphan(
                bones,
                orphans_upto(bones, k)[m] as int,
            ),
    decreases k,
{
    if k > 0 {
        lemma_orphans_distinct(bones, k - 1);
        let x = orphans_upto(bones, k - 1);
        if is_orphan(bones, k - 1) {
            lemma_push_below(x, k);
            let y = orphans_upto(bones, k);
            assert(y == x + seq![(k - 1) as usize]);
            assert forall|m: int| 0 <= m < y.len() implies y[m] < k && is_orphan(bones, y[m] as int) by {
                if m < x.len() {
                    assert(y[m] == x[m]);
                }
            }
        } else {
            assert(orphans_upto(bones, k) =~= x);
        }
    }
}

/// With distinct ids, a subtree listing has no entry twice.
proof fn lemma_subtree_no_dup<T>(bones: Seq<Bone<T>>, i: usize, d: nat)
    requires
        i < bones.len(),
        d < bones.len(),
        bones.len() <= usize::MAX,
        ids_distinct(bones),
    ensures
        subtree_order(bones, i, d).no_duplicates(),
    decreases bones.len() - d, 0int,
{
    let s = subtree_order(bones, i, d);
    if d + 1 < bones.len() {
        let id = bones[i as int].id@;
        let ch = child_indices(bones, id);
        lemma_children_distinct(bones, id, bones.len() as int);
        lemma_forest_no_dup(bones, ch, d + 1);
        lemma_forest_facts(bones, ch, d + 1);
        let f = forest_order(bones, ch, d + 1);
        assert(s == seq![(i, d as usize)] + f);
        assert forall|p: int, q: int| 0 <= p < s.len() && 0 <= q < s.len() && p != q implies s[p]
            != s[q] by {
            if p > 0 && q > 0 {
                assert(s[p] == f[p - 1] && s[q] == f[q - 1]);
            } else if p > 0 {
                assert(s[p] == f[p - 1]);
            } else {
                assert(s[q] == f[q - 1]);
            }
        }
    } else {
        assert(s.len() == 1);
    }
}

/// With distinct ids, a forest listing over a list without repeats has no
/// entry twice.
proof fn lemma_forest_no_dup<T>(bones: Seq<Bone<T>>, list: Seq<usize>, d: nat)
    requires
        bones.len() <= usize::MAX,
        d < bones.len() || list.len() == 0,
        forall|m: int| #![trigger list[m]] 0 <= m < list.len() ==> list[m] < bones.len(),
        list.no_duplicates(),
        ids_distinct(bones),
    ensures
        forest_order(bones, list, d).no_duplicates(),
    decreases bones.len() - d, list.len(),
{
    if list.len() > 0 {
        let last = list.last();
        let rest = list.drop_last();
        assert(list[list.len() - 1] == last);
        assert forall|p: int, q: int| 0 <= p < rest.len() && 0 <= q < rest.len() && p != q implies rest[p]
            != rest[q] by {
            assert(rest[p] == list[p] && rest[q] == list[q]);
        }
        lemma_forest_no_dup(bones, rest, d);
        lemma_subtree_no_dup(bones, last, d);
        lemma_forest_facts(bones, rest, d);
        lemma_subtree_facts(bones, last, d);
        let a = forest_order(bones, rest, d);
        let b = subtree_order(bones, last, d);
        let f = a + b;
        assert(forest_order(bones, list, d) == f);
        assert forall|p: int, q: int| 0 <= p < f.len() && 0 <= q < f.len() && p != q implies f[p]
            != f[q] by {
            if p < a.len() && q < a.len() {
                assert(f[p] == a[p] && f[q] == a[q]);
            } else if p >= a.len() && q >= a.len() {
                assert(f[p] == b[p - a.len()] && f[q] == b[q - a.len()]);
            } else {
                let (pa, qb) = if p < a.len() { (p, q - a.len()) } else { (q, p - a.len()) };
                assert(f[pa] == a[pa]);
                assert(f[qb + a.len()] == b[qb]);
                let ea = a[pa];
                let eb = b[qb];
                if ea == eb {
                    let x = ancestor(bones, ea.0 as int, (ea.1 - d) as nat)->Some_0;
                    let j = choose|j: int| #![trigger rest[j]] 0 <= j < rest.len() && rest[j] as int == x;
                    assert(list[j] == last);
                    assert(list[list.len() - 1] == last);
                    assert(false);
                }
            }
        }
    }
}

/// The entries `unlisted_upto(s, k)` adds: bones below `k` that `s` does
/// not list, each once and at depth 0, and every such bone.
proof fn lemma_unlisted(s: Seq<(usize, usize)>, k: int)
    requires
        0 <= k <= usize::MAX + 1,
    ensures
        forall|m: int|
            0 <= m < unlisted_upto(s, k).len() ==> {
                let e = #[trigger] unlisted_upto(s, k)[m];
                &&& e.0 < k
                &&& e.1 == 0
                &&& !lists_bone(s, e.0 as int)
            },
        forall|p: int, q: int|
            0 <= p < unlisted_upto(s, k).len() && 0 <= q < unlisted_upto(s, k).len() && p != q
                ==> (#[trigger] unlisted_upto(s, k)[p]).0 != (#[trigger] unlisted_upto(s, k)[q]).0,
        forall|b: int| 0 <= b < k && !lists_bone(s, b) ==> lists_bone(unlisted_upto(s, k), b),
    decreases k,
{
    if k > 0 {
        lemma_unlisted(s, k - 1);
        let x = unlisted_upto(s, k - 1);
        let y = unlisted_upto(s, k);
        if lists_bone(s, k - 1) {
            assert(y =~= x);
        } else {
            let one = seq![((k - 1) as usize, 0usize)];
            assert(y == x + one);
            assert(y[x.len() as int] == ((k - 1) as usize, 0usize));
            assert forall|m: int| 0 <= m < y.len() implies {
                let e = #[trigger] y[m];
                &&& e.0 < k
                &&& e.1 == 0
                &&& !lists_bone(s, e.0 as int)
            } by {
                if m < x.len() {
                    assert(y[m] == x[m]);
                }
            }
            assert forall|p: int, q: int| 0 <= p < y.len() && 0 <= q < y.len() && p != q implies (
            #[trigger] y[p]).0 != (#[trigger] y[q]).0 by {
                if p < x.len() && q < x.len() {
                    assert(y[p] == x[p] && y[q] == x[q]);
                } else if p < x.len() {
                    assert(y[p] == x[p]);
                } else if q < x.len() {
                    assert(y[q] == x[q]);
                }
            }
            assert forall|b: int| 0 <= b < k && !lists_bone(s, b) implies lists_bone(y, b) by {
                if b < k - 1 {
                    assert(lists_bone(x, b));
                    let m = choose|m: int| #![trigger x[m]] 0 <= m < x.len() && x[m].0 == b;
                    assert(y[m] == x[m]);
                } else {
                    assert(y[x.len() as int].0 == b);
                }
            }
        }
    }
}

/// With distinct ids, every entry of the depth-first order from the roots
/// and from the orphans climbs, in as many steps as its depth, to a bone
/// without a parent index: a root for the first part, an orphan for the
/// second.
proof fn lemma_reachable_tops<T>(bones: Seq<Bone<T>>)
    requires
        bones.len() <= usize::MAX,
        ids_distinct(bones),
    ensures
        forall|m: int|
            0 <= m < reachable_order(bones).len() ==> {
                let e = #[trigger] reachable_order(bones)[m];
                &&& e.0 < bones.len()
                &&& ancestor(bones, e.0 as int, e.1 as nat) matches Some(t) && 0 <= t < bones.len()
                    && parent_index(bones, t) is None && ((m < depth_first_spec(bones).len()) == (
                bones[t].parent is None))
            },
        depth_first_spec(bones).no_duplicates(),
        forest_order(bones, orphan_indices(bones), 0).no_duplicates(),
{
    let n = bones.len();
    let roots = root_indices(bones);
    let orphans = orphan_indices(bones);
    lemma_roots_distinct(bones, n as int);
    lemma_roots_upto(bones, n as int);
    lemma_orphans_distinct(bones, n as int);
    if roots.len() > 0 {
        assert(roots[0] < n);
    }
    if orphans.len() > 0 {
        assert(orphans[0] < n);
    }
    lemma_forest_facts(bones, roots, 0);
    lemma_forest_facts(bones, orphans, 0);
    lemma_forest_no_dup(bones, roots, 0);
    lemma_forest_no_dup(bones, orphans, 0);
    let r = depth_first_spec(bones);
    let o = forest_order(bones, orphans, 0);
    let l = reachable_order(bones);
    assert forall|m: int| 0 <= m < l.len() implies {
        let e = #[trigger] l[m];
        &&& e.0 < bones.len()
        &&& ancestor(bones, e.0 as int, e.1 as nat) matches Some(t) && 0 <= t < bones.len() && parent_index(
            bones,
            t,
        ) is None && ((m < r.len()) == (bones[t].parent is None))
    } by {
        if m < r.len() {
            let e = r[m];
            assert(l[m] == e);
            assert((e.1 - 0) as nat == e.1 as nat);
            let t = ancestor(bones, e.0 as int, e.1 as nat)->Some_0;
            let j = choose|j: int| #![trigger roots[j]] 0 <= j < roots.len() && roots[j] as int == t;
            assert(is_root(bones[roots[j] as int]));
        } else {
            let e = o[m - r.len()];
            assert(l[m] == e);
            assert((e.1 - 0) as nat == e.1 as nat);
            let t = ancestor(bones, e.0 as int, e.1 as nat)->Some_0;
            let j = choose|j: int| #![trigger orphans[j]] 0 <= j < orphans.len() && orphans[j] as int == t;
            assert(is_orphan(bones, orphans[j] as int));
        }
    }
}

/// With distinct ids, the evaluation order lists every bone exactly once.
pub proof fn law_evaluation_order_lists_each_bone_once<T>(bones: Seq<Bone<T>>)
    requires
        bones.len() <= usize::MAX,
        ids_distinct(bones),
    ensures
        forall|b: int| 0 <= b < bones.len() ==> lists_bone(evaluation_order(bones), b),
        forall|p: int, q: int|
            0 <= p < evaluation_order(bones).len() && 0 <= q < evaluation_order(bones).len() && p != q
                ==> (#[trigger] evaluation_order(bones)[p]).0 != (#[trigger] evaluation_order(bones)[q]).0,
{
    let n = bones.len();
    let r = depth_first_spec(bones);
    let l = reachable_order(bones);
    let u = unlisted_upto(l, n as int);
    let eo = evaluation_order(bones);
    assert(eo == l + u);
    lemma_reachable_tops(bones);
    lemma_unlisted(l, n as int);
    assert forall|b: int| 0 <= b < n implies lists_bone(eo, b) by {
        if lists_bone(l, b) {
            let m = choose|m: int| #![trigger l[m]] 0 <= m < l.len() && l[m].0 == b;
            assert(eo[m] == l[m]);
        } else {
            let m = choose|m: int| #![trigger u[m]] 0 <= m < u.len() && u[m].0 == b;
            assert(eo[l.len() + m] == u[m]);
        }
    }
    assert forall|p: int, q: int| 0 <= p < eo.len() && 0 <= q < eo.len() && p != q implies (
    #[trigger] eo[p]).0 != (#[trigger] eo[q]).0 by {
        if p < l.len() && q < l.len() {
            let ep = l[p];
            let eq = l[q];
            assert(eo[p] == ep && eo[q] == eq);
            if ep.0 == eq.0 {
                let tp = ancestor(bones, ep.0 as int, ep.1 as nat)->Some_0;
                let tq = ancestor(bones, eq.0 as int, eq.1 as nat)->Some_0;
                lemma_same_top(bones, ep.0 as int, ep.1 as nat, eq.1 as nat, tp, tq);
                assert(ep == eq);
                if p < r.len() && q < r.len() {
                    assert(r[p] == ep && r[q] == eq);
                } else if p >= r.len() && q >= r.len() {
                    let o = forest_order(bones, orphan_indices(bones), 0);
                    assert(o[p - r.len()] == ep && o[q - r.len()] == eq);
                }
            }
        } else if p >= l.len() && q >= l.len() {
            assert(eo[p] == u[p - l.len()] && eo[q] == u[q - l.len()]);
        } else {
            let (a, c) = if p < l.len() { (p, q) } else { (q, p) };
            assert(eo[a] == l[a]);
            assert(eo[c] == u[c - l.len()]);
            if l[a].0 == u[c - l.len()].0 {
                assert(lists_bone(l, l[a].0 as int));
            }
        }
    }
}

/// Bone `c` is a child of `id` among the first `k` bones when it names
/// `id` as its parent.
proof fn lemma_child_listed<T>(bones: Seq<Bone<T>>, id: Seq<char>, c: int, k: int)
    requires
        0 <= c < k <= bones.len(),
        bones.len() <= usize::MAX,
        has_parent(bones[c], id),
    ensures
        list_has(children_upto(bones, id, k), c),
    decreases k,
{
    let x = children_upto(bones, id, k - 1);
    if c < k - 1 {
        lemma_child_listed(bones, id, c, k - 1);
        let j = choose|j: int| #![trigger x[j]] 0 <= j < x.len() && x[j] as int == c;
        assert(children_upto(bones, id, k)[j] == x[j]);
    } else {
        assert(children_upto(bones, id, k) == x + seq![(k - 1) as usize]);
        assert(children_upto(bones, id, k)[x.len() as int] == (k - 1) as usize);
    }
}

/// A forest listing at depth `d` lists each bone of its list at depth `d`.
proof fn lemma_forest_has_top<T>(bones: Seq<Bone<T>>, list: Seq<usize>, d: nat, t: int)
    requires
        d < bones.len(),
        bones.len() <= usize::MAX,
        list_has(list, t),
    ensures
        forest_order(bones, list, d).contains((t as usize, d as usize)),
    decreases list.len(),
{
    let rest = list.drop_last();
    let a = forest_order(bones, rest, d);
    let b = subtree_order(bones, list.last(), d);
    assert(forest_order(bones, list, d) == a + b);
    if list.last() as int == t {
        assert((a + b)[a.len() as int] == b[0]);
    } else {
        let j = choose|j: int| #![trigger list[j]] 0 <= j < list.len() && list[j] as int == t;
        assert(j < list.len() - 1);
        assert(rest[j] == list[j]);
        lemma_forest_has_top(bones, rest, d, t);
        let m = choose|m: int| 0 <= m < a.len() && a[m] == (t as usize, d as usize);
        assert((a + b)[m] == a[m]);
    }
}

/// A subtree listing that lists bone `p` at depth `e` lists each child of
/// `p` at depth `e + 1`, below the depth bound.
proof fn lemma_subtree_closed<T>(bones: Seq<Bone<T>>, i: usize, d: nat, p: int, e: int, c: int)
    requires
        i < bones.len(),
        d < bones.len(),
        bones.len() <= usize::MAX,
        subtree_order(bones, i, d).contains((p as usize, e as usize)),
        0 <= p < bones.len(),
        0 <= e,
        e + 1 < bones.len(),
        0 <= c < bones.len(),
        has_parent(bones[c], bones[p].id@),
    ensures
        subtree_order(bones, i, d).contains((c as usize, (e + 1) as usize)),
    decreases bones.len() - d, 0int,
{
    let s = subtree_order(bones, i, d);
    lemma_subtree_facts(bones, i, d);
    let m = choose|m: int| 0 <= m < s.len() && s[m] == (p as usize, e as usize);
    if d + 1 < bones.len() {
        let id = bones[i as int].id@;
        let ch = child_indices(bones, id);
        lemma_children_upto(bones, id, bones.len() as int);
        let f = forest_order(bones, ch, d + 1);
        assert(s == seq![(i, d as usize)] + f);
        if m == 0 {
            assert(p == i && e == d);
            lemma_child_listed(bones, id, c, bones.len() as int);
            lemma_forest_has_top(bones, ch, d + 1, c);
            let q = choose|q: int| 0 <= q < f.len() && f[q] == (c as usize, (d + 1) as usize);
            assert(s[q + 1] == f[q]);
        } else {
            assert(s[m] == f[m - 1]);
            assert(f.contains((p as usize, e as usize)));
            lemma_forest_closed(bones, ch, d + 1, p, e, c);
            let q = choose|q: int| 0 <= q < f.len() && f[q] == (c as usize, (e + 1) as usize);
            assert(s[q + 1] == f[q]);
        }
    } else {
        assert(s.len() == 1);
        assert(e == d);
        assert(false);
    }
}

/// A forest listing that lists bone `p` at depth `e` lists each child of
/// `p` at depth `e + 1`, below the depth bound.
proof fn lemma_forest_closed<T>(bones: Seq<Bone<T>>, list: Seq<usize>, d: nat, p: int, e: int, c: int)
    requires
        d < bones.len() || list.len() == 0,
        bones.len() <= usize::MAX,
        forall|m: int| #![trigger list[m]] 0 <= m < list.len() ==> list[m] < bones.len(),
        forest_order(bones, list, d).contains((p as usize, e as usize)),
        0 <= p < bones.len(),
        0 <= e,
        e + 1 < bones.len(),
        0 <= c < bones.len(),
        has_parent(bones[c], bones[p].id@),
    ensures
        forest_order(bones, list, d).contains((c as usize, (e + 1) as usize)),
    decreases bones.len() - d, list.len(),
{
    let f = forest_order(bones, list, d);
    let m = choose|m: int| 0 <= m < f.len() && f[m] == (p as usize, e as usize);
    let rest = list.drop_last();
    let last = list.last();
    assert(list[list.len() - 1] == last);
    let a = forest_order(bones, rest, d);
    let b = subtree_order(bones, last, d);
    assert(f == a + b);
    if m < a.len() {
        assert(a[m] == f[m]);
        lemma_forest_closed(bones, rest, d, p, e, c);
        let q = choose|q: int| 0 <= q < a.len() && a[q] == (c as usize, (e + 1) as usize);
        assert(f[q] == a[q]);
    } else {
        assert(b[m - a.len()] == f[m]);
        lemma_subtree_closed(bones, last, d, p, e, c);
        let q = choose|q: int| 0 <= q < b.len() && b[q] == (c as usize, (e + 1) as usize);
        assert(f[a.len() + q] == b[q]);
    }
}

/// A bone whose chain climbs in `k` steps, fewer than the bone count, to a
/// bone of `list` without a parent index is listed at depth `k` in the
/// forest listing over `list`.
proof fn lemma_forest_covers<T>(bones: Seq<Bone<T>>, list: Seq<usize>, b: int, k: nat, t: int)
    requires
        bones.len() <= usize::MAX,
        forall|m: int| #![trigger list[m]] 0 <= m < list.len() ==> list[m] < bones.len(),
        0 <= b < bones.len(),
        k < bones.len(),
        ancestor(bones, b, k) == Some(t),
        list_has(list, t),
    ensures
        forest_order(bones, list, 0).contains((b as usize, k as usize)),
    decreases k,
{
    if k == 0 {
        assert(ancestor(bones, b, 0) == Some(b));
        lemma_forest_has_top(bones, list, 0, t);
    } else {
        lemma_ancestor_add(bones, b, 1, (k - 1) as nat);
        assert(1 + (k - 1) as nat == k);
        assert(ancestor(bones, b, 0) == Some(b));
        assert(ancestor(bones, b, 1) == parent_index(bones, b));
        let p = parent_index(bones, b)->Some_0;
        let q = bones[b].parent->Some_0;
        lemma_find_bone(bones, q@);
        assert(has_parent(bones[b], bones[p].id@));
        lemma_forest_covers(bones, list, p, (k - 1) as nat, t);
        assert(((k - 1) as nat) as usize == (k - 1) as usize);
        let j = choose|j: int| #![trigger list[j]] 0 <= j < list.len() && list[j] as int == t;
        assert(list[j] < bones.len());
        lemma_forest_closed(bones, list, 0, p, (k - 1) as int, b);
    }
}

/// `last_step_before` names an earlier step with the id, and finds one
/// whenever there is one.
proof fn lemma_last_step_before<U>(bones: Seq<Bone<U>>, order: Seq<(usize, usize)>, id: Seq<char>, k: int)
    ensures
        last_step_before(bones, order, id, k) matches Some(j) ==> 0 <= j < k
            && bones[order[j].0 as int].id@ == id,
        id_listed_before(bones, order, id, k) ==> last_step_before(bones, order, id, k) is Some,
    decreases k,
{
    if k > 0 {
        lemma_last_step_before(bones, order, id, k - 1);
        if id_listed_before(bones, order, id, k) && bones[order[k - 1].0 as int].id@ != id {
            let j = choose|j: int| #![trigger order[j]] 0 <= j < k && bones[order[j].0 as int].id@ == id;
            assert(j < k - 1);
            assert(id_listed_before(bones, order, id, k - 1));
        }
    }
}

/// In the evaluation order, an entry below the top level comes after an
/// entry for the bone its parent names.
proof fn lemma_evaluation_parents_listed<U>(bones: Seq<Bone<U>>)
    requires
        bones.len() <= usize::MAX,
    ensures
        forall|k: int|
            0 <= k < evaluation_order(bones).len() && (#[trigger] evaluation_order(bones)[k]).1 > 0 ==> {
                &&& evaluation_order(bones)[k].0 < bones.len()
                &&& parent_index(bones, evaluation_order(bones)[k].0 as int) is Some
                &&& id_listed_before(
                    bones,
                    evaluation_order(bones),
                    parent_of(bones[evaluation_order(bones)[k].0 as int]),
                    k,
                )
            },
{
    let n = bones.len();
    let r = depth_first_spec(bones);
    let orphans = orphan_indices(bones);
    let o = forest_order(bones, orphans, 0);
    let l = reachable_order(bones);
    let u = unlisted_upto(l, n as int);
    let eo = evaluation_order(bones);
    assert(eo == l + u);
    assert(l == r + o);
    law_depth_first_parent_listed_first(bones);
    lemma_orphans_distinct(bones, n as int);
    lemma_roots_distinct(bones, n as int);
    lemma_roots_upto(bones, n as int);
    if orphans.len() > 0 {
        assert(orphans[0] < n);
    }
    let roots = root_indices(bones);
    if roots.len() > 0 {
        assert(roots[0] < n);
    }
    lemma_forest_facts(bones, roots, 0);
    lemma_forest_facts(bones, orphans, 0);
    let top = |b: Bone<U>| b.parent matches Some(p) && find_bone(bones, p@) is None;
    assert forall|m: int| #![trigger orphans[m]] 0 <= m < orphans.len() implies orphans[m] < n && top(
        bones[orphans[m] as int],
    ) by {
        assert(is_orphan(bones, orphans[m] as int));
    }
    lemma_forest_parents_first(bones, orphans, 0, top);
    lemma_unlisted(l, n as int);
    assert forall|k: int| 0 <= k < eo.len() && (#[trigger] eo[k]).1 > 0 implies {
        &&& eo[k].0 < bones.len()
        &&& parent_index(bones, eo[k].0 as int) is Some
        &&& id_listed_before(bones, eo, parent_of(bones[eo[k].0 as int]), k)
    } by {
        if k < r.len() {
            assert(eo[k] == r[k]);
            let pid = parent_of(bones[r[k].0 as int]);
            assert(id_listed_before(bones, r, pid, k));
            let j = choose|j: int| #![trigger r[j]] 0 <= j < k && bones[r[j].0 as int].id@ == pid;
            assert(eo[j] == r[j]);
        } else if k < l.len() {
            let m = k - r.len();
            assert(eo[k] == o[m]);
            let e = o[m];
            assert(e.1 > 0);
            assert(!top(bones[e.0 as int]));
            let pid = parent_of(bones[e.0 as int]);
            assert(id_listed_before(bones, o, pid, m));
            let j = choose|j: int| #![trigger o[j]] 0 <= j < m && bones[o[j].0 as int].id@ == pid;
            assert(eo[r.len() + j] == o[j]);
        } else {
            assert(eo[k] == u[k - l.len()]);
        }
    }
}

/// In the world-transform plan, a step that takes its parent matrix from an
/// earlier step takes it from one for a bone with the id its parent names,
/// and every step below the top level does so: each parent matrix is ready
/// before a child needs it.
pub proof fn law_world_plan_parents_come_first<U>(bones: Seq<Bone<U>>)
    requires
        bones.len() <= usize::MAX,
    ensures
        forall|k: int|
            0 <= k < evaluation_order(bones).len() ==> match #[trigger] parent_step_spec(
                bones,
                evaluation_order(bones),
                k,
            ) {
                Some(j) => {
                    &&& 0 <= j < k
                    &&& bones[evaluation_order(bones)[j].0 as int].id@ == parent_of(
                        bones[evaluation_order(bones)[k].0 as int],
                    )
                },
                None => evaluation_order(bones)[k].1 == 0,
            },
{
    let eo = evaluation_order(bones);
    lemma_evaluation_parents_listed(bones);
    assert forall|k: int| 0 <= k < eo.len() implies match #[trigger] parent_step_spec(bones, eo, k) {
        Some(j) => {
            &&& 0 <= j < k
            &&& bones[eo[j].0 as int].id@ == parent_of(bones[eo[k].0 as int])
        },
        None => eo[k].1 == 0,
    } by {
        let b = bones[eo[k].0 as int];
        match b.parent {
            None => {
                if eo[k].1 > 0 {
                    assert(parent_index(bones, eo[k].0 as int) is Some);
                }
            },
            Some(p) => {
                lemma_last_step_before(bones, eo, p@, k);
            },
        }
    }
}

/// Some step of `plan` is for bone `b`.
pub open spec fn plan_has_bone(plan: Seq<WorldStep>, b: int) -> bool {
    exists|k: int| 0 <= k < plan.len() && #[trigger] plan[k].bone == b
}

/// With distinct ids, the world-transform plan (whose steps follow the
/// evaluation order) has exactly one step for each bone.
pub proof fn law_world_plan_one_step_per_bone<U>(bones: Seq<Bone<U>>, plan: Seq<WorldStep>)
    requires
        bones.len() <= usize::MAX,
        ids_distinct(bones),
        plan.len() == evaluation_order(bones).len(),
        forall|k: int| 0 <= k < plan.len() ==> #[trigger] plan[k].bone == evaluation_order(bones)[k].0,
    ensures
        forall|b: int| 0 <= b < bones.len() ==> #[trigger] plan_has_bone(plan, b),
        forall|p: int, q: int|
            0 <= p < plan.len() && 0 <= q < plan.len() && p != q ==> (#[trigger] plan[p]).bone != (
            #[trigger] plan[q]).bone,
{
    let eo = evaluation_order(bones);
    law_evaluation_order_lists_each_bone_once(bones);
    assert forall|b: int| 0 <= b < bones.len() implies #[trigger] plan_has_bone(plan, b) by {
        assert(lists_bone(eo, b));
        let k = choose|k: int| #![trigger eo[k]] 0 <= k < eo.len() && eo[k].0 == b;
        assert(plan[k].bone == eo[k].0);
    }
    assert forall|p: int, q: int| 0 <= p < plan.len() && 0 <= q < plan.len() && p != q implies (
    #[trigger] plan[p]).bone != (#[trigger] plan[q]).bone by {
        assert(plan[p].bone == eo[p].0 && plan[q].bone == eo[q].0);
        assert(eo[p].0 != eo[q].0);
    }
}

/// Bone `b`'s chain of parents climbs, in fewer steps than there are bones,
/// to a bone whose parent is missing or names no bone.
pub open spec fn chain_ends<T>(bones: Seq<Bone<T>>, b: int) -> bool {
    exists|k: nat|
        k < bones.len() && (#[trigger] ancestor(bones, b, k) matches Some(t) && parent_index(bones, t) is None)
}

/// No bone's chain of parents loops: every chain ends.
pub open spec fn chains_end<T>(bones: Seq<Bone<T>>) -> bool {
    forall|b: int| 0 <= b < bones.len() ==> #[trigger] chain_ends(bones, b)
}

/// Bone `b`'s chain of parents climbs, in fewer steps than there are bones,
/// to a root.
pub open spec fn chain_reaches_root<T>(bones: Seq<Bone<T>>, b: int) -> bool {
    exists|k: nat|
        k < bones.len() && (#[trigger] ancestor(bones, b, k) matches Some(t) && 0 <= t < bones.len()
            && is_root(bones[t]))
}

/// Every bone's chain of parents reaches a root.
pub open spec fn chains_reach_roots<T>(bones: Seq<Bone<T>>) -> bool {
    forall|b: int| 0 <= b < bones.len() ==> #[trigger] chain_reaches_root(bones, b)
}

/// With distinct ids and no loop of parents, the evaluation order is the
/// depth-first order from the roots followed by that from the bones whose
/// parent names no bone, and a bone's world matrix starts from the identity
/// exactly when its parent is missing or names no bone.
pub proof fn law_world_plan_identity_exactly_for_missing_parents<U>(bones: Seq<Bone<U>>)
    requires
        bones.len() <= usize::MAX,
        ids_distinct(bones),
        chains_end(bones),
    ensures
        evaluation_order(bones) == reachable_order(bones),
        forall|k: int|
            0 <= k < evaluation_order(bones).len() ==> ((#[trigger] parent_step_spec(
                bones,
                evaluation_order(bones),
                k,
            ) is None) <==> (bones[evaluation_order(bones)[k].0 as int].parent is None || find_bone(
                bones,
                parent_of(bones[evaluation_order(bones)[k].0 as int]),
            ) is None)),
{
    let n = bones.len();
    let l = reachable_order(bones);
    let u = unlisted_upto(l, n as int);
    let eo = evaluation_order(bones);
    let r = depth_first_spec(bones);
    let roots = root_indices(bones);
    let orphans = orphan_indices(bones);
    let o = forest_order(bones, orphans, 0);
    assert(eo == l + u);
    assert(l == r + o);
    lemma_unlisted(l, n as int);
    lemma_roots_distinct(bones, n as int);
    lemma_roots_upto(bones, n as int);
    lemma_orphans_distinct(bones, n as int);
    if roots.len() > 0 {
        assert(roots[0] < n);
    }
    if orphans.len() > 0 {
        assert(orphans[0] < n);
    }
    lemma_forest_facts(bones, roots, 0);
    lemma_forest_facts(bones, orphans, 0);
    assert forall|b: int| 0 <= b < n implies lists_bone(l, b) by {
        assert(chain_ends(bones, b));
        let k = choose|k: nat|
            k < bones.len() && (#[trigger] ancestor(bones, b, k) matches Some(t) && parent_index(bones, t) is None);
        let t = ancestor(bones, b, k)->Some_0;
        lemma_ancestor_valid(bones, b, k);
        match bones[t].parent {
            None => {
                lemma_root_listed(bones, t, n as int);
                lemma_forest_covers(bones, roots, b, k, t);
                let m = choose|m: int| 0 <= m < r.len() && r[m] == (b as usize, k as usize);
                assert(l[m] == r[m]);
            },
            Some(p) => {
                lemma_orphan_listed(bones, t, n as int);
                lemma_forest_covers(bones, orphans, b, k, t);
                let m = choose|m: int| 0 <= m < o.len() && o[m] == (b as usize, k as usize);
                assert(l[r.len() + m] == o[m]);
            },
        }
    }
    if u.len() > 0 {
        assert(!lists_bone(l, u[0].0 as int));
        assert(false);
    }
    assert(u =~= Seq::<(usize, usize)>::empty());
    assert(eo =~= l);
    law_world_plan_parents_come_first(bones);
    lemma_evaluation_parents_listed(bones);
    assert forall|k: int| 0 <= k < eo.len() implies ((#[trigger] parent_step_spec(bones, eo, k) is None) <==> (
    bones[eo[k].0 as int].parent is None || find_bone(bones, parent_of(bones[eo[k].0 as int])) is None)) by {
        let e = eo[k];
        let b = bones[e.0 as int];
        if e.1 > 0 {
            assert(parent_index(bones, e.0 as int) is Some);
        } else {
            if k < r.len() {
                assert(e == r[k]);
                let j = choose|j: int| 0 <= j < roots.len() && roots[j] == e.0;
                assert(is_root(bones[roots[j] as int]));
            } else {
                assert(e == o[k - r.len()]);
                let j = choose|j: int| 0 <= j < orphans.len() && orphans[j] == e.0;
                assert(is_orphan(bones, orphans[j] as int));
                let p = b.parent->Some_0;
                lemma_last_step_before(bones, eo, p@, k);
                lemma_find_bone(bones, p@);
                if last_step_before(bones, eo, p@, k) is Some {
                    let i = last_step_before(bones, eo, p@, k)->Some_0;
                    assert(bones[eo[i].0 as int].id@ == p@);
                    assert(eo[i].0 < n);
                }
            }
        }
    }
}

/// With distinct ids, the depth-first order lists no bone twice.
pub proof fn law_depth_first_lists_no_bone_twice<T>(bones: Seq<Bone<T>>)
    requires
        bones.len() <= usize::MAX,
        ids_distinct(bones),
    ensures
        forall|p: int, q: int|
            0 <= p < depth_first_spec(bones).len() && 0 <= q < depth_first_spec(bones).len() && p != q
                ==> (#[trigger] depth_first_spec(bones)[p]).0 != (#[trigger] depth_first_spec(bones)[q]).0,
{
    let n = bones.len();
    let r = depth_first_spec(bones);
    let l = reachable_order(bones);
    assert(l == r + forest_order(bones, orphan_indices(bones), 0));
    law_evaluation_order_lists_each_bone_once(bones);
    let eo = evaluation_order(bones);
    assert(eo == l + unlisted_upto(l, n as int));
    assert forall|p: int, q: int| 0 <= p < r.len() && 0 <= q < r.len() && p != q implies (
    #[trigger] r[p]).0 != (#[trigger] r[q]).0 by {
        assert(eo[p] == r[p] && eo[q] == r[q]);
    }
}

/// When every chain of parents reaches a root, the depth-first order lists
/// every bone; bone `b` at the depth of its chain.
pub proof fn law_depth_first_lists_every_bone<T>(bones: Seq<Bone<T>>)
    requires
        bones.len() <= usize::MAX,
        chains_reach_roots(bones),
    ensures
        forall|b: int| 0 <= b < bones.len() ==> lists_bone(depth_first_spec(bones), b),
{
    let n = bones.len();
    let r = depth_first_spec(bones);
    let roots = root_indices(bones);
    lemma_roots_upto(bones, n as int);
    lemma_roots_distinct(bones, n as int);
    assert forall|b: int| 0 <= b < n implies lists_bone(r, b) by {
        assert(chain_reaches_root(bones, b));
        let k = choose|k: nat|
            k < bones.len() && (#[trigger] ancestor(bones, b, k) matches Some(t) && 0 <= t < bones.len()
                && is_root(bones[t]));
        let t = ancestor(bones, b, k)->Some_0;
        lemma_root_listed(bones, t, n as int);
        lemma_forest_covers(bones, roots, b, k, t);
        let m = choose|m: int| 0 <= m < r.len() && r[m] == (b as usize, k as usize);
        assert(r[m].0 == b);
    }
}

/// With distinct ids and every chain of parents reaching a root, the
/// depth-first order lists every bone exactly once.
pub proof fn law_depth_first_lists_each_bone_once<T>(bones: Seq<Bone<T>>)
    requires
        bones.len() <= usize::MAX,
        ids_distinct(bones),
        chains_reach_roots(bones),
    ensures
        forall|b: int| 0 <= b < bones.len() ==> lists_bone(depth_first_spec(bones), b),
        forall|p: int, q: int|
            0 <= p < depth_first_spec(bones).len() && 0 <= q < depth_first_spec(bones).len() && p != q
                ==> (#[trigger] depth_first_spec(bones)[p]).0 != (#[trigger] depth_first_spec(bones)[q]).0,
{
    law_depth_first_lists_no_bone_twice(bones);
    law_depth_first_lists_every_bone(bones);
}

/// Every bone on a chain of parents is a valid bone.
proof fn lemma_ancestor_valid<T>(bones: Seq<Bone<T>>, b: int, k: nat)
    requires
        0 <= b < bones.len(),
    ensures
        ancestor(bones, b, k) matches Some(t) ==> 0 <= t < bones.len(),
    decreases k,
{
    if k > 0 {
        lemma_ancestor_valid(bones, b, (k - 1) as nat);
        match ancestor(bones, b, (k - 1) as nat) {
            Some(a) => {
                match bones[a].parent {
                    Some(p) => lemma_find_bone(bones, p@),
                    None => {},
                }
            },
            None => {},
        }
    }
}

/// A root is listed among the roots.
proof fn lemma_root_listed<T>(bones: Seq<Bone<T>>, t: int, k: int)
    requires
        0 <= t < k <= bones.len(),
        bones.len() <= usize::MAX,
        is_root(bones[t]),
    ensures
        list_has(roots_upto(bones, k), t),
    decreases k,
{
    let x = roots_upto(bones, k - 1);
    if t < k - 1 {
        lemma_root_listed(bones, t, k - 1);
        let j = choose|j: int| #![trigger x[j]] 0 <= j < x.len() && x[j] as int == t;
        assert(roots_upto(bones, k)[j] == x[j]);
    } else {
        assert(roots_upto(bones, k) == x + seq![(k - 1) as usize]);
        assert(roots_upto(bones, k)[x.len() as int] == (k - 1) as usize);
    }
}

/// An orphan is listed among the orphans.
proof fn lemma_orphan_listed<T>(bones: Seq<Bone<T>>, t: int, k: int)
    requires
        0 <= t < k <= bones.len(),
        bones.len() <= usize::MAX,
        is_orphan(bones, t),
    ensures
        list_has(orphans_upto(bones, k), t),
    decreases k,
{
    let x = orphans_upto(bones, k - 1);
    if t < k - 1 {
        lemma_orphan_listed(bones, t, k - 1);
        let j = choose|j: int| #![trigger x[j]] 0 <= j < x.len() && x[j] as int == t;
        assert(orphans_upto(bones, k)[j] == x[j]);
    } else {
        assert(orphans_upto(bones, k) == x + seq![(k - 1) as usize]);
        assert(orphans_upto(bones, k)[x.len() as int] == (k - 1) as usize);
    }
}

/// With distinct ids, an ancestor of an entry in a subtree listing is the
/// bone that many parent steps above the entry's bone.
proof fn lemma_subtree_listing_ancestor<T>(bones: Seq<Bone<T>>, i: usize, d: nat)
    requires
        i < bones.len(),
        d < bones.len(),
        bones.len() <= usize::MAX,
        ids_distinct(bones),
    ensures
        forall|p: int, q: int|
            #[trigger] listing_ancestor(subtree_order(bones, i, d), p, q) && q < subtree_order(bones, i, d).len()
                ==> ancestor(
                bones,
                subtree_order(bones, i, d)[q].0 as int,
                (subtree_order(bones, i, d)[q].1 - subtree_order(bones, i, d)[p].1) as nat,
            ) == Some(subtree_order(bones, i, d)[p].0 as int),
    decreases bones.len() - d, 0int,
{
    let s = subtree_order(bones, i, d);
    lemma_subtree_facts(bones, i, d);
    if d + 1 < bones.len() {
        let id = bones[i as int].id@;
        let ch = child_indices(bones, id);
        lemma_children_upto(bones, id, bones.len() as int);
        lemma_forest_listing_ancestor(bones, ch, d + 1);
        let f = forest_order(bones, ch, d + 1);
        assert(s == seq![(i, d as usize)] + f);
        assert forall|p: int, q: int| #[trigger] listing_ancestor(s, p, q) && q < s.len() implies ancestor(
            bones,
            s[q].0 as int,
            (s[q].1 - s[p].1) as nat,
        ) == Some(s[p].0 as int) by {
            if p == 0 {
                assert(s[q] == s[q]);
            } else {
                assert(s[p] == f[p - 1] && s[q] == f[q - 1]);
                assert forall|l: int| p - 1 < l < q - 1 implies (#[trigger] f[l]).1 > f[p - 1].1 by {
                    assert(s[l + 1] == f[l]);
                }
                assert(listing_ancestor(f, p - 1, q - 1));
            }
        }
    } else {
        assert forall|p: int, q: int| #[trigger] listing_ancestor(s, p, q) && q < s.len() implies ancestor(
            bones,
            s[q].0 as int,
            (s[q].1 - s[p].1) as nat,
        ) == Some(s[p].0 as int) by {
            assert(s.len() == 1);
        }
    }
}

/// With distinct ids, an ancestor of an entry in a forest listing is the
/// bone that many parent steps above the entry's bone.
proof fn lemma_forest_listing_ancestor<T>(bones: Seq<Bone<T>>, list: Seq<usize>, d: nat)
    requires
        bones.len() <= usize::MAX,
        d < bones.len() || list.len() == 0,
        forall|m: int| #![trigger list[m]] 0 <= m < list.len() ==> list[m] < bones.len(),
        ids_distinct(bones),
    ensures
        forall|p: int, q: int|
            #[trigger] listing_ancestor(forest_order(bones, list, d), p, q) && q < forest_order(bones, list, d).len()
                ==> ancestor(
                bones,
                forest_order(bones, list, d)[q].0 as int,
                (forest_order(bones, list, d)[q].1 - forest_order(bones, list, d)[p].1) as nat,
            ) == Some(forest_order(bones, list, d)[p].0 as int),
    decreases bones.len() - d, list.len(),
{
    let f = forest_order(bones, list, d);
    if list.len() > 0 {
        let rest = list.drop_last();
        let last = list.last();
        assert(list[list.len() - 1] == last);
        lemma_forest_listing_ancestor(bones, rest, d);
        lemma_subtree_listing_ancestor(bones, last, d);
        lemma_forest_facts(bones, rest, d);
        let a = forest_order(bones, rest, d);
        let b = subtree_order(bones, last, d);
        assert(f == a + b);
        assert forall|p: int, q: int| #[trigger] listing_ancestor(f, p, q) && q < f.len() implies ancestor(
            bones,
            f[q].0 as int,
            (f[q].1 - f[p].1) as nat,
        ) == Some(f[p].0 as int) by {
            if q < a.len() {
                assert(f[p] == a[p] && f[q] == a[q]);
                assert forall|l: int| p < l < q implies (#[trigger] a[l]).1 > a[p].1 by {
                    assert(f[l] == a[l]);
                }
                assert(listing_ancestor(a, p, q));
            } else if p >= a.len() {
                let (pp, qq) = (p - a.len(), q - a.len());
                assert(f[p] == b[pp] && f[q] == b[qq]);
                assert forall|l: int| pp < l < qq implies (#[trigger] b[l]).1 > b[pp].1 by {
                    assert(f[l + a.len()] == b[l]);
                }
                assert(listing_ancestor(b, pp, qq));
            } else {
                assert(f[p] == a[p]);
                assert(b[0] == (last, d as usize));
                assert(f[a.len() as int] == b[0]);
                assert(a[p].1 >= d);
            }
        }
    }
}

/// With distinct ids, the parent-chain names of bone `i` (as
/// `ancestor_chain` collects them) include the id of every bone one or more
/// steps up its chain, within `fuel` steps.
proof fn lemma_chain_names<T>(bones: Seq<Bone<T>>, i: int, s: nat, fuel: nat, a: int)
    requires
        ids_distinct(bones),
        0 <= i < bones.len(),
        1 <= s <= fuel,
        ancestor(bones, i, s) == Some(a),
    ensures
        names_view(ancestor_chain(bones, bones[i].id@, fuel)).contains(bones[a].id@),
    decreases s,
{
    lemma_find_own_id(bones, i);
    lemma_ancestor_add(bones, i, 1, (s - 1) as nat);
    assert(1 + (s - 1) as nat == s);
    assert(ancestor(bones, i, 0) == Some(i));
    assert(ancestor(bones, i, 1) == parent_index(bones, i));
    let x = parent_index(bones, i)->Some_0;
    let p = bones[i].parent->Some_0;
    lemma_find_bone(bones, p@);
    let rest = ancestor_chain(bones, p@, (fuel - 1) as nat);
    assert(ancestor_chain(bones, bones[i].id@, fuel) == seq![p] + rest);
    assert(names_view(seq![p] + rest) =~= seq![p@] + names_view(rest));
    if s == 1 {
        assert(ancestor(bones, x, 0) == Some(x));
        assert((seq![p@] + names_view(rest))[0] == p@);
    } else {
        lemma_chain_names(bones, x, (s - 1) as nat, (fuel - 1) as nat, a);
        let nv = names_view(rest);
        let j = choose|j: int| 0 <= j < nv.len() && nv[j] == bones[a].id@;
        assert((seq![p@] + nv)[j + 1] == nv[j]);
    }
}

/// A shown entry's row is among the shown rows.
proof fn lemma_shown_row_listed<T>(e: SkeletalAnimEditorPanel<T>, order: Seq<(usize, usize)>, m: int, k: int)
    requires
        0 <= m < k,
        e.is_shown(order, m),
    ensures
        e.shown_rows(order, k).contains(e.row_for(order[m])),
    decreases k,
{
    let prev = e.shown_rows(order, k - 1);
    if m < k - 1 {
        lemma_shown_row_listed(e, order, m, k - 1);
        let j = choose|j: int| 0 <= j < prev.len() && prev[j] == e.row_for(order[m]);
        assert(e.shown_rows(order, k)[j] == prev[j]);
    } else {
        assert(e.shown_rows(order, k) == prev + seq![e.row_for(order[m])]);
        assert(e.shown_rows(order, k)[prev.len() as int] == e.row_for(order[m]));
    }
}

/// With distinct ids, selecting a bone whose chain of parents reaches a root
/// makes it visible: the hierarchy rows then hold its row, marked selected.
/// (`after` is `before` as `select_bone(Some(id))` leaves it: same skeleton,
/// the bone selected, and the ids up its parent chain added to the expanded
/// folders.)
pub proof fn law_selected_bone_is_visible<T>(
    before: SkeletalAnimEditorPanel<T>,
    after: SkeletalAnimEditorPanel<T>,
    id: String,
    i: int,
)
    requires
        before.skeleton.bones.len() <= usize::MAX,
        ids_distinct(before.skeleton.bones@),
        0 <= i < before.skeleton.bones.len(),
        before.skeleton.bones@[i].id@ == id@,
        chain_reaches_root(before.skeleton.bones@, i),
        after.skeleton == before.skeleton,
        after.selected_bone == Some(id),
        after.expanded() == before.expanded() + names_view(
            ancestor_chain(before.skeleton.bones@, id@, before.skeleton.bones.len() as nat),
        ).to_set(),
    ensures
        exists|m: int|
            0 <= m < after.hierarchy_spec().len() && (#[trigger] after.hierarchy_spec()[m]).bone_id@ == id@
                && after.hierarchy_spec()[m].is_selected,
{
    let bones = before.skeleton.bones@;
    let n = bones.len();
    let order = depth_first_spec(bones);
    let roots = root_indices(bones);
    lemma_roots_upto(bones, n as int);
    let k = choose|k: nat|
        k < bones.len() && (#[trigger] ancestor(bones, i, k) matches Some(t) && 0 <= t < bones.len() && is_root(
            bones[t],
        ));
    let t = ancestor(bones, i, k)->Some_0;
    lemma_root_listed(bones, t, n as int);
    lemma_forest_covers(bones, roots, i, k, t);
    let m = choose|m: int| 0 <= m < order.len() && order[m] == (i as usize, k as usize);
    if roots.len() > 0 {
        assert(roots[0] < n);
    }
    lemma_forest_listing_ancestor(bones, roots, 0);
    lemma_forest_facts(bones, roots, 0);
    let chain = names_view(ancestor_chain(bones, id@, n as nat));
    assert forall|j: int| #[trigger] listing_ancestor(order, j, m) implies !after.is_closed_folder(order[j]) by {
        let steps = (order[m].1 - order[j].1) as nat;
        assert(ancestor(bones, order[m].0 as int, steps) == Some(order[j].0 as int));
        lemma_chain_names(bones, i, steps, n as nat, order[j].0 as int);
        assert(chain.contains(bones[order[j].0 as int].id@));
        assert(after.expanded().contains(bones[order[j].0 as int].id@));
    }
    assert(after.is_shown(order, m));
    lemma_shown_row_listed(after, order, m, order.len() as int);
    let rows = after.hierarchy_spec();
    let q = choose|q: int| 0 <= q < rows.len() && rows[q] == after.row_for(order[m]);
    assert(rows[q].bone_id@ == id@ && rows[q].is_selected);
}

} // verus!
