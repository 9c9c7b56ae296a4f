//! Reachability from the root stack, the spec-level model of a whole
//! collection cycle, and the laws the collector obeys.

use vstd::prelude::*;

use crate::count::full_pred;
use crate::count::lemma_count_if_none;
use crate::count::occupied_count;
use crate::obj::GcPtr;
use crate::obj::Object;
use crate::obj::edge;
use crate::obj::heap_closed;
use crate::obj::marked_at;
use crate::obj::obj_at;
use crate::obj::occupied;

verus! {

/// `i` is the slot of one of the root handles in `r`.
pub open spec fn is_root(r: Seq<GcPtr>, i: int) -> bool {
    exists|k: int| 0 <= k < r.len() && (#[trigger] r[k]).0 as int == i
}

/// Every root handle in `r` points at an occupied slot of `h`.
pub open spec fn roots_valid(h: Seq<Option<Object>>, r: Seq<GcPtr>) -> bool {
    forall|k: int| 0 <= k < r.len() ==> occupied(h, (#[trigger] r[k]).0 as int)
}

/// `p` is a chain of consecutive links in `h`.
pub open spec fn is_path(h: Seq<Option<Object>>, p: Seq<int>) -> bool {
    forall|k: int| 0 <= k < p.len() - 1 ==> edge(h, #[trigger] p[k], p[k + 1])
}

/// Some root of `r` reaches slot `i` through the links of `h`.
pub open spec fn reachable(h: Seq<Option<Object>>, r: Seq<GcPtr>, i: int) -> bool {
    exists|p: Seq<int>|
        #[trigger] is_path(h, p) && p.len() > 0 && is_root(r, p[0]) && p.last() == i
}

/// Every root slot is reachable.
pub proof fn lemma_root_reachable(h: Seq<Option<Object>>, r: Seq<GcPtr>, i: int)
    requires
        is_root(r, i),
    ensures
        reachable(h, r, i),
{
    let p = seq![i];
    assert(p.last() == i);
    assert(is_path(h, p));
}

/// Transitive reachability: reachability follows every link, so everything a
/// reachable object links to is itself reachable.
pub proof fn lemma_reachable_step(h: Seq<Option<Object>>, r: Seq<GcPtr>, a: int, b: int)
    requires
        reachable(h, r, a),
        edge(h, a, b),
    ensures
        reachable(h, r, b),
{
    let p = choose|p: Seq<int>|
        #[trigger] is_path(h, p) && p.len() > 0 && is_root(r, p[0]) && p.last() == a;
    let q = p.push(b);
    assert(q[p.len() as int - 1] == a);
    assert forall|k: int| 0 <= k < q.len() - 1 implies edge(h, #[trigger] q[k], q[k + 1]) by {
        if k < p.len() - 1 {
            assert(q[k] == p[k]);
            assert(q[k + 1] == p[k + 1]);
            assert(edge(h, p[k], p[k + 1]));
        } else {
            assert(q[k] == a);
            assert(q[k + 1] == b);
        }
    }
    assert(is_path(h, q) && q.len() > 0 && is_root(r, q[0]) && q.last() == b);
}

/// In a well-formed machine every reachable slot is occupied: nothing the
/// graph can reach has been reclaimed.
pub proof fn lemma_reachable_occupied(h: Seq<Option<Object>>, r: Seq<GcPtr>, i: int)
    requires
        heap_closed(h),
        roots_valid(h, r),
        reachable(h, r, i),
    ensures
        occupied(h, i),
{
    let p = choose|p: Seq<int>|
        #[trigger] is_path(h, p) && p.len() > 0 && is_root(r, p[0]) && p.last() == i;
    if p.len() == 1 {
        assert(p[0] == i);
        let k = choose|k: int| 0 <= k < r.len() && (#[trigger] r[k]).0 as int == i;
        assert(occupied(h, r[k].0 as int));
    } else {
        let n = p.len() as int;
        assert(edge(h, p[n - 2], p[n - 1]));
    }
}

/// Every slot along a rooted path is itself reachable.
pub proof fn lemma_path_all_reachable(
    h: Seq<Option<Object>>,
    r: Seq<GcPtr>,
    p: Seq<int>,
    k: int,
)
    requires
        is_path(h, p),
        p.len() > 0,
        is_root(r, p[0]),
        0 <= k < p.len(),
    ensures
        reachable(h, r, p[k]),
{
    let q = p.subrange(0, k + 1);
    assert forall|j: int| 0 <= j < q.len() - 1 implies edge(h, #[trigger] q[j], q[j + 1]) by {
        assert(q[j] == p[j]);
        assert(q[j + 1] == p[j + 1]);
        assert(edge(h, p[j], p[j + 1]));
    }
    assert(q[0] == p[0]);
    assert(q.last() == p[k]);
    assert(is_path(h, q) && q.len() > 0 && is_root(r, q[0]) && q.last() == p[k]);
}

/// Marking that starts at a marked slot and is closed under the links marks
/// the far end of every path: the mark phase misses nothing reachable.
pub proof fn lemma_path_marked(h0: Seq<Option<Object>>, hm: Seq<Option<Object>>, p: Seq<int>)
    requires
        is_path(h0, p),
        p.len() > 0,
        marked_at(hm, p[0]),
        forall|a: int, b: int|
            marked_at(hm, a) && #[trigger] edge(h0, a, b) ==> marked_at(hm, b),
    ensures
        marked_at(hm, p.last()),
    decreases p.len(),
{
    if p.len() > 1 {
        assert(edge(h0, p[0], p[1]));
        assert(marked_at(hm, p[1]));
        let q = p.subrange(1, p.len() as int);
        assert forall|k: int| 0 <= k < q.len() - 1 implies edge(h0, #[trigger] q[k], q[k + 1]) by {
            assert(q[k] == p[k + 1]);
            assert(q[k + 1] == p[k + 2]);
            assert(edge(h0, p[k + 1], p[k + 2]));
        }
        lemma_path_marked(h0, hm, q);
        assert(q.last() == p.last());
    }
}

/// The heap left behind by a collection cycle over heap `h` and roots `r`:
/// exactly the slots reachable from `r` survive, keeping their payloads, with
/// their mark bits cleared.
pub open spec fn collect(h: Seq<Option<Object>>, r: Seq<GcPtr>) -> Seq<Option<Object>> {
    Seq::new(
        h.len(),
        |i: int|
            if occupied(h, i) && reachable(h, r, i) {
                Some(Object { marked: false, value: obj_at(h, i).value })
            } else {
                None
            },
    )
}

/// Collection does not disturb reachability: a slot is reachable in the
/// surviving heap exactly when it was reachable before the cycle.
pub proof fn lemma_collect_preserves_reachable(h: Seq<Option<Object>>, r: Seq<GcPtr>, i: int)
    requires
        heap_closed(h),
        roots_valid(h, r),
    ensures
        reachable(collect(h, r), r, i) <==> reachable(h, r, i),
{
    let h2 = collect(h, r);
    if reachable(h, r, i) {
        let p = choose|p: Seq<int>|
            #[trigger] is_path(h, p) && p.len() > 0 && is_root(r, p[0]) && p.last() == i;
        assert forall|k: int| 0 <= k < p.len() - 1 implies edge(h2, #[trigger] p[k], p[k + 1]) by {
            assert(edge(h, p[k], p[k + 1]));
            lemma_path_all_reachable(h, r, p, k);
            assert(occupied(h2, p[k]));
            assert(obj_at(h2, p[k]).value == obj_at(h, p[k]).value);
        }
        assert(is_path(h2, p) && p.len() > 0 && is_root(r, p[0]) && p.last() == i);
    }
    if reachable(h2, r, i) {
        let p = choose|p: Seq<int>|
            #[trigger] is_path(h2, p) && p.len() > 0 && is_root(r, p[0]) && p.last() == i;
        assert forall|k: int| 0 <= k < p.len() - 1 implies edge(h, #[trigger] p[k], p[k + 1]) by {
            assert(edge(h2, p[k], p[k + 1]));
            assert(occupied(h, p[k]));
            assert(obj_at(h2, p[k]).value == obj_at(h, p[k]).value);
        }
        assert(is_path(h, p) && p.len() > 0 && is_root(r, p[0]) && p.last() == i);
    }
}

/// Transitive preservation: everything a surviving object links to survives
/// the same collection — nested structure keeps every leaf and every
/// intermediate object alive, however deep.
pub proof fn lemma_survivor_children_survive(
    h: Seq<Option<Object>>,
    r: Seq<GcPtr>,
    a: int,
    b: int,
)
    requires
        heap_closed(h),
        roots_valid(h, r),
        0 <= a < h.len(),
        collect(h, r)[a] is Some,
        edge(h, a, b),
    ensures
        collect(h, r)[b] is Some,
{
    lemma_reachable_step(h, r, a, b);
    lemma_reachable_occupied(h, r, b);
}

/// Repeated collection is idempotent: collecting again with the same roots
/// and no intervening mutation leaves the heap exactly as it was, so the
/// second cycle frees nothing.
pub proof fn lemma_collect_idempotent(h: Seq<Option<Object>>, r: Seq<GcPtr>)
    requires
        heap_closed(h),
        roots_valid(h, r),
    ensures
        collect(collect(h, r), r) == collect(h, r),
{
    let h2 = collect(h, r);
    let h3 = collect(h2, r);
    assert forall|i: int| 0 <= i < h2.len() implies h3[i] == h2[i] by {
        lemma_collect_preserves_reachable(h, r, i);
        if occupied(h2, i) && reachable(h2, r, i) {
            assert(occupied(h, i) && reachable(h, r, i));
            assert(obj_at(h2, i).value == obj_at(h, i).value);
        }
    }
    assert(h3 =~= h2);
}

/// Root preservation: a collection reclaims nothing that a root handle still
/// points at.
pub proof fn lemma_roots_survive(h: Seq<Option<Object>>, r: Seq<GcPtr>, k: int)
    requires
        heap_closed(h),
        roots_valid(h, r),
        0 <= k < r.len(),
    ensures
        collect(h, r)[r[k].0 as int] is Some,
{
    lemma_root_reachable(h, r, r[k].0 as int);
    assert(occupied(h, r[k].0 as int));
}

/// Unreachable reclamation at its extreme: a collection with no roots at all
/// empties the heap entirely.
pub proof fn lemma_collect_no_roots(h: Seq<Option<Object>>, r: Seq<GcPtr>)
    requires
        r.len() == 0,
    ensures
        forall|i: int| 0 <= i < h.len() ==> collect(h, r)[i] is None,
        occupied_count(collect(h, r)) == 0,
{
    let h2 = collect(h, r);
    assert forall|i: int| 0 <= i < h.len() implies h2[i] is None by {
        if reachable(h, r, i) {
            let p = choose|p: Seq<int>|
                #[trigger] is_path(h, p) && p.len() > 0 && is_root(r, p[0]) && p.last() == i;
            assert(is_root(r, p[0]));
            let k = choose|k: int| 0 <= k < r.len() && (#[trigger] r[k]).0 as int == p[0];
            assert(false);
        }
    }
    assert forall|j: int| 0 <= j < h2.len() as int implies !full_pred()(#[trigger] h2[j]) by {
        assert(h2[j] is None);
    }
    lemma_count_if_none(h2, full_pred(), h2.len() as int);
}

} // verus!
