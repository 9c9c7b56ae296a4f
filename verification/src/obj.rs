//! The object model: heap objects, their payloads, and the handle type, with
//! the spec-level view of a heap as a sequence of optional objects.

use vstd::prelude::*;

verus! {

/// A handle to a heap object: a stable index into the machine's arena.
#[derive(Clone, Copy, Debug, PartialEq, Eq, Structural)]
pub struct GcPtr(pub usize);

/// A two-child link; either child may independently be absent.
#[derive(Clone, Copy, Debug)]
pub struct Pair {
    pub head: Option<GcPtr>,
    pub tail: Option<GcPtr>,
}

/// The payload of a heap object: a scalar or a pair of links.
#[derive(Clone, Copy, Debug)]
pub enum ObjType {
    Int(i64),
    Pair(Pair),
}

/// A heap object: its payload plus the mark bit used by the collector,
/// cleared again at the end of every cycle the object survives.
#[derive(Clone, Copy, Debug)]
pub struct Object {
    pub marked: bool,
    pub value: ObjType,
}

/// Slot `i` of heap `h` currently holds an object.
pub open spec fn occupied(h: Seq<Option<Object>>, i: int) -> bool {
    0 <= i < h.len() && h[i] is Some
}

/// The object held in slot `i`.
pub open spec fn obj_at(h: Seq<Option<Object>>, i: int) -> Object {
    h[i]->0
}

/// Payload `v` links directly to slot `b` (through either child).
pub open spec fn links_to(v: ObjType, b: int) -> bool {
    match v {
        ObjType::Int(_) => false,
        ObjType::Pair(p) => {
            (match p.head {
                Some(g) => g.0 as int == b,
                None => false,
            }) || (match p.tail {
                Some(g) => g.0 as int == b,
                None => false,
            })
        },
    }
}

/// The object in slot `a` links directly to slot `b`.
pub open spec fn edge(h: Seq<Option<Object>>, a: int, b: int) -> bool {
    occupied(h, a) && links_to(obj_at(h, a).value, b)
}

/// Every link out of an occupied slot lands on an occupied slot: the heap
/// registry is a superset of everything the object graph can reach.
pub open spec fn heap_closed(h: Seq<Option<Object>>) -> bool {
    forall|a: int, b: int| #[trigger] edge(h, a, b) ==> occupied(h, b)
}

/// Slot `i` holds an object whose mark bit is set.
pub open spec fn marked_at(h: Seq<Option<Object>>, i: int) -> bool {
    occupied(h, i) && obj_at(h, i).marked
}

/// No object in the heap carries a mark: the resting state between cycles.
pub open spec fn all_unmarked(h: Seq<Option<Object>>) -> bool {
    forall|i: int| !(#[trigger] marked_at(h, i))
}

/// `h2` has the same length, occupancy and payloads as `h1`; only the mark
/// bits may differ.
pub open spec fn same_shape(h1: Seq<Option<Object>>, h2: Seq<Option<Object>>) -> bool {
    &&& h1.len() == h2.len()
    &&& forall|i: int|
        #![trigger occupied(h1, i)]
        #![trigger occupied(h2, i)]
        occupied(h1, i) <==> occupied(h2, i)
    &&& forall|i: int|
        #![trigger obj_at(h1, i)]
        #![trigger obj_at(h2, i)]
        occupied(h1, i) ==> obj_at(h2, i).value == obj_at(h1, i).value
}

/// Slot `i` holds a pair object.
pub open spec fn is_pair_at(h: Seq<Option<Object>>, i: int) -> bool {
    occupied(h, i) && obj_at(h, i).value is Pair
}

/// The pair payload of the object in slot `i`.
pub open spec fn pair_at(h: Seq<Option<Object>>, i: int) -> Pair {
    obj_at(h, i).value->Pair_0
}

/// Same shape is transitive.
pub proof fn lemma_same_shape_trans(
    h1: Seq<Option<Object>>,
    h2: Seq<Option<Object>>,
    h3: Seq<Option<Object>>,
)
    requires
        same_shape(h1, h2),
        same_shape(h2, h3),
    ensures
        same_shape(h1, h3),
{
    assert forall|i: int|
        #![trigger occupied(h1, i)]
        #![trigger occupied(h3, i)]
        occupied(h1, i) <==> occupied(h3, i) by {
        assert(occupied(h1, i) <==> occupied(h2, i));
        assert(occupied(h2, i) <==> occupied(h3, i));
    }
    assert forall|i: int| occupied(h1, i) implies (#[trigger] obj_at(h3, i)).value == obj_at(
        h1,
        i,
    ).value by {
        assert(occupied(h2, i));
        assert(obj_at(h2, i).value == obj_at(h1, i).value);
        assert(obj_at(h3, i).value == obj_at(h2, i).value);
    }
}

/// Rewriting only the mark bit of one occupied slot keeps the heap's shape.
pub proof fn lemma_mark_update_same_shape(h: Seq<Option<Object>>, i: int, m: bool)
    requires
        occupied(h, i),
    ensures
        same_shape(h, h.update(i, Some(Object { marked: m, value: obj_at(h, i).value }))),
{
    let h2 = h.update(i, Some(Object { marked: m, value: obj_at(h, i).value }));
    assert forall|j: int|
        #![trigger occupied(h, j)]
        #![trigger occupied(h2, j)]
        occupied(h, j) <==> occupied(h2, j) by {
        if 0 <= j < h.len() && j != i {
            assert(h2[j] == h[j]);
        }
    }
    assert forall|j: int| occupied(h, j) implies (#[trigger] obj_at(h2, j)).value == obj_at(
        h,
        j,
    ).value by {
        if j != i {
            assert(h2[j] == h[j]);
        }
    }
}

/// Heaps of the same shape have the same edges.
pub proof fn lemma_same_shape_edges(h1: Seq<Option<Object>>, h2: Seq<Option<Object>>)
    requires
        same_shape(h1, h2),
    ensures
        forall|a: int, b: int| #[trigger] edge(h1, a, b) <==> #[trigger] edge(h2, a, b),
{
    assert forall|a: int, b: int| #[trigger] edge(h1, a, b) <==> #[trigger] edge(h2, a, b) by {
        if edge(h1, a, b) {
            assert(occupied(h2, a));
            assert(obj_at(h2, a).value == obj_at(h1, a).value);
        }
        if edge(h2, a, b) {
            assert(occupied(h1, a));
            assert(obj_at(h2, a).value == obj_at(h1, a).value);
        }
    }
}

} // verus!
