//! Counting heap slots that satisfy a predicate, with the induction lemmas
//! the machine's bookkeeping rests on.

use vstd::prelude::*;

use crate::obj::Object;

verus! {

/// How many of the first `n` slots of `h` satisfy `f`.
pub open spec fn count_if(h: Seq<Option<Object>>, f: spec_fn(Option<Object>) -> bool, n: int) -> nat
    decreases n,
{
    if n <= 0 {
        0
    } else {
        count_if(h, f, n - 1) + (if f(h[n - 1]) {
            1nat
        } else {
            0nat
        })
    }
}

/// A slot holding an object.
pub open spec fn slot_full(s: Option<Object>) -> bool {
    s is Some
}

/// A slot holding an unmarked object.
pub open spec fn slot_unmarked(s: Option<Object>) -> bool {
    s is Some && !s->0.marked
}

/// `slot_full` as a first-class predicate, so every use is the same term.
pub open spec fn full_pred() -> spec_fn(Option<Object>) -> bool {
    |s: Option<Object>| slot_full(s)
}

/// `slot_unmarked` as a first-class predicate.
pub open spec fn unmarked_pred() -> spec_fn(Option<Object>) -> bool {
    |s: Option<Object>| slot_unmarked(s)
}

/// The number of objects held anywhere in `h`.
pub open spec fn occupied_count(h: Seq<Option<Object>>) -> nat {
    count_if(h, full_pred(), h.len() as int)
}

/// A count over `n` slots is at most `n`.
pub proof fn lemma_count_if_le(h: Seq<Option<Object>>, f: spec_fn(Option<Object>) -> bool, n: int)
    requires
        0 <= n,
    ensures
        count_if(h, f, n) <= n,
    decreases n,
{
    if n > 0 {
        lemma_count_if_le(h, f, n - 1);
    }
}

/// Counts agree across heaps and predicates that agree pointwise.
pub proof fn lemma_count_if_equiv(
    h1: Seq<Option<Object>>,
    f: spec_fn(Option<Object>) -> bool,
    h2: Seq<Option<Object>>,
    g: spec_fn(Option<Object>) -> bool,
    n: int,
)
    requires
        forall|j: int| 0 <= j < n ==> (f(#[trigger] h1[j]) <==> g(#[trigger] h2[j])),
    ensures
        count_if(h1, f, n) == count_if(h2, g, n),
    decreases n,
{
    if n > 0 {
        lemma_count_if_equiv(h1, f, h2, g, n - 1);
    }
}

/// Counts never exceed each other when one predicate implies the other.
pub proof fn lemma_count_if_implies(
    h1: Seq<Option<Object>>,
    f: spec_fn(Option<Object>) -> bool,
    h2: Seq<Option<Object>>,
    g: spec_fn(Option<Object>) -> bool,
    n: int,
)
    requires
        forall|j: int| 0 <= j < n ==> (f(#[trigger] h1[j]) ==> g(#[trigger] h2[j])),
    ensures
        count_if(h1, f, n) <= count_if(h2, g, n),
    decreases n,
{
    if n > 0 {
        lemma_count_if_implies(h1, f, h2, g, n - 1);
    }
}

/// Updating slot `j` changes a count by exactly the difference at `j`.
pub proof fn lemma_count_if_update(
    h: Seq<Option<Object>>,
    f: spec_fn(Option<Object>) -> bool,
    n: int,
    j: int,
    v: Option<Object>,
)
    requires
        0 <= j < n,
        n <= h.len(),
    ensures
        count_if(h.update(j, v), f, n) + (if f(h[j]) {
            1nat
        } else {
            0nat
        }) == count_if(h, f, n) + (if f(v) {
            1nat
        } else {
            0nat
        }),
    decreases n,
{
    if j == n - 1 {
        assert(h.update(j, v)[n - 1] == v);
        lemma_count_if_equiv(h.update(j, v), f, h, f, n - 1);
    } else {
        assert(h.update(j, v)[n - 1] == h[n - 1]);
        lemma_count_if_update(h, f, n - 1, j, v);
    }
}

/// A count is zero when no slot in range satisfies the predicate.
pub proof fn lemma_count_if_none(h: Seq<Option<Object>>, f: spec_fn(Option<Object>) -> bool, n: int)
    requires
        forall|j: int| 0 <= j < n ==> !f(#[trigger] h[j]),
    ensures
        count_if(h, f, n) == 0,
    decreases n,
{
    if n > 0 {
        lemma_count_if_none(h, f, n - 1);
    }
}

/// A count is positive as soon as one slot in range satisfies the predicate.
pub proof fn lemma_count_if_pos(
    h: Seq<Option<Object>>,
    f: spec_fn(Option<Object>) -> bool,
    n: int,
    j: int,
)
    requires
        0 <= j < n,
        f(h[j]),
    ensures
        count_if(h, f, n) >= 1,
    decreases n,
{
    if j < n - 1 {
        lemma_count_if_pos(h, f, n - 1, j);
    }
}

/// Appending a slot extends the count by whether the new slot satisfies `f`.
pub proof fn lemma_count_if_push(
    h: Seq<Option<Object>>,
    f: spec_fn(Option<Object>) -> bool,
    s: Option<Object>,
)
    ensures
        count_if(h.push(s), f, h.len() as int + 1) == count_if(h, f, h.len() as int) + (if f(s) {
            1nat
        } else {
            0nat
        }),
{
    assert(h.push(s)[h.len() as int] == s);
    lemma_count_if_equiv(h.push(s), f, h, f, h.len() as int);
}

} // verus!
