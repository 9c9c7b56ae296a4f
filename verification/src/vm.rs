//! The machine: the root stack, the heap arena, and the collector itself.

use vstd::prelude::*;

use crate::count::count_if;
use crate::count::full_pred;
use crate::count::lemma_count_if_equiv;
use crate::count::lemma_count_if_implies;
use crate::count::lemma_count_if_le;
use crate::count::lemma_count_if_pos;
use crate::count::lemma_count_if_push;
use crate::count::lemma_count_if_update;
use crate::count::occupied_count;
use crate::count::slot_unmarked;
use crate::count::unmarked_pred;
use crate::obj::GcPtr;
use crate::obj::ObjType;
use crate::obj::Object;
use crate::obj::Pair;
use crate::obj::all_unmarked;
use crate::obj::edge;
use crate::obj::heap_closed;
use crate::obj::is_pair_at;
use crate::obj::lemma_mark_update_same_shape;
use crate::obj::lemma_same_shape_edges;
use crate::obj::lemma_same_shape_trans;
use crate::obj::links_to;
use crate::obj::marked_at;
use crate::obj::obj_at;
use crate::obj::occupied;
use crate::obj::pair_at;
use crate::obj::same_shape;
use crate::reach::collect;
use crate::reach::is_path;
use crate::reach::is_root;
use crate::reach::lemma_collect_no_roots;
use crate::reach::lemma_path_marked;
use crate::reach::lemma_reachable_occupied;
use crate::reach::lemma_reachable_step;
use crate::reach::lemma_root_reachable;
use crate::reach::reachable;
use crate::reach::roots_valid;

verus! {

/// `b` is one of the indices queued in the work list `w`.
spec fn in_work(w: Seq<usize>, b: int) -> bool {
    exists|j: int| 0 <= j < w.len() && (#[trigger] w[j]) as int == b
}

/// Popping the last entry of a work list loses at most that entry: anything
/// queued before is still queued in any extension of the remainder.
proof fn lemma_in_work_after(w0: Seq<usize>, w2: Seq<usize>, b: int)
    requires
        in_work(w0, b),
        w0.len() > 0,
        w2.len() >= w0.len() - 1,
        forall|j: int| 0 <= j < w0.len() - 1 ==> w2[j] == w0[j],
    ensures
        in_work(w2, b) || w0[w0.len() - 1] as int == b,
{
    let j = choose|j: int| 0 <= j < w0.len() && (#[trigger] w0[j]) as int == b;
    if j < w0.len() - 1 {
        assert(w2[j] == w0[j]);
        assert((w2[j]) as int == b);
    }
}

/// Capacity of the root stack, fixed at construction.
pub const STACK_MAX: usize = 256;

/// The collection threshold a machine starts with, and the value the
/// threshold is reset to whenever a collection leaves the heap empty.
pub const INITIAL_GC_THRESHOLD: usize = 8;

/// The threshold recomputed after a collection that left `live` objects:
/// reset when the heap is empty, otherwise twice the surviving population
/// (saturating at the machine limit).
pub open spec fn next_threshold(live: usize) -> usize {
    if live == 0 {
        INITIAL_GC_THRESHOLD
    } else if live <= usize::MAX / 2 {
        (live * 2) as usize
    } else {
        usize::MAX
    }
}

/// The links inside payload `v` all land on occupied slots of `h`.
pub open spec fn value_ok(h: Seq<Option<Object>>, v: ObjType) -> bool {
    forall|b: int| #[trigger] links_to(v, b) ==> occupied(h, b)
}

/// A stack machine owning a heap of objects whose storage is reclaimed by
/// tracing collection from the machine's root stack.
pub struct Vm {
    /// The root stack: handles of the values currently live from the
    /// machine's perspective, and the sole roots of every trace.
    stack: Vec<GcPtr>,
    /// The heap arena. A `None` slot is reclaimed storage; every occupied
    /// slot is a registered object, whether or not anything reaches it.
    heap: Vec<Option<Object>>,
    /// The number of occupied heap slots.
    num_objs: usize,
    /// The population at which the next collection is due.
    max_objs: usize,
}

impl Vm {
    /// The heap as a sequence of optional objects.
    pub closed spec fn heap_view(self) -> Seq<Option<Object>> {
        self.heap@
    }

    /// The root stack, bottom first.
    pub closed spec fn roots(self) -> Seq<GcPtr> {
        self.stack@
    }

    /// The number of live (allocated, not yet reclaimed) objects.
    pub closed spec fn live(self) -> usize {
        self.num_objs
    }

    /// The population at which the next collection is due.
    pub closed spec fn threshold(self) -> usize {
        self.max_objs
    }

    /// Structural well-formedness: the stack respects its capacity and
    /// points only at occupied slots, the heap registry contains everything
    /// its object graph links to, and the live count is exact.
    pub open spec fn inv(self) -> bool {
        &&& self.roots().len() <= STACK_MAX
        &&& roots_valid(self.heap_view(), self.roots())
        &&& heap_closed(self.heap_view())
        &&& self.live() == occupied_count(self.heap_view())
    }

    /// Well-formed and at rest: between cycles every mark bit is clear, so
    /// the next trace starts from a clean slate.
    pub open spec fn wf(self) -> bool {
        self.inv() && all_unmarked(self.heap_view())
    }

    /// A fresh machine: empty stack, empty heap, initial threshold.
    pub fn new() -> (vm: Vm)
        ensures
            vm.wf(),
            vm.roots().len() == 0,
            vm.heap_view().len() == 0,
            vm.live() == 0,
            vm.threshold() == INITIAL_GC_THRESHOLD,
    {
        let vm = Vm {
            stack: Vec::new(),
            heap: Vec::new(),
            num_objs: 0,
            max_objs: INITIAL_GC_THRESHOLD,
        };
        proof {
            assert(vm.num_objs == occupied_count(vm.heap@));
        }
        vm
    }

    /// Allocates an object holding `v`, registers it in the heap, and pushes
    /// its handle as a new root.
    pub fn push(&mut self, value: ObjType)
        requires
            old(self).wf(),
            old(self).roots().len() < STACK_MAX,
            value_ok(old(self).heap_view(), value),
        ensures
            final(self).wf(),
            final(self).heap_view() == old(self).heap_view().push(
                Some(Object { marked: false, value }),
            ),
            final(self).roots() == old(self).roots().push(
                GcPtr(old(self).heap_view().len() as usize),
            ),
            final(self).live() == old(self).live() + 1,
            final(self).threshold() == old(self).threshold(),
    {
        let idx = self.heap.len();
        let obj = Object { marked: false, value };
        self.heap.push(Some(obj));
        self.stack.push(GcPtr(idx));
        let grown_len = self.heap.len();
        proof {
            lemma_count_if_le(old(self).heap@, full_pred(), old(self).heap@.len() as int);
            lemma_count_if_push(old(self).heap@, full_pred(), Some(obj));
            assert(self.num_objs < grown_len);
        }
        self.num_objs = self.num_objs + 1;
        proof {
            let h0 = old(self).heap@;
            let h1 = self.heap@;
            let n = h0.len() as int;
            assert forall|i: int| 0 <= i < n implies h1[i] == h0[i] by {}
            assert forall|a: int, b: int| #[trigger] edge(h1, a, b) implies occupied(h1, b) by {
                if a < n {
                    assert(h1[a] == h0[a]);
                    assert(edge(h0, a, b));
                    assert(occupied(h0, b));
                } else {
                    assert(a == n);
                    assert(obj_at(h1, a) == obj);
                    assert(links_to(value, b));
                    assert(occupied(h0, b));
                }
            }
            assert forall|k: int| 0 <= k < self.stack@.len() implies occupied(
                h1,
                (#[trigger] self.stack@[k]).0 as int,
            ) by {
                if k < old(self).stack@.len() {
                    assert(self.stack@[k] == old(self).stack@[k]);
                    assert(occupied(h0, old(self).stack@[k].0 as int));
                } else {
                    assert(self.stack@[k] == GcPtr(n as usize));
                }
            }
            assert forall|i: int| !(#[trigger] marked_at(h1, i)) by {
                if 0 <= i < n {
                    assert(h1[i] == h0[i]);
                    assert(!marked_at(h0, i));
                }
            }
        }
    }

    /// Removes and returns the top root handle. The object itself stays
    /// registered in the heap; it merely becomes a reclamation candidate for
    /// the next collection, unless something else still reaches it.
    pub fn pop(&mut self) -> (obj: GcPtr)
        requires
            old(self).wf(),
            old(self).roots().len() > 0,
        ensures
            final(self).wf(),
            obj == old(self).roots().last(),
            final(self).roots() == old(self).roots().drop_last(),
            final(self).heap_view() == old(self).heap_view(),
            final(self).live() == old(self).live(),
            final(self).threshold() == old(self).threshold(),
            occupied(final(self).heap_view(), obj.0 as int),
    {
        let obj = self.stack.pop().unwrap();
        proof {
            let r0 = old(self).stack@;
            assert(r0[r0.len() - 1].0 as int == obj.0 as int);
            assert(occupied(self.heap@, obj.0 as int));
            assert forall|k: int| 0 <= k < self.stack@.len() implies occupied(
                self.heap@,
                (#[trigger] self.stack@[k]).0 as int,
            ) by {
                assert(self.stack@[k] == r0[k]);
                assert(occupied(self.heap@, r0[k].0 as int));
            }
            assert(self.stack@ =~= r0.drop_last());
        }
        obj
    }

    /// Allocates a scalar object and roots it.
    pub fn push_int(&mut self, value: i64)
        requires
            old(self).wf(),
            old(self).roots().len() < STACK_MAX,
        ensures
            final(self).wf(),
            final(self).heap_view() == old(self).heap_view().push(
                Some(Object { marked: false, value: ObjType::Int(value) }),
            ),
            final(self).roots() == old(self).roots().push(
                GcPtr(old(self).heap_view().len() as usize),
            ),
            final(self).live() == old(self).live() + 1,
            final(self).threshold() == old(self).threshold(),
    {
        proof {
            assert forall|b: int| #[trigger] links_to(ObjType::Int(value), b) implies occupied(
                self.heap@,
                b,
            ) by {}
        }
        self.push(ObjType::Int(value));
    }

    /// Pops two roots and allocates a pair linking both, in pop order: the
    /// first handle popped becomes the head, the second the tail. The two
    /// children stay alive through the new pair, no longer through the stack.
    pub fn push_pair(&mut self)
        requires
            old(self).wf(),
            old(self).roots().len() >= 2,
        ensures
            final(self).wf(),
            final(self).heap_view() == old(self).heap_view().push(
                Some(
                    Object {
                        marked: false,
                        value: ObjType::Pair(
                            Pair {
                                head: Some(old(self).roots().last()),
                                tail: Some(old(self).roots()[old(self).roots().len() - 2]),
                            },
                        ),
                    },
                ),
            ),
            final(self).roots() == old(self).roots().drop_last().drop_last().push(
                GcPtr(old(self).heap_view().len() as usize),
            ),
            final(self).live() == old(self).live() + 1,
            final(self).threshold() == old(self).threshold(),
    {
        let head = self.pop();
        let tail = self.pop();
        let value = ObjType::Pair(Pair { head: Some(head), tail: Some(tail) });
        proof {
            assert(old(self).roots().drop_last()[old(self).roots().len() - 2] == old(
                self,
            ).roots()[old(self).roots().len() - 2]);
            assert forall|b: int| #[trigger] links_to(value, b) implies occupied(
                self.heap@,
                b,
            ) by {
                assert(b == head.0 as int || b == tail.0 as int);
            }
        }
        self.push(value);
    }

    /// Mark phase: sets the mark bit on exactly the objects reachable from
    /// the root stack. The traversal is iterative over an explicit work
    /// list, so deep graphs cannot overflow a call stack, and the mark bit
    /// cuts off every revisit, which is what makes cyclic graphs safe to
    /// trace; the loop measure below proves the phase terminates on any
    /// graph, cycles included.
    #[verifier::loop_isolation(false)]
    pub fn mark_all(&mut self)
        requires
            old(self).wf(),
        ensures
            final(self).inv(),
            final(self).roots() == old(self).roots(),
            final(self).live() == old(self).live(),
            final(self).threshold() == old(self).threshold(),
            same_shape(old(self).heap_view(), final(self).heap_view()),
            forall|i: int|
                #[trigger] marked_at(final(self).heap_view(), i) <==> reachable(
                    old(self).heap_view(),
                    old(self).roots(),
                    i,
                ),
    {
        let ghost h0 = self.heap@;
        let ghost r = self.stack@;
        let mut work: Vec<usize> = Vec::new();
        let nroots = self.stack.len();
        let mut k: usize = 0;
        while k < nroots
            invariant
                k <= nroots,
                work@.len() == k,
                forall|j: int| 0 <= j < k ==> (#[trigger] work@[j]) == r[j].0,
            decreases nroots - k,
        {
            let g = self.stack[k];
            work.push(g.0);
            k = k + 1;
        }
        proof {
            assert forall|j: int| 0 <= j < work@.len() implies occupied(
                h0,
                (#[trigger] work@[j]) as int,
            ) && reachable(h0, r, work@[j] as int) by {
                assert(occupied(h0, r[j].0 as int));
                assert(is_root(r, r[j].0 as int));
                lemma_root_reachable(h0, r, r[j].0 as int);
            }
            assert forall|j: int| 0 <= j < r.len() implies marked_at(
                self.heap@,
                (#[trigger] r[j]).0 as int,
            ) || in_work(work@, r[j].0 as int) by {
                assert(work@[j] == r[j].0);
            }
        }
        while work.len() > 0
            invariant
                self.stack@ == r,
                self.num_objs == old(self).num_objs,
                self.max_objs == old(self).max_objs,
                same_shape(h0, self.heap@),
                forall|i: int| #[trigger] marked_at(self.heap@, i) ==> reachable(h0, r, i),
                forall|j: int|
                    0 <= j < work@.len() ==> occupied(h0, (#[trigger] work@[j]) as int)
                        && reachable(h0, r, work@[j] as int),
                forall|a: int, b: int|
                    marked_at(self.heap@, a) && #[trigger] edge(h0, a, b) ==> marked_at(
                        self.heap@,
                        b,
                    ) || in_work(work@, b),
                forall|j: int|
                    0 <= j < r.len() ==> marked_at(self.heap@, (#[trigger] r[j]).0 as int)
                        || in_work(work@, r[j].0 as int),
            decreases count_if(self.heap@, unmarked_pred(), self.heap@.len() as int), work@.len(),
        {
            let ghost w0 = work@;
            let ghost hc = self.heap@;
            let idx = work.pop().unwrap();
            proof {
                assert(idx == w0[w0.len() - 1]);
                assert(occupied(h0, idx as int));
                assert(occupied(self.heap@, idx as int));
            }
            let slot = self.heap[idx];
            match slot {
                Some(o) => {
                    if !o.marked {
                        let ghost c = idx as int;
                        self.heap[idx] = Some(Object { marked: true, value: o.value });
                        let ghost w1 = work@;
                        let ghost hn = self.heap@;
                        proof {
                            assert(obj_at(hc, c) == o);
                            assert(obj_at(hc, c).value == obj_at(h0, c).value);
                            lemma_mark_update_same_shape(hc, c, true);
                            lemma_same_shape_trans(h0, hc, hn);
                            assert(reachable(h0, r, c));
                        }
                        match o.value {
                            ObjType::Pair(p) => {
                                match p.head {
                                    Some(g) => {
                                        proof {
                                            assert(links_to(o.value, g.0 as int));
                                            assert(edge(h0, c, g.0 as int));
                                            lemma_reachable_step(h0, r, c, g.0 as int);
                                        }
                                        work.push(g.0);
                                    },
                                    None => {},
                                }
                                match p.tail {
                                    Some(g) => {
                                        proof {
                                            assert(links_to(o.value, g.0 as int));
                                            assert(edge(h0, c, g.0 as int));
                                            lemma_reachable_step(h0, r, c, g.0 as int);
                                        }
                                        work.push(g.0);
                                    },
                                    None => {},
                                }
                            },
                            ObjType::Int(_) => {},
                        }
                        proof {
                            let w2 = work@;
                            assert(forall|j: int| 0 <= j < w1.len() ==> w2[j] == w1[j]);
                            assert(forall|j: int| 0 <= j < w1.len() ==> w1[j] == w0[j]);
                            // every link out of the freshly marked slot is queued
                            assert forall|b: int| #[trigger] edge(h0, c, b) implies in_work(
                                w2,
                                b,
                            ) by {
                                assert(links_to(obj_at(h0, c).value, b));
                                assert(obj_at(h0, c).value == o.value);
                                match o.value {
                                    ObjType::Pair(p) => {
                                        match p.head {
                                            Some(g) => {
                                                if g.0 as int == b {
                                                    assert(w2[w1.len() as int] == g.0);
                                                }
                                            },
                                            None => {},
                                        }
                                        match p.tail {
                                            Some(g) => {
                                                if g.0 as int == b {
                                                    assert(w2[w2.len() - 1] == g.0);
                                                }
                                            },
                                            None => {},
                                        }
                                    },
                                    ObjType::Int(_) => {},
                                }
                            }
                            // marking stays sound
                            assert forall|i: int| #[trigger] marked_at(hn, i) implies reachable(
                                h0,
                                r,
                                i,
                            ) by {
                                if i != c {
                                    assert(hn[i] == hc[i]);
                                    assert(marked_at(hc, i));
                                }
                            }
                            // marked slots stay closed up to the work list
                            assert forall|a: int, b: int|
                                marked_at(hn, a) && #[trigger] edge(h0, a, b) implies marked_at(
                                hn,
                                b,
                            ) || in_work(w2, b) by {
                                if a != c {
                                    assert(hn[a] == hc[a]);
                                    assert(marked_at(hc, a));
                                    assert(marked_at(hc, b) || in_work(w0, b));
                                    if marked_at(hc, b) {
                                        if b != c {
                                            assert(hn[b] == hc[b]);
                                        }
                                        assert(marked_at(hn, b));
                                    } else {
                                        lemma_in_work_after(w0, w2, b);
                                        if w0[w0.len() - 1] as int == b {
                                            assert(b == c);
                                            assert(marked_at(hn, c));
                                        }
                                    }
                                }
                            }
                            // roots stay covered
                            assert forall|j: int| 0 <= j < r.len() implies marked_at(
                                hn,
                                (#[trigger] r[j]).0 as int,
                            ) || in_work(w2, r[j].0 as int) by {
                                let b = r[j].0 as int;
                                if marked_at(hc, b) {
                                    if b != c {
                                        assert(hn[b] == hc[b]);
                                    }
                                } else {
                                    assert(in_work(w0, b));
                                    lemma_in_work_after(w0, w2, b);
                                    if w0[w0.len() - 1] as int == b {
                                        assert(b == c);
                                        assert(marked_at(hn, c));
                                    }
                                }
                            }
                            // the measure falls: one fewer unmarked object
                            assert(slot_unmarked(hc[c]));
                            assert(!slot_unmarked(hn[c]));
                            lemma_count_if_update(
                                hc,
                                unmarked_pred(),
                                hc.len() as int,
                                c,
                                Some(Object { marked: true, value: o.value }),
                            );
                            assert(count_if(hn, unmarked_pred(), hn.len() as int) < count_if(
                                hc,
                                unmarked_pred(),
                                hc.len() as int,
                            ));
                        }
                    } else {
                        proof {
                            let w2 = work@;
                            assert(marked_at(self.heap@, idx as int));
                            assert forall|a: int, b: int|
                                marked_at(self.heap@, a) && #[trigger] edge(
                                    h0,
                                    a,
                                    b,
                                ) implies marked_at(self.heap@, b) || in_work(w2, b) by {
                                assert(marked_at(hc, b) || in_work(w0, b));
                                if !marked_at(hc, b) {
                                    lemma_in_work_after(w0, w2, b);
                                }
                            }
                            assert forall|j: int| 0 <= j < r.len() implies marked_at(
                                self.heap@,
                                (#[trigger] r[j]).0 as int,
                            ) || in_work(w2, r[j].0 as int) by {
                                let b = r[j].0 as int;
                                if !marked_at(hc, b) {
                                    assert(in_work(w0, b));
                                    lemma_in_work_after(w0, w2, b);
                                }
                            }
                        }
                    }
                },
                None => {
                    proof {
                        assert(false);
                    }
                },
            }
        }
        proof {
            let hm = self.heap@;
            // everything reachable got marked
            assert forall|i: int| reachable(h0, r, i) implies marked_at(hm, i) by {
                let p = choose|p: Seq<int>|
                    #[trigger] is_path(h0, p) && p.len() > 0 && is_root(r, p[0]) && p.last() == i;
                let j = choose|j: int| 0 <= j < r.len() && (#[trigger] r[j]).0 as int == p[0];
                assert(marked_at(hm, r[j].0 as int));
                lemma_path_marked(h0, hm, p);
            }
            // the live count is untouched: occupancy did not change
            assert forall|j: int|
                0 <= j < h0.len() implies (full_pred()(#[trigger] h0[j]) <==> full_pred()(
                #[trigger] hm[j],
            )) by {
                assert(occupied(h0, j) <==> occupied(hm, j));
            }
            lemma_count_if_equiv(h0, full_pred(), hm, full_pred(), h0.len() as int);
            // the heap stays closed and the roots stay valid
            lemma_same_shape_edges(h0, hm);
            assert forall|a: int, b: int| #[trigger] edge(hm, a, b) implies occupied(hm, b) by {
                assert(edge(h0, a, b));
                assert(occupied(h0, b));
            }
            assert forall|j: int| 0 <= j < r.len() implies occupied(
                hm,
                (#[trigger] r[j]).0 as int,
            ) by {
                assert(occupied(h0, r[j].0 as int));
            }
        }
    }

    /// Sweep phase: partitions the heap in one pass, reclaiming every
    /// unmarked object — the only place storage is freed — and clearing the
    /// mark bit of every survivor, ready for the next cycle. The caller must
    /// hand it marks that are closed under the links and that cover every
    /// root, or survivors and the stack would be left dangling.
    #[verifier::loop_isolation(false)]
    pub fn sweep(&mut self)
        requires
            old(self).inv(),
            forall|a: int, b: int|
                marked_at(old(self).heap_view(), a) && #[trigger] edge(
                    old(self).heap_view(),
                    a,
                    b,
                ) ==> marked_at(old(self).heap_view(), b),
            forall|k: int|
                0 <= k < old(self).roots().len() ==> marked_at(
                    old(self).heap_view(),
                    (#[trigger] old(self).roots()[k]).0 as int,
                ),
        ensures
            final(self).wf(),
            final(self).roots() == old(self).roots(),
            final(self).threshold() == old(self).threshold(),
            final(self).heap_view().len() == old(self).heap_view().len(),
            forall|i: int|
                0 <= i < old(self).heap_view().len() ==> (#[trigger] final(self).heap_view()[i])
                    == (if marked_at(old(self).heap_view(), i) {
                    Some(Object { marked: false, value: obj_at(old(self).heap_view(), i).value })
                } else {
                    None
                }),
            final(self).live() <= old(self).live(),
    {
        let ghost h0 = self.heap@;
        let ghost n_ = h0.len() as int;
        let n = self.heap.len();
        let mut i: usize = 0;
        while i < n
            invariant
                i <= n,
                self.stack@ == old(self).stack@,
                self.max_objs == old(self).max_objs,
                self.heap@.len() == n,
                forall|j: int| i <= j < n ==> self.heap@[j] == h0[j],
                forall|j: int|
                    0 <= j < i ==> (#[trigger] self.heap@[j]) == (if marked_at(h0, j) {
                        Some(Object { marked: false, value: obj_at(h0, j).value })
                    } else {
                        None
                    }),
                self.num_objs == count_if(self.heap@, full_pred(), n as int),
            decreases n - i,
        {
            let ghost hc = self.heap@;
            let slot = self.heap[i];
            match slot {
                Some(o) => {
                    if o.marked {
                        self.heap[i] = Some(Object { marked: false, value: o.value });
                        proof {
                            lemma_count_if_update(
                                hc,
                                full_pred(),
                                n as int,
                                i as int,
                                Some(Object { marked: false, value: o.value }),
                            );
                        }
                    } else {
                        self.heap[i] = None;
                        proof {
                            lemma_count_if_pos(hc, full_pred(), n as int, i as int);
                            lemma_count_if_update(hc, full_pred(), n as int, i as int, None);
                        }
                        self.num_objs = self.num_objs - 1;
                    }
                },
                None => {},
            }
            i = i + 1;
        }
        proof {
            let hf = self.heap@;
            // survivors are exactly the marked slots, unmarked again
            assert forall|j: int| !(#[trigger] marked_at(hf, j)) by {
                if 0 <= j < n {
                    assert(hf[j] == (if marked_at(h0, j) {
                        Some(Object { marked: false, value: obj_at(h0, j).value })
                    } else {
                        None
                    }));
                }
            }
            // the swept heap is still closed: marks were closed
            assert forall|a: int, b: int| #[trigger] edge(hf, a, b) implies occupied(hf, b) by {
                assert(occupied(hf, a));
                assert(marked_at(h0, a));
                assert(obj_at(hf, a).value == obj_at(h0, a).value);
                assert(edge(h0, a, b));
                assert(marked_at(h0, b));
            }
            // the roots were all marked, so they all survived
            assert forall|k: int| 0 <= k < self.stack@.len() implies occupied(
                hf,
                (#[trigger] self.stack@[k]).0 as int,
            ) by {
                assert(self.stack@[k] == old(self).roots()[k]);
                assert(marked_at(h0, (old(self).roots()[k]).0 as int));
            }
            // fewer objects than before: survivors were occupied already
            assert forall|j: int|
                0 <= j < n_ && full_pred()(#[trigger] hf[j]) implies full_pred()(
                #[trigger] h0[j],
            ) by {
                assert(marked_at(h0, j));
            }
            lemma_count_if_implies(hf, full_pred(), h0, full_pred(), n_);
        }
    }

    /// A full collection cycle: mark everything reachable from the root
    /// stack, sweep the rest of the heap away, and recompute the trigger
    /// threshold from the surviving population. Always succeeds; returns how
    /// many objects were reclaimed and how many remain.
    pub fn gc(&mut self) -> (report: (usize, usize))
        requires
            old(self).wf(),
        ensures
            final(self).wf(),
            final(self).roots() == old(self).roots(),
            final(self).heap_view() == collect(old(self).heap_view(), old(self).roots()),
            final(self).live() == occupied_count(final(self).heap_view()),
            final(self).threshold() == next_threshold(final(self).live()),
            final(self).live() <= old(self).live(),
            report.0 == old(self).live() - final(self).live(),
            report.1 == final(self).live(),
    {
        let before = self.num_objs;
        let ghost h0 = self.heap@;
        let ghost r = self.stack@;
        self.mark_all();
        let ghost h1 = self.heap@;
        proof {
            lemma_same_shape_edges(h0, h1);
            assert forall|a: int, b: int|
                marked_at(h1, a) && #[trigger] edge(h1, a, b) implies marked_at(h1, b) by {
                assert(edge(h0, a, b));
                assert(reachable(h0, r, a));
                lemma_reachable_step(h0, r, a, b);
            }
            assert forall|k: int| 0 <= k < r.len() implies marked_at(
                h1,
                (#[trigger] r[k]).0 as int,
            ) by {
                assert(is_root(r, r[k].0 as int));
                lemma_root_reachable(h0, r, r[k].0 as int);
            }
        }
        self.sweep();
        proof {
            let hf = self.heap@;
            let hc = collect(h0, r);
            assert forall|i: int| 0 <= i < h0.len() implies hf[i] == hc[i] by {
                assert(marked_at(h1, i) <==> reachable(h0, r, i));
                if reachable(h0, r, i) {
                    lemma_reachable_occupied(h0, r, i);
                    assert(obj_at(h1, i).value == obj_at(h0, i).value);
                }
            }
            assert(hf =~= hc);
        }
        let remaining = self.num_objs;
        self.max_objs = if remaining == 0 {
            INITIAL_GC_THRESHOLD
        } else if remaining <= usize::MAX / 2 {
            remaining * 2
        } else {
            usize::MAX
        };
        (before - remaining, remaining)
    }

    /// The collection trigger: runs a full cycle exactly when the allocated
    /// population has reached the threshold, and otherwise changes nothing.
    pub fn collect_if_due(&mut self) -> (report: Option<(usize, usize)>)
        requires
            old(self).wf(),
        ensures
            final(self).wf(),
            old(self).live() < old(self).threshold() ==> {
                &&& report is None
                &&& final(self).heap_view() == old(self).heap_view()
                &&& final(self).roots() == old(self).roots()
                &&& final(self).live() == old(self).live()
                &&& final(self).threshold() == old(self).threshold()
            },
            old(self).live() >= old(self).threshold() ==> {
                &&& final(self).heap_view() == collect(old(self).heap_view(), old(self).roots())
                &&& final(self).roots() == old(self).roots()
                &&& final(self).live() == occupied_count(final(self).heap_view())
                &&& final(self).threshold() == next_threshold(final(self).live())
                &&& report == Some(
                    (((old(self).live() - final(self).live()) as usize), final(self).live()),
                )
            },
    {
        if self.num_objs >= self.max_objs {
            Some(self.gc())
        } else {
            None
        }
    }

    /// Teardown: the final collection at the machine's end of life. Empties
    /// the root stack and collects, so every remaining object — reachable or
    /// not — is reclaimed and nothing leaks.
    pub fn teardown(&mut self) -> (report: (usize, usize))
        requires
            old(self).wf(),
        ensures
            final(self).wf(),
            final(self).roots().len() == 0,
            final(self).live() == 0,
            forall|i: int|
                0 <= i < final(self).heap_view().len() ==> final(self).heap_view()[i] is None,
            report.0 == old(self).live(),
            report.1 == 0,
    {
        self.stack = Vec::new();
        let ghost h0 = self.heap@;
        let report = self.gc();
        proof {
            lemma_collect_no_roots(h0, self.stack@);
        }
        report
    }

    /// Redirects the head link of the pair in `obj`'s slot to `target`.
    /// Post-construction link mutation is what lets the object graph take
    /// arbitrary shapes — shared substructure and cycles included.
    pub fn set_pair_head(&mut self, obj: GcPtr, target: Option<GcPtr>)
        requires
            old(self).wf(),
            is_pair_at(old(self).heap_view(), obj.0 as int),
            match target {
                Some(g) => occupied(old(self).heap_view(), g.0 as int),
                None => true,
            },
        ensures
            final(self).wf(),
            final(self).roots() == old(self).roots(),
            final(self).live() == old(self).live(),
            final(self).threshold() == old(self).threshold(),
            final(self).heap_view() == old(self).heap_view().update(
                obj.0 as int,
                Some(
                    Object {
                        marked: false,
                        value: ObjType::Pair(
                            Pair {
                                head: target,
                                tail: pair_at(old(self).heap_view(), obj.0 as int).tail,
                            },
                        ),
                    },
                ),
            ),
    {
        let links = Pair {
            head: target,
            tail: match &self.heap[obj.0] {
                Some(o) => match &o.value {
                    ObjType::Pair(p) => p.tail,
                    ObjType::Int(_) => None,
                },
                None => None,
            },
        };
        proof {
            let h0 = self.heap@;
            let c = obj.0 as int;
            assert forall|b: int| #[trigger] links_to(ObjType::Pair(links), b) implies occupied(
                h0,
                b,
            ) by {
                match links.tail {
                    Some(g) => {
                        if g.0 as int == b {
                            assert(links_to(obj_at(h0, c).value, b));
                            assert(edge(h0, c, b));
                        }
                    },
                    None => {},
                }
            }
        }
        self.relink(obj, links);
    }

    /// Redirects the tail link of the pair in `obj`'s slot to `target`.
    pub fn set_pair_tail(&mut self, obj: GcPtr, target: Option<GcPtr>)
        requires
            old(self).wf(),
            is_pair_at(old(self).heap_view(), obj.0 as int),
            match target {
                Some(g) => occupied(old(self).heap_view(), g.0 as int),
                None => true,
            },
        ensures
            final(self).wf(),
            final(self).roots() == old(self).roots(),
            final(self).live() == old(self).live(),
            final(self).threshold() == old(self).threshold(),
            final(self).heap_view() == old(self).heap_view().update(
                obj.0 as int,
                Some(
                    Object {
                        marked: false,
                        value: ObjType::Pair(
                            Pair {
                                head: pair_at(old(self).heap_view(), obj.0 as int).head,
                                tail: target,
                            },
                        ),
                    },
                ),
            ),
    {
        let links = Pair {
            head: match &self.heap[obj.0] {
                Some(o) => match &o.value {
                    ObjType::Pair(p) => p.head,
                    ObjType::Int(_) => None,
                },
                None => None,
            },
            tail: target,
        };
        proof {
            let h0 = self.heap@;
            let c = obj.0 as int;
            assert forall|b: int| #[trigger] links_to(ObjType::Pair(links), b) implies occupied(
                h0,
                b,
            ) by {
                match links.head {
                    Some(g) => {
                        if g.0 as int == b {
                            assert(links_to(obj_at(h0, c).value, b));
                            assert(edge(h0, c, b));
                        }
                    },
                    None => {},
                }
            }
        }
        self.relink(obj, links);
    }

    /// Replaces both links of the pair in `obj`'s slot.
    fn relink(&mut self, obj: GcPtr, links: Pair)
        requires
            old(self).wf(),
            is_pair_at(old(self).heap_view(), obj.0 as int),
            value_ok(old(self).heap_view(), ObjType::Pair(links)),
        ensures
            final(self).wf(),
            final(self).roots() == old(self).roots(),
            final(self).live() == old(self).live(),
            final(self).threshold() == old(self).threshold(),
            final(self).heap_view() == old(self).heap_view().update(
                obj.0 as int,
                Some(Object { marked: false, value: ObjType::Pair(links) }),
            ),
    {
        let ghost h0 = self.heap@;
        let ghost c = obj.0 as int;
        let replacement = Object { marked: false, value: ObjType::Pair(links) };
        self.heap[obj.0] = Some(replacement);
        proof {
            let h1 = self.heap@;
            lemma_count_if_update(h0, full_pred(), h0.len() as int, c, Some(replacement));
            assert forall|k: int| 0 <= k < self.stack@.len() implies occupied(
                h1,
                (#[trigger] self.stack@[k]).0 as int,
            ) by {
                let b = self.stack@[k].0 as int;
                assert(occupied(h0, b));
                if b != c {
                    assert(h1[b] == h0[b]);
                }
            }
            assert forall|a: int, b: int| #[trigger] edge(h1, a, b) implies occupied(h1, b) by {
                if a == c {
                    assert(links_to(ObjType::Pair(links), b));
                    assert(occupied(h0, b));
                } else {
                    assert(h1[a] == h0[a]);
                    assert(edge(h0, a, b));
                    assert(occupied(h0, b));
                }
                if b != c {
                    assert(h1[b] == h0[b]);
                }
            }
            assert forall|i: int| !(#[trigger] marked_at(h1, i)) by {
                if i != c {
                    if 0 <= i < h1.len() {
                        assert(h1[i] == h0[i]);
                    }
                    assert(!marked_at(h0, i));
                }
            }
        }
    }

    /// The number of live objects, as the sweep phase last left it.
    pub fn live_count(&self) -> (n: usize)
        ensures
            n == self.live(),
    {
        self.num_objs
    }

    /// The population at which the next collection is due.
    pub fn gc_threshold(&self) -> (n: usize)
        ensures
            n == self.threshold(),
    {
        self.max_objs
    }

    /// How many roots the stack currently holds.
    pub fn root_count(&self) -> (n: usize)
        ensures
            n == self.roots().len(),
    {
        self.stack.len()
    }
}

/// The threshold policy is monotone in the survivors: a collection that
/// leaves `live > 0` objects parks the threshold at twice that population,
/// so at least `live` further net allocations fit before a collection is due
/// again; a collection that leaves the heap empty resets the threshold to
/// its initial value.
pub proof fn lemma_threshold_policy(live: usize)
    ensures
        live == 0 ==> next_threshold(live) == INITIAL_GC_THRESHOLD,
        live > 0 ==> next_threshold(live) >= live,
        live > 0 && live * 2 <= usize::MAX ==> next_threshold(live) - live >= live,
{
}

} // verus!
