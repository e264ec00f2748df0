//! The allocation pool and the mark-and-sweep collector.
//!
//! A handle is a slot index into the pool rather than a raw address, so a
//! handle whose box has been reclaimed is detectable instead of dangling:
//! its slot holds `None` and is never handed out again.

use core::marker::PhantomData;
use vstd::prelude::*;

verus! {

/// The capability a heap-stored payload type must provide: its direct
/// outgoing references, one hop only. The collector, not the payload,
/// is responsible for the transitive traversal.
pub trait Trace: Sized {
    /// The slot indices this value references directly.
    spec fn edges(&self) -> Seq<int>;

    /// Executable form of `edges`: the handles this value references directly.
    fn trace(&self) -> (r: Vec<Gc<Self>>)
        ensures
            r@.len() == self.edges().len(),
            forall|k: int| 0 <= k < r@.len() ==> r@[k].idx as int == self.edges()[k],
    ;
}

/// An unowned, copyable reference to one box in a heap: the index of the
/// box's slot in the pool. A handle never owns the box it refers to.
#[derive(Debug)]
pub struct Gc<T: Trace> {
    pub idx: usize,
    pub marker: PhantomData<T>,
}

impl<T: Trace> Gc<T> {
    /// The handle for slot `idx`.
    pub fn at(idx: usize) -> (h: Gc<T>)
        ensures
            h.idx == idx,
    {
        Gc { idx, marker: PhantomData }
    }
}

impl<T: Trace> Clone for Gc<T> {
    fn clone(&self) -> (r: Self)
        ensures
            r == *self,
    {
        Gc { idx: self.idx, marker: PhantomData }
    }
}

impl<T: Trace> Copy for Gc<T> {

}

/// One pool-owned storage cell: a payload plus its mark bit.
pub struct HeapBox<T: Trace> {
    pub marked: bool,
    pub data: T,
}

/// The pool of boxes tracked by the collector: the sole allocation and
/// reclamation authority. A slot is `Some` while its box is live and
/// `None` once the box has been swept.
pub struct Heap<T: Trace> {
    pool: Vec<Option<HeapBox<T>>>,
}

impl<T: Trace> View for Heap<T> {
    type V = Seq<Option<HeapBox<T>>>;

    closed spec fn view(&self) -> Seq<Option<HeapBox<T>>> {
        self.pool@
    }
}

/// Slot `i` holds a live box.
pub open spec fn slot_live<T: Trace>(pool: Seq<Option<HeapBox<T>>>, i: int) -> bool {
    0 <= i < pool.len() && pool[i] is Some
}

/// The payload stored in slot `i`.
pub open spec fn slot_data<T: Trace>(pool: Seq<Option<HeapBox<T>>>, i: int) -> T
    recommends
        slot_live(pool, i),
{
    pool[i]->0.data
}

/// Slot `i` holds a live box whose mark bit is set.
pub open spec fn slot_marked<T: Trace>(pool: Seq<Option<HeapBox<T>>>, i: int) -> bool {
    slot_live(pool, i) && pool[i]->0.marked
}

/// The box in slot `i` references the box in slot `j` directly.
pub open spec fn has_edge<T: Trace>(pool: Seq<Option<HeapBox<T>>>, i: int, j: int) -> bool {
    slot_live(pool, i) && slot_data(pool, i).edges().contains(j)
}

impl<T: Trace> Heap<T> {
    /// An empty pool.
    pub fn new() -> (heap: Heap<T>)
        ensures
            heap@.len() == 0,
    {
        Heap { pool: Vec::new() }
    }

    /// Stores `data` in a fresh box with the mark bit clear and returns a
    /// handle to it. The pool grows by one slot; no existing slot changes.
    pub fn allocate(&mut self, data: T) -> (h: Gc<T>)
        ensures
            final(self)@ == old(self)@.push(Some(HeapBox { marked: false, data })),
            h.idx == old(self)@.len(),
    {
        let h = Gc::at(self.pool.len());
        self.pool.push(Some(HeapBox { marked: false, data }));
        h
    }

    /// Whether `h` still refers to a live box. A handle whose box has been
    /// swept stays dead forever: slots are never reused.
    pub fn is_live(&self, h: Gc<T>) -> (r: bool)
        ensures
            r == slot_live(self@, h.idx as int),
    {
        h.idx < self.pool.len() && self.pool[h.idx].is_some()
    }

    /// Whether `h`'s box is live and carries the mark bit.
    pub fn is_marked(&self, h: Gc<T>) -> (r: bool)
        ensures
            r == slot_marked(self@, h.idx as int),
    {
        h.idx < self.pool.len() && match &self.pool[h.idx] {
            Some(b) => b.marked,
            None => false,
        }
    }

    /// Read access to the payload of `h`'s box.
    pub fn dereference(&self, h: Gc<T>) -> (r: &T)
        requires
            slot_live(self@, h.idx as int),
        ensures
            *r == slot_data(self@, h.idx as int),
    {
        match &self.pool[h.idx] {
            Some(b) => &b.data,
            None => unreached(),
        }
    }

    /// Write access to the payload of `h`'s box. Afterwards the box holds
    /// whatever the caller left behind the returned reference; the mark bit
    /// and every other slot are untouched.
    pub fn dereference_mut(&mut self, h: Gc<T>) -> (r: &mut T)
        requires
            slot_live(old(self)@, h.idx as int),
        ensures
            *r == slot_data(old(self)@, h.idx as int),
            final(self)@ == swapped(old(self)@, h.idx as int, *final(r)),
    {
        let slot = &mut self.pool[h.idx];
        match slot {
            Some(b) => &mut b.data,
            None => unreached(),
        }
    }

    /// Replaces the payload of `h`'s box with `data` and returns the
    /// previous payload. The mark bit and every other slot are untouched.
    pub fn swap(&mut self, h: Gc<T>, data: T) -> (prev: T)
        requires
            slot_live(old(self)@, h.idx as int),
        ensures
            prev == slot_data(old(self)@, h.idx as int),
            final(self)@ == swapped(old(self)@, h.idx as int, data),
    {
        let taken = self.pool[h.idx].take();
        match taken {
            Some(b) => {
                self.pool.set(h.idx, Some(HeapBox { marked: b.marked, data }));
                proof {
                    assert(self@ =~= swapped(old(self)@, h.idx as int, data));
                }
                b.data
            },
            None => unreached(),
        }
    }
}

/// `p` is a walk through live boxes of `pool`: every entry is a live slot
/// and every consecutive pair is a direct edge.
pub open spec fn is_path<T: Trace>(pool: Seq<Option<HeapBox<T>>>, p: Seq<int>) -> bool {
    &&& p.len() > 0
    &&& forall|k: int| 0 <= k < p.len() ==> slot_live(pool, #[trigger] p[k])
    &&& forall|k: int| 0 < k < p.len() ==> has_edge(pool, p[k - 1], #[trigger] p[k])
}

/// No box along `p` carries the mark bit.
pub open spec fn path_unmarked<T: Trace>(pool: Seq<Option<HeapBox<T>>>, p: Seq<int>) -> bool {
    forall|k: int| 0 <= k < p.len() ==> !slot_marked(pool, #[trigger] p[k])
}

/// Slot `i` is reachable from `roots` by zero or more direct edges.
pub open spec fn reaches<T: Trace>(
    pool: Seq<Option<HeapBox<T>>>,
    roots: Seq<int>,
    i: int,
) -> bool {
    exists|p: Seq<int>|
        #[trigger] is_path(pool, p) && roots.contains(p[0]) && p.last() == i
}

/// Slot `i` is reachable from `roots` along boxes that all have the mark
/// bit clear. On a pool with no marks at all this is plain reachability;
/// it is what one marking pass adds, since the pass skips marked boxes.
pub open spec fn reaches_unmarked<T: Trace>(
    pool: Seq<Option<HeapBox<T>>>,
    roots: Seq<int>,
    i: int,
) -> bool {
    exists|p: Seq<int>|
        #[trigger] is_path(pool, p) && path_unmarked(pool, p) && roots.contains(p[0]) && p.last()
            == i
}

/// The slot indices named by a sequence of handles.
pub open spec fn root_idxs<T: Trace>(roots: Seq<Gc<T>>) -> Seq<int> {
    roots.map_values(|g: Gc<T>| g.idx as int)
}

/// `pool` after one marking pass from `roots`: every box keeps its payload
/// and liveness, and a box is marked afterwards exactly when it was marked
/// before or is reachable from `roots` through unmarked boxes.
pub open spec fn marked_after<T: Trace>(pool: Seq<Option<HeapBox<T>>>, roots: Seq<int>) -> Seq<
    Option<HeapBox<T>>,
> {
    Seq::new(
        pool.len(),
        |i: int|
            if slot_live(pool, i) {
                Some(
                    HeapBox {
                        marked: slot_marked(pool, i) || reaches_unmarked(pool, roots, i),
                        data: slot_data(pool, i),
                    },
                )
            } else {
                pool[i]
            },
    )
}

/// A live, unmarked root reaches itself through unmarked boxes.
pub proof fn lemma_reaches_root<T: Trace>(pool: Seq<Option<HeapBox<T>>>, roots: Seq<int>, r: int)
    requires
        roots.contains(r),
        slot_live(pool, r),
        !slot_marked(pool, r),
    ensures
        reaches_unmarked(pool, roots, r),
{
    let p: Seq<int> = seq![r];
    assert(p[0] == r && p.last() == r);
    assert(is_path(pool, p));
    assert(path_unmarked(pool, p));
}

/// Following one edge out of a box that is reachable through unmarked
/// boxes reaches its live, unmarked target the same way.
pub proof fn lemma_reaches_step<T: Trace>(
    pool: Seq<Option<HeapBox<T>>>,
    roots: Seq<int>,
    j: int,
    e: int,
)
    requires
        reaches_unmarked(pool, roots, j),
        has_edge(pool, j, e),
        slot_live(pool, e),
        !slot_marked(pool, e),
    ensures
        reaches_unmarked(pool, roots, e),
{
    let p = choose|p: Seq<int>|
        #[trigger] is_path(pool, p) && path_unmarked(pool, p) && roots.contains(p[0]) && p.last()
            == j;
    let p2 = p.push(e);
    assert(p2[0] == p[0]);
    assert(p2.last() == e);
    assert(p2[p2.len() - 2] == p[p.len() - 1]);
    assert forall|k: int| 0 < k < p2.len() implies has_edge(pool, p2[k - 1], #[trigger] p2[k]) by {
        if k < p2.len() - 1 {
            assert(p2[k] == p[k] && p2[k - 1] == p[k - 1]);
        } else {
            assert(p2[k - 1] == p.last() && p2[k] == e);
        }
    }
    assert(is_path(pool, p2));
    assert(path_unmarked(pool, p2));
}

/// On a pool with no marks at all, reachability through unmarked boxes is
/// plain reachability.
pub proof fn lemma_reaches_unmarked_is_reaches<T: Trace>(
    pool: Seq<Option<HeapBox<T>>>,
    roots: Seq<int>,
)
    requires
        forall|i: int| 0 <= i < pool.len() ==> !slot_marked(pool, i),
    ensures
        forall|i: int| reaches_unmarked(pool, roots, i) <==> reaches(pool, roots, i),
{
    assert forall|i: int| reaches(pool, roots, i) implies reaches_unmarked(pool, roots, i) by {
        let p = choose|p: Seq<int>|
            #[trigger] is_path(pool, p) && roots.contains(p[0]) && p.last() == i;
        assert(path_unmarked(pool, p));
        assert(is_path(pool, p) && path_unmarked(pool, p) && roots.contains(p[0]) && p.last() == i);
    }
}

/// `j` occurs in the worklist.
spec fn stack_contains(stack: Seq<usize>, j: int) -> bool {
    exists|k: int| 0 <= k < stack.len() && #[trigger] stack[k] as int == j
}

/// A worklist entry is sound: if it names a live, unmarked slot, that slot
/// is reachable from the roots through unmarked boxes.
spec fn stack_elem_ok<T: Trace>(pool0: Seq<Option<HeapBox<T>>>, roots: Seq<int>, s: int) -> bool {
    (slot_live(pool0, s) && !slot_marked(pool0, s)) ==> reaches_unmarked(pool0, roots, s)
}

/// Every worklist entry is sound.
spec fn stack_ok<T: Trace>(
    pool0: Seq<Option<HeapBox<T>>>,
    roots: Seq<int>,
    stack: Seq<usize>,
) -> bool {
    forall|k: int| 0 <= k < stack.len() ==> stack_elem_ok(pool0, roots, #[trigger] stack[k] as int)
}

/// Slot `j` needs no further visit: it is dead, already marked, or still
/// on the worklist.
spec fn settled<T: Trace>(
    pool0: Seq<Option<HeapBox<T>>>,
    cur: Seq<Option<HeapBox<T>>>,
    stack: Seq<usize>,
    j: int,
) -> bool {
    !slot_live(pool0, j) || slot_marked(cur, j) || stack_contains(stack, j)
}

/// Every edge out of a box marked during this pass leads to a settled slot.
spec fn marks_closed<T: Trace>(
    pool0: Seq<Option<HeapBox<T>>>,
    cur: Seq<Option<HeapBox<T>>>,
    stack: Seq<usize>,
) -> bool {
    forall|i: int, j: int|
        slot_marked(cur, i) && !slot_marked(pool0, i) && #[trigger] has_edge(pool0, i, j)
            ==> settled(pool0, cur, stack, j)
}

/// A settled slot stays settled when marks only grow and the worklist only
/// keeps or appends entries.
proof fn lemma_settled_grow<T: Trace>(
    pool0: Seq<Option<HeapBox<T>>>,
    cur1: Seq<Option<HeapBox<T>>>,
    cur2: Seq<Option<HeapBox<T>>>,
    st1: Seq<usize>,
    st2: Seq<usize>,
    x: int,
)
    requires
        settled(pool0, cur1, st1, x),
        forall|i: int| slot_marked(cur1, i) ==> slot_marked(cur2, i),
        st1.len() <= st2.len(),
        forall|k: int| 0 <= k < st1.len() ==> st2[k] == st1[k],
    ensures
        settled(pool0, cur2, st2, x),
{
    if slot_live(pool0, x) && !slot_marked(cur2, x) {
        assert(!slot_marked(cur1, x));
        let w = choose|w: int| 0 <= w < st1.len() && #[trigger] st1[w] as int == x;
        assert(st2[w] as int == x);
    }
}

/// Popping the last worklist entry keeps a slot settled, provided the
/// popped entry itself needs no further visit.
proof fn lemma_settled_after_pop<T: Trace>(
    pool0: Seq<Option<HeapBox<T>>>,
    cur: Seq<Option<HeapBox<T>>>,
    st: Seq<usize>,
    x: int,
)
    requires
        st.len() > 0,
        settled(pool0, cur, st, x),
        !slot_live(pool0, st.last() as int) || slot_marked(cur, st.last() as int),
    ensures
        settled(pool0, cur, st.drop_last(), x),
{
    if slot_live(pool0, x) && !slot_marked(cur, x) {
        let w = choose|w: int| 0 <= w < st.len() && #[trigger] st[w] as int == x;
        if w == st.len() - 1 {
            assert(false);
        } else {
            assert(st.drop_last()[w] as int == x);
        }
    }
}

/// Once the worklist is empty, every box reachable through unmarked boxes
/// has been marked: the induction along the witness path.
proof fn lemma_trail_marked<T: Trace>(
    pool0: Seq<Option<HeapBox<T>>>,
    cur: Seq<Option<HeapBox<T>>>,
    roots: Seq<int>,
    p: Seq<int>,
)
    requires
        is_path(pool0, p),
        path_unmarked(pool0, p),
        roots.contains(p[0]),
        forall|k: int|
            0 <= k < roots.len() ==> settled(pool0, cur, Seq::<usize>::empty(), #[trigger] roots[k]),
        marks_closed(pool0, cur, Seq::<usize>::empty()),
    ensures
        slot_marked(cur, p.last()),
    decreases p.len(),
{
    if p.len() == 1 {
        let k = choose|k: int| 0 <= k < roots.len() && roots[k] == p[0];
        assert(settled(pool0, cur, Seq::<usize>::empty(), p[0]));
        assert(!stack_contains(Seq::<usize>::empty(), p[0]));
    } else {
        let q = p.drop_last();
        assert(q[0] == p[0]);
        assert forall|k: int| 0 < k < q.len() implies has_edge(pool0, q[k - 1], #[trigger] q[k]) by {
            assert(q[k] == p[k] && q[k - 1] == p[k - 1]);
        }
        assert(is_path(pool0, q));
        lemma_trail_marked(pool0, cur, roots, q);
        let i = p[p.len() - 2];
        let j = p.last();
        assert(q.last() == i);
        assert(has_edge(pool0, i, j));
        assert(!slot_marked(pool0, i));
        assert(settled(pool0, cur, Seq::<usize>::empty(), j));
        assert(!stack_contains(Seq::<usize>::empty(), j));
    }
}

/// The number of live boxes in the pool.
pub open spec fn num_live<T: Trace>(pool: Seq<Option<HeapBox<T>>>) -> nat
    decreases pool.len(),
{
    if pool.len() == 0 {
        0
    } else {
        num_live(pool.drop_last()) + (if pool.last() is Some {
            1nat
        } else {
            0nat
        })
    }
}

/// The number of live boxes whose mark bit is set.
pub open spec fn num_marked<T: Trace>(pool: Seq<Option<HeapBox<T>>>) -> nat
    decreases pool.len(),
{
    if pool.len() == 0 {
        0
    } else {
        num_marked(pool.drop_last()) + (if pool.last() is Some && pool.last()->0.marked {
            1nat
        } else {
            0nat
        })
    }
}

/// The number of live boxes whose mark bit is clear: the boxes a sweep
/// would reclaim.
pub open spec fn num_unmarked<T: Trace>(pool: Seq<Option<HeapBox<T>>>) -> nat
    decreases pool.len(),
{
    if pool.len() == 0 {
        0
    } else {
        num_unmarked(pool.drop_last()) + (if pool.last() is Some && !pool.last()->0.marked {
            1nat
        } else {
            0nat
        })
    }
}

/// Appending one slot adds its own contribution to each of the counters.
proof fn lemma_count_push<T: Trace>(pool: Seq<Option<HeapBox<T>>>, s: Option<HeapBox<T>>)
    ensures
        num_live(pool.push(s)) == num_live(pool) + (if s is Some {
            1nat
        } else {
            0nat
        }),
        num_marked(pool.push(s)) == num_marked(pool) + (if s is Some && s->0.marked {
            1nat
        } else {
            0nat
        }),
        num_unmarked(pool.push(s)) == num_unmarked(pool) + (if s is Some && !s->0.marked {
            1nat
        } else {
            0nat
        }),
{
    assert(pool.push(s).drop_last() =~= pool);
    assert(pool.push(s).last() == s);
}

/// The counters agree on pools whose slots agree pointwise.
proof fn lemma_count_pointwise<T: Trace>(
    p1: Seq<Option<HeapBox<T>>>,
    p2: Seq<Option<HeapBox<T>>>,
)
    requires
        p1.len() == p2.len(),
        forall|i: int| 0 <= i < p1.len() ==> (p1[i] is Some <==> p2[i] is Some),
        forall|i: int|
            0 <= i < p1.len() && p1[i] is Some ==> (p1[i]->0.marked <==> p2[i]->0.marked),
    ensures
        num_live(p1) == num_live(p2),
        num_marked(p1) == num_marked(p2),
        num_unmarked(p1) == num_unmarked(p2),
    decreases p1.len(),
{
    if p1.len() > 0 {
        assert(p1.last() == p1[p1.len() - 1]);
        lemma_count_pointwise(p1.drop_last(), p2.drop_last());
    }
}

/// Marking one live, unmarked slot moves it from the unmarked counter to
/// the marked one.
proof fn lemma_count_mark_one<T: Trace>(
    p1: Seq<Option<HeapBox<T>>>,
    p2: Seq<Option<HeapBox<T>>>,
    j: int,
)
    requires
        p1.len() == p2.len(),
        0 <= j < p1.len(),
        slot_live(p1, j),
        !slot_marked(p1, j),
        slot_live(p2, j),
        slot_marked(p2, j),
        forall|i: int| 0 <= i < p1.len() && i != j ==> p1[i] == p2[i],
    ensures
        num_unmarked(p2) + 1 == num_unmarked(p1),
        num_marked(p2) == num_marked(p1) + 1,
        num_live(p2) == num_live(p1),
    decreases p1.len(),
{
    if j == p1.len() - 1 {
        lemma_count_pointwise(p1.drop_last(), p2.drop_last());
    } else {
        assert(p1.last() == p1[p1.len() - 1]);
        assert(p2.last() == p2[p1.len() - 1]);
        lemma_count_mark_one(p1.drop_last(), p2.drop_last(), j);
    }
}

/// A pool whose live slots are exactly the marked slots of another, and
/// which carries no mark at all, has as many live boxes as the other has
/// marked ones.
proof fn lemma_count_after_sweep<T: Trace>(
    p1: Seq<Option<HeapBox<T>>>,
    p2: Seq<Option<HeapBox<T>>>,
)
    requires
        p1.len() == p2.len(),
        forall|i: int|
            0 <= i < p2.len() ==> ((p2[i] is Some) <==> (p1[i] is Some && p1[i]->0.marked)),
        forall|i: int| 0 <= i < p2.len() && p2[i] is Some ==> !p2[i]->0.marked,
    ensures
        num_live(p2) == num_marked(p1),
        num_marked(p2) == 0,
    decreases p1.len(),
{
    if p1.len() > 0 {
        assert(p1.last() == p1[p1.len() - 1]);
        assert(p2.last() == p2[p1.len() - 1]);
        lemma_count_after_sweep(p1.drop_last(), p2.drop_last());
    }
}

impl<T: Trace> Heap<T> {
    /// Marks every box reachable from `roots` by zero or more direct edges
    /// through boxes not yet marked, skipping a box that is already marked;
    /// the skip makes the pass terminate on arbitrary graphs, cycles
    /// included, since each box is marked at most once. Payloads and
    /// liveness are untouched. Starting from a pool with no marks at all,
    /// the marked boxes afterwards are exactly those reachable from
    /// `roots`. A root or edge whose box is dead contributes nothing.
    #[verifier::loop_isolation(false)]
    pub fn mark(&mut self, roots: &Vec<Gc<T>>)
        ensures
            final(self)@ == marked_after(old(self)@, root_idxs(roots@)),
            (forall|i: int| 0 <= i < old(self)@.len() ==> !slot_marked(old(self)@, i)) ==> (forall|
                i: int,
            |
                slot_marked(final(self)@, i) <==> reaches(old(self)@, root_idxs(roots@), i)),
    {
        let ghost pool0 = self@;
        let ghost rts = root_idxs(roots@);
        let mut stack: Vec<usize> = Vec::new();
        let mut r: usize = 0;
        while r < roots.len()
            invariant
                r <= roots.len(),
                self@ == pool0,
                stack@.len() == r,
                forall|k: int| 0 <= k < r ==> stack@[k] == roots@[k].idx,
            decreases roots.len() - r,
        {
            stack.push(roots[r].idx);
            r = r + 1;
        }
        proof {
            assert forall|k: int| 0 <= k < stack@.len() implies stack_elem_ok(
                pool0,
                rts,
                #[trigger] stack@[k] as int,
            ) by {
                let s = stack@[k] as int;
                assert(rts[k] == s);
                if slot_live(pool0, s) && !slot_marked(pool0, s) {
                    assert(rts.contains(s));
                    lemma_reaches_root(pool0, rts, s);
                }
            }
            assert forall|k: int| 0 <= k < rts.len() implies settled(
                pool0,
                self@,
                stack@,
                #[trigger] rts[k],
            ) by {
                assert(stack@[k] as int == rts[k]);
                assert(stack_contains(stack@, rts[k]));
            }
        }
        while stack.len() != 0
            invariant
                self@.len() == pool0.len(),
                forall|i: int|
                    0 <= i < pool0.len() ==> (slot_live(self@, i) <==> slot_live(pool0, i)),
                forall|i: int| slot_live(pool0, i) ==> slot_data(self@, i) == slot_data(pool0, i),
                forall|i: int| slot_marked(pool0, i) ==> slot_marked(self@, i),
                forall|i: int|
                    slot_marked(self@, i) ==> slot_marked(pool0, i) || reaches_unmarked(
                        pool0,
                        rts,
                        i,
                    ),
                stack_ok(pool0, rts, stack@),
                forall|k: int|
                    0 <= k < rts.len() ==> settled(pool0, self@, stack@, #[trigger] rts[k]),
                marks_closed(pool0, self@, stack@),
            decreases num_unmarked(self@), stack@.len(),
        {
            let ghost stack_pre = stack@;
            let ghost cur_pre = self@;
            let j = stack.pop().unwrap();
            proof {
                assert(stack_pre[stack_pre.len() - 1] as int == j as int);
                assert(stack_elem_ok(pool0, rts, j as int));
            }
            let should_mark: bool = j < self.pool.len() && (match &self.pool[j] {
                Some(b) => !b.marked,
                None => false,
            });
            if should_mark {
                proof {
                    assert(slot_live(pool0, j as int));
                    assert(!slot_marked(pool0, j as int));
                    assert(reaches_unmarked(pool0, rts, j as int));
                }
                let edges: Vec<Gc<T>> = match &self.pool[j] {
                    Some(b) => b.data.trace(),
                    None => unreached(),
                };
                match &mut self.pool[j] {
                    Some(b) => {
                        b.marked = true;
                    },
                    None => {},
                }
                proof {
                    assert(self@ =~= cur_pre.update(
                        j as int,
                        Some(HeapBox { marked: true, data: slot_data(cur_pre, j as int) }),
                    ));
                    lemma_count_mark_one(cur_pre, self@, j as int);
                }
                let ghost cur_marked = self@;
                let ghost stack_base = stack@;
                let mut e: usize = 0;
                while e < edges.len()
                    invariant
                        e <= edges.len(),
                        self@ == cur_marked,
                        stack@.len() == stack_base.len() + e,
                        forall|k: int| 0 <= k < stack_base.len() ==> stack@[k] == stack_base[k],
                        forall|k: int|
                            0 <= k < e ==> stack@[stack_base.len() + k] == edges@[k].idx,
                        stack_ok(pool0, rts, stack@),
                    decreases edges.len() - e,
                {
                    stack.push(edges[e].idx);
                    proof {
                        let t = edges@[e as int].idx as int;
                        if slot_live(pool0, t) && !slot_marked(pool0, t) {
                            assert(slot_data(pool0, j as int).edges()[e as int] == t);
                            assert(slot_data(pool0, j as int).edges().contains(t));
                            lemma_reaches_step(pool0, rts, j as int, t);
                        }
                    }
                    e = e + 1;
                }
                proof {
                    assert forall|i: int| slot_marked(cur_pre, i) implies slot_marked(
                        self@,
                        i,
                    ) by {}
                    assert forall|k: int| 0 <= k < rts.len() implies settled(
                        pool0,
                        self@,
                        stack@,
                        #[trigger] rts[k],
                    ) by {
                        lemma_settled_grow(pool0, cur_pre, self@, stack_pre, stack_pre, rts[k]);
                        lemma_settled_after_pop(pool0, self@, stack_pre, rts[k]);
                        lemma_settled_grow(
                            pool0,
                            self@,
                            self@,
                            stack_pre.drop_last(),
                            stack@,
                            rts[k],
                        );
                    }
                    assert forall|i: int, jj: int|
                        slot_marked(self@, i) && !slot_marked(pool0, i) && #[trigger] has_edge(
                            pool0,
                            i,
                            jj,
                        ) implies settled(pool0, self@, stack@, jj) by {
                        if i == j as int {
                            let eseq = slot_data(pool0, j as int).edges();
                            let m = choose|m: int| 0 <= m < eseq.len() && eseq[m] == jj;
                            assert(edges@[m].idx as int == jj);
                            assert(stack@[stack_base.len() + m] == edges@[m].idx);
                            assert(stack_contains(stack@, jj));
                        } else {
                            assert(slot_marked(cur_pre, i));
                            assert(settled(pool0, cur_pre, stack_pre, jj));
                            lemma_settled_grow(pool0, cur_pre, self@, stack_pre, stack_pre, jj);
                            lemma_settled_after_pop(pool0, self@, stack_pre, jj);
                            lemma_settled_grow(
                                pool0,
                                self@,
                                self@,
                                stack_pre.drop_last(),
                                stack@,
                                jj,
                            );
                        }
                    }
                }
            } else {
                proof {
                    assert(!slot_live(pool0, j as int) || slot_marked(self@, j as int));
                    assert forall|k: int| 0 <= k < rts.len() implies settled(
                        pool0,
                        self@,
                        stack@,
                        #[trigger] rts[k],
                    ) by {
                        lemma_settled_after_pop(pool0, self@, stack_pre, rts[k]);
                    }
                    assert forall|i: int, jj: int|
                        slot_marked(self@, i) && !slot_marked(pool0, i) && #[trigger] has_edge(
                            pool0,
                            i,
                            jj,
                        ) implies settled(pool0, self@, stack@, jj) by {
                        assert(settled(pool0, self@, stack_pre, jj));
                        lemma_settled_after_pop(pool0, self@, stack_pre, jj);
                    }
                }
            }
        }
        proof {
            assert(stack@ =~= Seq::<usize>::empty());
            assert forall|i: int| reaches_unmarked(pool0, rts, i) implies slot_marked(
                self@,
                i,
            ) by {
                let p = choose|p: Seq<int>|
                    #[trigger] is_path(pool0, p) && path_unmarked(pool0, p) && rts.contains(p[0])
                        && p.last() == i;
                lemma_trail_marked(pool0, self@, rts, p);
            }
            assert forall|i: int| 0 <= i < pool0.len() implies self@[i] == marked_after(
                pool0,
                rts,
            )[i] by {
                if slot_live(pool0, i) {
                    assert(slot_marked(self@, i) <==> (slot_marked(pool0, i) || reaches_unmarked(
                        pool0,
                        rts,
                        i,
                    )));
                    assert(self@[i] is Some);
                    assert(self@[i]->0.data == slot_data(pool0, i));
                    assert(self@[i]->0 == (HeapBox {
                        marked: self@[i]->0.marked,
                        data: self@[i]->0.data,
                    }));
                } else {
                    assert(!slot_live(self@, i));
                    assert(self@[i] is None);
                }
            }
            assert(self@ =~= marked_after(pool0, rts));
            if forall|i: int| 0 <= i < pool0.len() ==> !slot_marked(pool0, i) {
                lemma_reaches_unmarked_is_reaches(pool0, rts);
                assert forall|i: int|
                    slot_marked(self@, i) <==> reaches(pool0, rts, i) by {
                    if slot_marked(self@, i) {
                        assert(slot_marked(pool0, i) || reaches_unmarked(pool0, rts, i));
                    }
                    if reaches(pool0, rts, i) {
                        assert(reaches_unmarked(pool0, rts, i));
                    }
                }
            }
        }
    }

    /// Reclaims every live box whose mark bit is clear, clears the mark bit
    /// on every retained box, and returns how many boxes were reclaimed:
    /// the live count before the sweep minus the marked count. One linear
    /// pass; slot indices of retained boxes do not move, so their handles
    /// stay valid, while handles to reclaimed boxes become detectably dead.
    pub fn sweep(&mut self) -> (reclaimed: usize)
        ensures
            final(self)@.len() == old(self)@.len(),
            forall|i: int|
                0 <= i < old(self)@.len() ==> (slot_live(final(self)@, i) <==> slot_marked(
                    old(self)@,
                    i,
                )),
            forall|i: int|
                slot_marked(old(self)@, i) ==> slot_data(final(self)@, i) == slot_data(
                    old(self)@,
                    i,
                ) && !slot_marked(final(self)@, i),
            reclaimed + num_marked(old(self)@) == num_live(old(self)@),
            num_live(final(self)@) == num_marked(old(self)@),
            num_marked(final(self)@) == 0,
    {
        let ghost pool0 = self@;
        let mut reclaimed: usize = 0;
        let mut i: usize = 0;
        while i < self.pool.len()
            invariant
                i <= self.pool.len(),
                self@.len() == pool0.len(),
                reclaimed <= i,
                forall|k: int| 0 <= k < i ==> (slot_live(self@, k) <==> slot_marked(pool0, k)),
                forall|k: int|
                    0 <= k < i && slot_marked(pool0, k) ==> self@[k] == (Some(
                        HeapBox { marked: false, data: slot_data(pool0, k) },
                    )),
                forall|k: int| i <= k < pool0.len() ==> self@[k] == pool0[k],
                reclaimed + num_marked(pool0.subrange(0, i as int)) == num_live(
                    pool0.subrange(0, i as int),
                ),
            decreases self.pool.len() - i,
        {
            let marked_here: bool = match &self.pool[i] {
                Some(b) => b.marked,
                None => false,
            };
            if marked_here {
                match &mut self.pool[i] {
                    Some(b) => {
                        b.marked = false;
                    },
                    None => {},
                }
            } else {
                let live_here: bool = match &self.pool[i] {
                    Some(_) => true,
                    None => false,
                };
                if live_here {
                    self.pool.set(i, None);
                    reclaimed = reclaimed + 1;
                }
            }
            proof {
                assert(pool0.subrange(0, i as int + 1) =~= pool0.subrange(0, i as int).push(
                    pool0[i as int],
                ));
                lemma_count_push(pool0.subrange(0, i as int), pool0[i as int]);
            }
            i = i + 1;
        }
        proof {
            assert(pool0.subrange(0, pool0.len() as int) =~= pool0);
            assert forall|k: int| 0 <= k < self@.len() implies ((self@[k] is Some) <==> (
            pool0[k] is Some && pool0[k]->0.marked)) by {
                assert(slot_live(self@, k) <==> slot_marked(pool0, k));
            }
            assert forall|k: int| 0 <= k < self@.len() && self@[k] is Some implies !self@[k]->0.marked by {
                assert(slot_marked(pool0, k));
            }
            lemma_count_after_sweep(pool0, self@);
        }
        reclaimed
    }
}

/// `pool` after the payload of slot `i` has been replaced by `v`.
pub open spec fn swapped<T: Trace>(pool: Seq<Option<HeapBox<T>>>, i: int, v: T) -> Seq<
    Option<HeapBox<T>>,
> {
    pool.update(i, Some(HeapBox { marked: slot_marked(pool, i), data: v }))
}

/// Marking is idempotent: a second pass from the same roots marks nothing
/// new, because after the first pass every live, unmarked root — and hence
/// every start of an unmarked walk — has already been marked.
pub proof fn lemma_mark_idempotent<T: Trace>(pool: Seq<Option<HeapBox<T>>>, roots: Seq<int>)
    ensures
        marked_after(marked_after(pool, roots), roots) == marked_after(pool, roots),
{
    let p1 = marked_after(pool, roots);
    assert forall|i: int| !reaches_unmarked(p1, roots, i) by {
        if reaches_unmarked(p1, roots, i) {
            let p = choose|p: Seq<int>|
                #[trigger] is_path(p1, p) && path_unmarked(p1, p) && roots.contains(p[0])
                    && p.last() == i;
            let r = p[0];
            assert(slot_live(p1, r) && !slot_marked(p1, r));
            assert(slot_live(pool, r));
            assert(!slot_marked(pool, r) && !reaches_unmarked(pool, roots, r));
            lemma_reaches_root(pool, roots, r);
            assert(false);
        }
    }
    assert forall|i: int|
        0 <= i < pool.len() implies marked_after(p1, roots)[i] == p1[i] by {
        if slot_live(p1, i) {
            assert(slot_marked(p1, i) || reaches_unmarked(p1, roots, i) <==> slot_marked(p1, i));
            assert(p1[i]->0 == (HeapBox { marked: p1[i]->0.marked, data: p1[i]->0.data }));
        }
    }
    assert(marked_after(p1, roots) =~= p1);
}

/// Replacing a payload and reading it back yields the payload just written;
/// the box stays live and its mark bit keeps its value.
pub proof fn lemma_swap_then_dereference<T: Trace>(pool: Seq<Option<HeapBox<T>>>, i: int, v: T)
    requires
        slot_live(pool, i),
    ensures
        slot_live(swapped(pool, i, v), i),
        slot_data(swapped(pool, i, v), i) == v,
        slot_marked(swapped(pool, i, v), i) == slot_marked(pool, i),
{
}

} // verus!
