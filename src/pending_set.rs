//! The pending set: an arena of suspended units, resumed only when woken.

use std::collections::VecDeque;
use vstd::prelude::*;

verus! {

/// The state of one slot of a [`PendingSet`].
#[derive(Debug, PartialEq, Eq)]
pub enum Slot<T> {
    /// Holds no unit; the slot's index is on the free list.
    Vacant,
    /// Holds a suspended unit that waits for a wake.
    Idle(T),
    /// Holds a unit that may be resumed; the slot's index is in the ready queue.
    Queued(T),
    /// Its unit has been handed out for resumption. The flag records a wake
    /// that arrived meanwhile, so that it is not lost.
    Running(bool),
}

/// An unordered set of pending units, each in a slot addressed by a stable
/// index. Vacant slots are reused through a free list, and a queue of slot
/// indices records which units are eligible for resumption.
pub struct PendingSet<T> {
    slots: Vec<Slot<T>>,
    ready: VecDeque<usize>,
    free: Vec<usize>,
    count: usize,
}

/// Whether a slot holds a unit: 1 if it does, 0 if it is vacant.
pub open spec fn weight<T>(s: Slot<T>) -> nat {
    if s is Vacant {
        0
    } else {
        1
    }
}

/// The number of slots in `s` that are not vacant.
pub open spec fn live_count<T>(s: Seq<Slot<T>>) -> nat
    decreases s.len(),
{
    if s.len() == 0 {
        0
    } else {
        live_count(s.drop_last()) + weight(s.last())
    }
}

proof fn lemma_live_count_push<T>(s: Seq<Slot<T>>, v: Slot<T>)
    ensures
        live_count(s.push(v)) == live_count(s) + weight(v),
{
    assert(s.push(v).drop_last() =~= s);
}

proof fn lemma_live_count_update<T>(s: Seq<Slot<T>>, i: int, v: Slot<T>)
    requires
        0 <= i < s.len(),
    ensures
        live_count(s.update(i, v)) + weight(s[i]) == live_count(s) + weight(v),
    decreases s.len(),
{
    let t = s.update(i, v);
    if i == s.len() - 1 {
        assert(t.drop_last() =~= s.drop_last());
    } else {
        assert(t.drop_last() =~= s.drop_last().update(i, v));
        lemma_live_count_update(s.drop_last(), i, v);
    }
}

proof fn lemma_live_count_full<T>(s: Seq<Slot<T>>)
    requires
        forall|i: int| 0 <= i < s.len() ==> !(#[trigger] s[i] is Vacant),
    ensures
        live_count(s) == s.len(),
    decreases s.len(),
{
    if s.len() > 0 {
        lemma_live_count_full(s.drop_last());
    }
}

/// `free` lists exactly the vacant slots of `slots`, each once.
spec fn free_ok<T>(slots: Seq<Slot<T>>, free: Seq<usize>) -> bool {
    &&& free.no_duplicates()
    &&& forall|k: int|
        0 <= k < free.len() ==> {
            &&& #[trigger] free[k] < slots.len()
            &&& slots[free[k] as int] is Vacant
        }
    &&& forall|i: int| 0 <= i < slots.len() && #[trigger] slots[i] is Vacant ==> free.contains(i as usize)
}

/// `ready` lists exactly the queued slots of `slots`, each once.
spec fn ready_ok<T>(slots: Seq<Slot<T>>, ready: Seq<usize>) -> bool {
    &&& ready.no_duplicates()
    &&& forall|k: int|
        0 <= k < ready.len() ==> {
            &&& #[trigger] ready[k] < slots.len()
            &&& slots[ready[k] as int] is Queued
        }
    &&& forall|i: int| 0 <= i < slots.len() && #[trigger] slots[i] is Queued ==> ready.contains(i as usize)
}

proof fn lemma_free_keep<T>(slots: Seq<Slot<T>>, free: Seq<usize>, i: int, v: Slot<T>)
    requires
        free_ok(slots, free),
        0 <= i < slots.len(),
        !(slots[i] is Vacant),
        !(v is Vacant),
    ensures
        free_ok(slots.update(i, v), free),
{
    let t = slots.update(i, v);
    assert forall|k: int| 0 <= k < free.len() implies #[trigger] free[k] < t.len() && t[free[k] as int] is Vacant by {
        assert(slots[free[k] as int] is Vacant);
    }
}

proof fn lemma_free_release<T>(slots: Seq<Slot<T>>, free: Seq<usize>, i: int)
    requires
        free_ok(slots, free),
        0 <= i < slots.len() <= usize::MAX,
        !(slots[i] is Vacant),
    ensures
        free_ok(slots.update(i, Slot::Vacant), free.push(i as usize)),
{
    let t = slots.update(i, Slot::Vacant);
    let f = free.push(i as usize);
    assert(!free.contains(i as usize)) by {
        if free.contains(i as usize) {
            let k = choose|k: int| 0 <= k < free.len() && free[k] == i as usize;
            assert(slots[free[k] as int] is Vacant);
        }
    }
    assert forall|k: int| 0 <= k < f.len() implies #[trigger] f[k] < t.len() && t[f[k] as int] is Vacant by {
        if k < free.len() {
            assert(f[k] == free[k]);
            assert(slots[free[k] as int] is Vacant);
        }
    }
    assert forall|j: int| 0 <= j < t.len() && #[trigger] t[j] is Vacant implies f.contains(j as usize) by {
        if j == i {
            assert(f[free.len() as int] == i as usize);
        } else {
            assert(free.contains(j as usize));
            let k = choose|k: int| 0 <= k < free.len() && free[k] == j as usize;
            assert(f[k] == j as usize);
        }
    }
}

proof fn lemma_ready_keep<T>(slots: Seq<Slot<T>>, ready: Seq<usize>, i: int, v: Slot<T>)
    requires
        ready_ok(slots, ready),
        0 <= i < slots.len(),
        !(slots[i] is Queued),
        !(v is Queued),
    ensures
        ready_ok(slots.update(i, v), ready),
{
    let t = slots.update(i, v);
    assert forall|k: int| 0 <= k < ready.len() implies #[trigger] ready[k] < t.len() && t[ready[k] as int] is Queued by {
        assert(slots[ready[k] as int] is Queued);
    }
}

proof fn lemma_ready_enqueue<T>(slots: Seq<Slot<T>>, ready: Seq<usize>, i: int, u: T)
    requires
        ready_ok(slots, ready),
        0 <= i < slots.len() <= usize::MAX,
        !(slots[i] is Queued),
    ensures
        ready_ok(slots.update(i, Slot::Queued(u)), ready.push(i as usize)),
{
    let t = slots.update(i, Slot::Queued(u));
    let r = ready.push(i as usize);
    assert(!ready.contains(i as usize)) by {
        if ready.contains(i as usize) {
            let k = choose|k: int| 0 <= k < ready.len() && ready[k] == i as usize;
            assert(slots[ready[k] as int] is Queued);
        }
    }
    assert forall|k: int| 0 <= k < r.len() implies #[trigger] r[k] < t.len() && t[r[k] as int] is Queued by {
        if k < ready.len() {
            assert(r[k] == ready[k]);
            assert(slots[ready[k] as int] is Queued);
        }
    }
    assert forall|j: int| 0 <= j < t.len() && #[trigger] t[j] is Queued implies r.contains(j as usize) by {
        if j == i {
            assert(r[ready.len() as int] == i as usize);
        } else {
            assert(ready.contains(j as usize));
            let k = choose|k: int| 0 <= k < ready.len() && ready[k] == j as usize;
            assert(r[k] == j as usize);
        }
    }
}

proof fn lemma_ready_dequeue<T>(slots: Seq<Slot<T>>, ready: Seq<usize>)
    requires
        ready_ok(slots, ready),
        ready.len() > 0,
        slots.len() <= usize::MAX,
    ensures
        ready_ok(slots.update(ready[0] as int, Slot::Running(false)), ready.subrange(1, ready.len() as int)),
{
    let i = ready[0];
    let t = slots.update(i as int, Slot::Running(false));
    let r = ready.subrange(1, ready.len() as int);
    assert forall|k: int| 0 <= k < r.len() implies #[trigger] r[k] < t.len() && t[r[k] as int] is Queued by {
        assert(r[k] == ready[k + 1]);
        assert(ready[k + 1] != ready[0]);
        assert(slots[ready[k + 1] as int] is Queued);
    }
    assert forall|j: int| 0 <= j < t.len() && #[trigger] t[j] is Queued implies r.contains(j as usize) by {
        assert(j != i as int);
        assert(j as usize != i);
        assert(slots[j] is Queued);
        let k = choose|k: int| 0 <= k < ready.len() && ready[k] == j as usize;
        assert(k != 0);
        assert(r[k - 1] == j as usize);
    }
}

/// Puts `s` into slot `i` and hands back what was there.
fn swap_slot<T>(v: &mut Vec<Slot<T>>, i: usize, s: Slot<T>) -> (prev: Slot<T>)
    requires
        i < old(v)@.len(),
    ensures
        prev == old(v)@[i as int],
        final(v)@ == old(v)@.update(i as int, s),
{
    let mut s = s;
    std::mem::swap(&mut v[i], &mut s);
    s
}

impl<T> PendingSet<T> {
    /// The slots, by index.
    pub closed spec fn slots(&self) -> Seq<Slot<T>> {
        self.slots@
    }

    /// The ready queue: indices of the slots to resume, oldest first.
    pub closed spec fn queue(&self) -> Seq<usize> {
        self.ready@
    }

    /// The number of units in the set (every slot that is not vacant).
    pub closed spec fn count(&self) -> nat {
        self.count as nat
    }

    /// Slot `i` exists and holds a unit (possibly one handed out).
    pub open spec fn live(&self, i: int) -> bool {
        0 <= i < self.slots().len() && !(self.slots()[i] is Vacant)
    }

    /// No unit is handed out for resumption.
    pub open spec fn at_rest(&self) -> bool {
        forall|i: int| 0 <= i < self.slots().len() ==> !(#[trigger] self.slots()[i] is Running)
    }

    /// The internal invariant: the count is the number of slots that are not
    /// vacant; the free list holds exactly the vacant slots, once each; the
    /// ready queue holds exactly the queued slots, once each.
    pub closed spec fn wf(&self) -> bool {
        &&& self.count == live_count(self.slots@)
        &&& self.slots@.len() <= usize::MAX
        &&& free_ok(self.slots@, self.free@)
        &&& ready_ok(self.slots@, self.ready@)
    }

    /// The count is the number of slots that hold a unit, and the ready queue
    /// names queued slots only.
    pub proof fn lemma_counted(&self)
        requires
            self.wf(),
        ensures
            self.count() == live_count(self.slots()),
            forall|i: int| #[trigger] self.live(i) ==> self.count() > 0,
            forall|k: int|
                0 <= k < self.queue().len() ==> {
                    &&& #[trigger] self.queue()[k] < self.slots().len()
                    &&& self.slots()[self.queue()[k] as int] is Queued
                },
            self.queue().len() > 0 ==> self.count() > 0,
    {
        assert forall|i: int| #[trigger] self.live(i) implies self.count() > 0 by {
            lemma_live_count_update(self.slots@, i, Slot::Vacant);
        }
        if self.queue().len() > 0 {
            assert(self.live(self.ready@[0] as int));
        }
    }

    /// An empty set.
    pub fn new() -> (s: Self)
        ensures
            s.wf(),
            s.count() == 0,
            s.slots() == Seq::<Slot<T>>::empty(),
            s.queue() == Seq::<usize>::empty(),
    {
        let s = PendingSet { slots: Vec::new(), ready: VecDeque::new(), free: Vec::new(), count: 0 };
        assert(s.slots@.len() == 0);
        s
    }

    /// The number of units in the set.
    pub fn len(&self) -> (r: usize)
        ensures
            r == self.count(),
    {
        self.count
    }

    /// Whether the set holds no unit.
    pub fn is_empty(&self) -> (r: bool)
        ensures
            r == (self.count() == 0),
    {
        self.count == 0
    }

    /// Puts `s` into slot `i`, keeping the count in step.
    fn set_slot(&mut self, i: usize, s: Slot<T>) -> (prev: Slot<T>)
        requires
            i < old(self).slots@.len(),
            old(self).count == live_count(old(self).slots@),
            weight(old(self).slots@[i as int]) == weight(s),
        ensures
            prev == old(self).slots@[i as int],
            final(self).slots@ == old(self).slots@.update(i as int, s),
            final(self).count == old(self).count,
            final(self).count == live_count(final(self).slots@),
            final(self).free == old(self).free,
            final(self).ready == old(self).ready,
    {
        proof {
            lemma_live_count_update(self.slots@, i as int, s);
        }
        swap_slot(&mut self.slots, i, s)
    }

    /// Adds a unit to the set. It is placed in a vacant slot if there is one,
    /// else in a new slot at the end, and is queued for its first resumption.
    pub fn push(&mut self, unit: T) -> (slot: usize)
        requires
            old(self).wf(),
            old(self).count() < usize::MAX,
        ensures
            final(self).wf(),
            final(self).count() == old(self).count() + 1,
            final(self).queue() == old(self).queue().push(slot),
            if slot < old(self).slots().len() {
                &&& old(self).slots()[slot as int] is Vacant
                &&& final(self).slots() == old(self).slots().update(slot as int, Slot::Queued(unit))
            } else {
                &&& slot == old(self).slots().len()
                &&& final(self).slots() == old(self).slots().push(Slot::Queued(unit))
            },
    {
        let ghost s0 = self.slots@;
        let ghost f0 = self.free@;
        let slot: usize;
        match self.free.pop() {
            Some(i) => {
                assert(f0 == self.free@.push(i));
                assert(f0[f0.len() - 1] == i);
                let _ = swap_slot(&mut self.slots, i, Slot::Queued(unit));
                proof {
                    lemma_live_count_update(s0, i as int, Slot::Queued(unit));
                    assert forall|j: int|
                        0 <= j < self.slots@.len() && #[trigger] self.slots@[j] is Vacant implies self.free@.contains(j as usize) by {
                        assert(self.slots@[i as int] is Queued);
                        assert(j != i as int);
                        assert(s0[j] is Vacant);
                        assert(f0.contains(j as usize));
                        let k = choose|k: int| 0 <= k < f0.len() && f0[k] == j as usize;
                        assert(k != f0.len() - 1);
                        assert(self.free@[k] == j as usize);
                    }
                    assert forall|k: int| 0 <= k < self.free@.len() implies
                        #[trigger] self.free@[k] < self.slots@.len() && self.slots@[self.free@[k] as int] is Vacant by {
                        assert(f0[k] == self.free@[k]);
                        assert(f0[k] != f0[f0.len() - 1]);
                    }
                }
                slot = i;
            }
            None => {
                proof {
                    assert forall|j: int| 0 <= j < s0.len() implies !(#[trigger] s0[j] is Vacant) by {
                        if s0[j] is Vacant {
                            assert(f0.contains(j as usize));
                        }
                    }
                    lemma_live_count_full(s0);
                }
                slot = self.slots.len();
                self.slots.push(Slot::Queued(unit));
                proof {
                    lemma_live_count_push(s0, Slot::Queued(unit));
                }
            }
        }
        let ghost r0 = self.ready@;
        assert(!r0.contains(slot)) by {
            if r0.contains(slot) {
                let k = choose|k: int| 0 <= k < r0.len() && r0[k] == slot;
                assert(s0[slot as int] is Queued);
            }
        }
        self.ready.push_back(slot);
        assert forall|i: int|
            0 <= i < self.slots@.len() && #[trigger] self.slots@[i] is Queued implies self.ready@.contains(i as usize) by {
            if i != slot {
                assert(s0[i] is Queued);
                let k = choose|k: int| 0 <= k < r0.len() && r0[k] == i as usize;
                assert(self.ready@[k] == i as usize);
            } else {
                assert(self.ready@[r0.len() as int] == slot);
            }
        }
        self.count = self.count + 1;
        slot
    }

    /// Signals that the unit in `slot` may make progress. An idle unit is
    /// queued; a wake for a unit that is handed out is recorded on it; a wake
    /// for a queued unit, or for a vacant or unknown slot, changes nothing.
    pub fn wake(&mut self, slot: usize)
        requires
            old(self).wf(),
        ensures
            final(self).wf(),
            final(self).count() == old(self).count(),
            match (if slot < old(self).slots().len() { old(self).slots()[slot as int] } else { Slot::Vacant }) {
                Slot::Idle(u) => {
                    &&& final(self).slots() == old(self).slots().update(slot as int, Slot::Queued(u))
                    &&& final(self).queue() == old(self).queue().push(slot)
                },
                Slot::Running(_) => {
                    &&& final(self).slots() == old(self).slots().update(slot as int, Slot::Running(true))
                    &&& final(self).queue() == old(self).queue()
                },
                _ => {
                    &&& final(self).slots() == old(self).slots()
                    &&& final(self).queue() == old(self).queue()
                },
            },
    {
        if slot >= self.slots.len() {
            return;
        }
        let ghost s0 = self.slots@;
        proof {
            lemma_live_count_update(s0, slot as int, Slot::Vacant);
        }
        let cur = swap_slot(&mut self.slots, slot, Slot::Vacant);
        match cur {
            Slot::Idle(u) => {
                proof {
                    lemma_live_count_update(s0, slot as int, Slot::Queued(u));
                    lemma_free_keep(s0, self.free@, slot as int, Slot::Queued(u));
                    lemma_ready_enqueue(s0, self.ready@, slot as int, u);
                    assert(s0.update(slot as int, Slot::Vacant).update(slot as int, Slot::Queued(u))
                        =~= s0.update(slot as int, Slot::Queued(u)));
                }
                let _ = swap_slot(&mut self.slots, slot, Slot::Queued(u));
                self.ready.push_back(slot);
            }
            Slot::Running(_) => {
                proof {
                    lemma_live_count_update(s0, slot as int, Slot::Running(true));
                    lemma_free_keep(s0, self.free@, slot as int, Slot::Running(true));
                    lemma_ready_keep(s0, self.ready@, slot as int, Slot::Running(true));
                    assert(s0.update(slot as int, Slot::Vacant).update(slot as int, Slot::Running(true))
                        =~= s0.update(slot as int, Slot::Running(true)));
                }
                let _ = swap_slot(&mut self.slots, slot, Slot::Running(true));
            }
            other => {
                let _ = swap_slot(&mut self.slots, slot, other);
                assert(self.slots@ =~= s0);
            }
        }
    }

    /// Hands out the unit at the front of the ready queue for resumption,
    /// with its slot, or `None` when no unit is queued.
    pub fn take_ready(&mut self) -> (r: Option<(usize, T)>)
        requires
            old(self).wf(),
        ensures
            final(self).wf(),
            final(self).count() == old(self).count(),
            match r {
                None => {
                    &&& old(self).queue().len() == 0
                    &&& final(self).slots() == old(self).slots()
                    &&& final(self).queue() == old(self).queue()
                },
                Some((i, u)) => {
                    &&& old(self).queue().len() > 0
                    &&& i == old(self).queue()[0]
                    &&& old(self).slots()[i as int] == Slot::Queued(u)
                    &&& final(self).slots() == old(self).slots().update(i as int, Slot::Running(false))
                    &&& final(self).queue() == old(self).queue().subrange(1, old(self).queue().len() as int)
                },
            },
    {
        match self.ready.pop_front() {
            None => None,
            Some(i) => {
                let ghost s0 = self.slots@;
                let ghost r0 = old(self).ready@;
                proof {
                    assert(r0[0] == i);
                    lemma_free_keep(s0, self.free@, i as int, Slot::Running(false));
                    lemma_ready_dequeue(s0, r0);
                    lemma_live_count_update(s0, i as int, Slot::Running(false));
                }
                let prev = swap_slot(&mut self.slots, i, Slot::Running(false));
                match prev {
                    Slot::Queued(u) => Some((i, u)),
                    _ => {
                        assert(false);
                        None
                    },
                }
            },
        }
    }

    /// Puts back a handed-out unit that could not finish. It waits for a wake,
    /// unless one arrived while it was out, in which case it is queued.
    pub fn suspend(&mut self, slot: usize, unit: T)
        requires
            old(self).wf(),
            slot < old(self).slots().len(),
            old(self).slots()[slot as int] is Running,
        ensures
            final(self).wf(),
            final(self).count() == old(self).count(),
            if old(self).slots()[slot as int] == Slot::<T>::Running(true) {
                &&& final(self).slots() == old(self).slots().update(slot as int, Slot::Queued(unit))
                &&& final(self).queue() == old(self).queue().push(slot)
            } else {
                &&& final(self).slots() == old(self).slots().update(slot as int, Slot::Idle(unit))
                &&& final(self).queue() == old(self).queue()
            },
    {
        let ghost s0 = self.slots@;
        let woken = match &self.slots[slot] {
            Slot::Running(w) => *w,
            _ => false,
        };
        if woken {
            proof {
                lemma_free_keep(s0, self.free@, slot as int, Slot::Queued(unit));
                lemma_ready_enqueue(s0, self.ready@, slot as int, unit);
            }
            let _ = self.set_slot(slot, Slot::Queued(unit));
            self.ready.push_back(slot);
        } else {
            proof {
                lemma_free_keep(s0, self.free@, slot as int, Slot::Idle(unit));
                lemma_ready_keep(s0, self.ready@, slot as int, Slot::Idle(unit));
            }
            let _ = self.set_slot(slot, Slot::Idle(unit));
        }
    }

    /// Puts a continuation of a handed-out unit back into its slot, queued so
    /// that it is eligible for the next resumption.
    pub fn requeue(&mut self, slot: usize, unit: T)
        requires
            old(self).wf(),
            slot < old(self).slots().len(),
            old(self).slots()[slot as int] is Running,
        ensures
            final(self).wf(),
            final(self).count() == old(self).count(),
            final(self).slots() == old(self).slots().update(slot as int, Slot::Queued(unit)),
            final(self).queue() == old(self).queue().push(slot),
    {
        proof {
            lemma_free_keep(self.slots@, self.free@, slot as int, Slot::Queued(unit));
            lemma_ready_enqueue(self.slots@, self.ready@, slot as int, unit);
        }
        let _ = self.set_slot(slot, Slot::Queued(unit));
        self.ready.push_back(slot);
    }

    /// Removes a handed-out unit that has finished: its slot becomes vacant
    /// and the count drops by one.
    pub fn finish(&mut self, slot: usize)
        requires
            old(self).wf(),
            slot < old(self).slots().len(),
            old(self).slots()[slot as int] is Running,
        ensures
            final(self).wf(),
            final(self).count() + 1 == old(self).count(),
            final(self).slots() == old(self).slots().update(slot as int, Slot::Vacant),
            final(self).queue() == old(self).queue(),
    {
        proof {
            lemma_live_count_update(self.slots@, slot as int, Slot::Vacant);
            lemma_free_release(self.slots@, self.free@, slot as int);
            lemma_ready_keep(self.slots@, self.ready@, slot as int, Slot::Vacant);
        }
        let _ = swap_slot(&mut self.slots, slot, Slot::Vacant);
        self.free.push(slot);
        self.count = self.count - 1;
    }
}

} // verus!
