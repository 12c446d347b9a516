//! The multiplexer: merges the items of many sources as they become ready.

use crate::pending_set::{PendingSet, Slot};
use vstd::prelude::*;

verus! {

/// What one attempt to pull the next item from a source gave.
#[derive(Debug, PartialEq, Eq)]
pub enum Pulled<I, E> {
    /// The source is not ready; it has arranged for its slot to be woken.
    NotReady,
    /// The source's next item.
    Item(I),
    /// The source has no more items.
    Exhausted,
    /// The source failed.
    Failed(E),
}

/// What one poll of a [`SelectAll`] gave.
#[derive(Debug, PartialEq, Eq)]
pub enum Polled<I, E> {
    /// Members remain, but none could make progress; a wake will come.
    Pending,
    /// An item of one member.
    ItemReady(I),
    /// No member is left.
    Completed,
    /// One member failed and was removed; the others stay.
    Failed(E),
}

/// A sequence of items that may have to wait before it can produce the
/// next. `C` is the context that whoever drives the poll hands down.
pub trait Source<C> {
    type Item;

    type Error;

    /// Tries to produce the next item. `slot` names the source's place in the
    /// set: a source that is not ready arranges for a wake of that slot.
    fn pull(&mut self, cx: &mut C, slot: usize) -> Pulled<Self::Item, Self::Error>;
}

/// What a poll reports for one pull result: an item or an error is
/// reported, a wait or an exhaustion is not.
pub open spec fn report<I, E>(pulled: Pulled<I, E>) -> Option<Polled<I, E>> {
    match pulled {
        Pulled::Item(x) => Some(Polled::ItemReady(x)),
        Pulled::Failed(e) => Some(Polled::Failed(e)),
        _ => None,
    }
}

/// Whether a member is still held after a pull with this result.
pub open spec fn stays<I, E>(pulled: Pulled<I, E>) -> bool {
    pulled is NotReady || pulled is Item
}

/// `after` is `before` with the unit `m` at the front of the ready queue,
/// in `slot`, handed out for resumption.
pub open spec fn took<St>(before: PendingSet<St>, after: PendingSet<St>, slot: usize, m: St) -> bool {
    &&& before.queue().len() > 0
    &&& slot == before.queue()[0]
    &&& slot < before.slots().len()
    &&& before.slots()[slot as int] == Slot::Queued(m)
    &&& after.count() == before.count()
    &&& after.slots() == before.slots().update(slot as int, Slot::Running(false))
    &&& after.queue() == before.queue().subrange(1, before.queue().len() as int)
}

/// `after` is `before` once the member `m`, handed out from `slot`, has been
/// pulled with result `pulled`: put back to wait (or queued, if woken
/// meanwhile), re-armed and queued after an item, or removed.
pub open spec fn settled<St, I, E>(
    before: PendingSet<St>,
    after: PendingSet<St>,
    slot: usize,
    m: St,
    pulled: Pulled<I, E>,
) -> bool {
    let woken = before.slots()[slot as int] == Slot::<St>::Running(true);
    match pulled {
        Pulled::NotReady => {
            &&& after.count() == before.count()
            &&& after.slots() == before.slots().update(
                slot as int,
                if woken {
                    Slot::Queued(m)
                } else {
                    Slot::Idle(m)
                },
            )
            &&& after.queue() == if woken {
                before.queue().push(slot)
            } else {
                before.queue()
            }
        },
        Pulled::Item(_) => {
            &&& after.count() == before.count()
            &&& after.slots() == before.slots().update(slot as int, Slot::Queued(m))
            &&& after.queue() == before.queue().push(slot)
        },
        _ => {
            &&& after.count() + 1 == before.count()
            &&& after.slots() == before.slots().update(slot as int, Slot::Vacant)
            &&& after.queue() == before.queue()
        },
    }
}

/// Pulling one member leaves every other member where it was, reports
/// the item or error that the pull gave (and nothing else), and keeps the
/// pulled member in its slot exactly when it is neither exhausted nor
/// failed: after an item it is re-armed, queued for its next pull, so that
/// every item it produces is reported once and it is never lost.
pub proof fn lemma_pull_keeps_members<St, I, E>(
    a: PendingSet<St>,
    b: PendingSet<St>,
    c: PendingSet<St>,
    slot: usize,
    m: St,
    pulled: Pulled<I, E>,
)
    requires
        took(a, b, slot, m),
        settled(b, c, slot, m, pulled),
    ensures
        c.slots().len() == a.slots().len(),
        forall|i: int| 0 <= i < a.slots().len() && i != slot ==> c.slots()[i] == a.slots()[i],
        c.live(slot as int) == stays(pulled),
        pulled is Item ==> c.slots()[slot as int] == Slot::Queued(m) && c.queue().last() == slot,
        c.count() == if stays(pulled) {
            a.count()
        } else {
            (a.count() - 1) as nat
        },
        report(pulled) is Some <==> (pulled is Item || pulled is Failed),
{
    assert(b.slots().len() == a.slots().len());
    assert(c.slots().len() == b.slots().len());
    assert forall|i: int| 0 <= i < a.slots().len() && i != slot implies c.slots()[i] == a.slots()[i] by {
        assert(b.slots()[i] == a.slots()[i]);
    }
}

/// An unbounded set of sources whose items are merged as they become ready.
///
/// Each member sits in a slot of a [`PendingSet`]. A poll resumes only the
/// members that were woken or freshly pushed; a member that yields an item is
/// re-armed in its slot before the item is handed out, and one that is
/// exhausted or fails leaves the set.
pub struct SelectAll<St> {
    inner: PendingSet<St>,
}

impl<St> SelectAll<St> {
    /// The pending set of members.
    pub closed spec fn pending(&self) -> PendingSet<St> {
        self.inner
    }

    /// The number of members.
    pub open spec fn count(&self) -> nat {
        self.pending().count()
    }

    /// The internal invariant.
    pub open spec fn wf(&self) -> bool {
        self.pending().wf()
    }

    /// An empty set, which completes on its first poll.
    pub fn new() -> (s: Self)
        ensures
            s.wf(),
            s.count() == 0,
            s.pending().slots() == Seq::<Slot<St>>::empty(),
            s.pending().queue() == Seq::<usize>::empty(),
    {
        SelectAll { inner: PendingSet::new() }
    }

    /// The number of members in the set.
    pub fn len(&self) -> (r: usize)
        ensures
            r == self.count(),
    {
        self.inner.len()
    }

    /// Whether the set has no member.
    pub fn is_empty(&self) -> (r: bool)
        ensures
            r == (self.count() == 0),
    {
        self.inner.is_empty()
    }

    /// Adds a source to the set. It is not pulled here: it is queued, and
    /// pulled on a later poll. Returns its slot.
    pub fn push(&mut self, stream: St) -> (slot: usize)
        requires
            old(self).wf(),
            old(self).count() < usize::MAX,
        ensures
            final(self).wf(),
            final(self).count() == old(self).count() + 1,
            final(self).pending().queue() == old(self).pending().queue().push(slot),
            if slot < old(self).pending().slots().len() {
                &&& old(self).pending().slots()[slot as int] is Vacant
                &&& final(self).pending().slots() == old(self).pending().slots().update(
                    slot as int,
                    Slot::Queued(stream),
                )
            } else {
                &&& slot == old(self).pending().slots().len()
                &&& final(self).pending().slots() == old(self).pending().slots().push(
                    Slot::Queued(stream),
                )
            },
    {
        self.inner.push(stream)
    }

    /// Signals that the member in `slot` may make progress; see
    /// [`PendingSet::wake`].
    pub fn wake(&mut self, slot: usize)
        requires
            old(self).wf(),
        ensures
            final(self).wf(),
            final(self).count() == old(self).count(),
            match (if slot < old(self).pending().slots().len() {
                old(self).pending().slots()[slot as int]
            } else {
                Slot::Vacant
            }) {
                Slot::Idle(u) => {
                    &&& final(self).pending().slots() == old(self).pending().slots().update(
                        slot as int,
                        Slot::Queued(u),
                    )
                    &&& final(self).pending().queue() == old(self).pending().queue().push(slot)
                },
                Slot::Running(_) => {
                    &&& final(self).pending().slots() == old(self).pending().slots().update(
                        slot as int,
                        Slot::Running(true),
                    )
                    &&& final(self).pending().queue() == old(self).pending().queue()
                },
                _ => {
                    &&& final(self).pending().slots() == old(self).pending().slots()
                    &&& final(self).pending().queue() == old(self).pending().queue()
                },
            },
    {
        self.inner.wake(slot)
    }

    /// Hands out the member at the front of the ready queue, with its slot,
    /// so that it can be pulled; `None` when no member is queued.
    pub fn take_ready(&mut self) -> (r: Option<(usize, St)>)
        requires
            old(self).wf(),
        ensures
            final(self).wf(),
            final(self).count() == old(self).count(),
            match r {
                None => {
                    &&& old(self).pending().queue().len() == 0
                    &&& final(self).pending().slots() == old(self).pending().slots()
                    &&& final(self).pending().queue() == old(self).pending().queue()
                },
                Some((i, u)) => took(old(self).pending(), final(self).pending(), i, u),
            },
    {
        proof {
            self.inner.lemma_counted();
        }
        self.inner.take_ready()
    }

    /// Acts on what pulling the member handed out from `slot` gave, and says
    /// what, if anything, the poll reports.
    ///
    /// A member that is not ready is put back to wait for its wake. One that
    /// yields an item is re-armed in its slot, queued for its next pull, and
    /// the item is reported. One that is exhausted leaves the set silently;
    /// one that fails leaves it and its error is reported.
    pub fn settle<I, E>(&mut self, slot: usize, stream: St, pulled: Pulled<I, E>) -> (r: Option<
        Polled<I, E>,
    >)
        requires
            old(self).wf(),
            slot < old(self).pending().slots().len(),
            old(self).pending().slots()[slot as int] is Running,
        ensures
            final(self).wf(),
            settled(old(self).pending(), final(self).pending(), slot, stream, pulled),
            r == report(pulled),
    {
        match pulled {
            Pulled::NotReady => {
                self.inner.suspend(slot, stream);
                None
            },
            Pulled::Item(x) => {
                self.inner.requeue(slot, stream);
                Some(Polled::ItemReady(x))
            },
            Pulled::Exhausted => {
                self.inner.finish(slot);
                None
            },
            Pulled::Failed(e) => {
                self.inner.finish(slot);
                Some(Polled::Failed(e))
            },
        }
    }

    /// Polls the set: pulls queued members one after another until one yields
    /// an item or fails, or none is queued. Exhausted members are dropped on
    /// the way, and the poll goes on.
    ///
    /// Members that wait for a wake are left as they are, and no member is
    /// added. The poll reports `Completed` exactly when no member is left,
    /// and `Pending` only when members remain but none is queued.
    pub fn poll_next<C>(&mut self, cx: &mut C) -> (r: Polled<St::Item, St::Error>) where
        St: Source<C>,
        requires
            old(self).wf(),
            old(self).pending().at_rest(),
        ensures
            final(self).wf(),
            final(self).pending().at_rest(),
            final(self).count() <= old(self).count(),
            final(self).pending().slots().len() == old(self).pending().slots().len(),
            forall|i: int|
                0 <= i < old(self).pending().slots().len() && (#[trigger] old(
                    self,
                ).pending().slots()[i] is Idle || old(self).pending().slots()[i] is Vacant)
                    ==> final(self).pending().slots()[i] == old(self).pending().slots()[i],
            old(self).count() == 0 ==> {
                &&& r is Completed
                &&& final(self).pending().slots() == old(self).pending().slots()
                &&& final(self).pending().queue() == old(self).pending().queue()
            },
            r is Completed ==> final(self).count() == 0,
            (r is Pending || r is ItemReady) ==> final(self).count() > 0,
            r is Pending ==> final(self).pending().queue().len() == 0,
            r is ItemReady ==> {
                &&& final(self).pending().queue().len() > 0
                &&& final(self).pending().slots()[final(self).pending().queue().last() as int] is Queued
            },
            r is Failed ==> final(self).count() < old(self).count(),
    {
        let ghost s0 = self.pending().slots();
        proof {
            self.pending().lemma_counted();
        }
        loop
            invariant
                self.wf(),
                self.pending().at_rest(),
                self.count() <= old(self).count(),
                self.pending().slots().len() == s0.len(),
                s0 == old(self).pending().slots(),
                forall|i: int|
                    0 <= i < s0.len() && (#[trigger] s0[i] is Idle || s0[i] is Vacant)
                        ==> self.pending().slots()[i] == s0[i],
                old(self).count() == 0 ==> {
                    &&& self.pending().slots() == old(self).pending().slots()
                    &&& self.pending().queue() == old(self).pending().queue()
                },
            decreases self.pending().queue().len(),
        {
            proof {
                self.pending().lemma_counted();
            }
            let ghost before = self.pending();
            match self.take_ready() {
                None => {
                    if self.is_empty() {
                        return Polled::Completed;
                    } else {
                        return Polled::Pending;
                    }
                },
                Some((slot, stream)) => {
                    let mut stream = stream;
                    let pulled = stream.pull(cx, slot);
                    let out = self.settle(slot, stream, pulled);
                    proof {
                        self.pending().lemma_counted();
                        assert forall|i: int|
                            0 <= i < self.pending().slots().len() implies !(
                            #[trigger] self.pending().slots()[i] is Running) by {
                            if i != slot as int {
                                assert(before.slots()[i] == self.pending().slots()[i]);
                            }
                        }
                        assert forall|i: int|
                            0 <= i < s0.len() && (#[trigger] s0[i] is Idle || s0[i] is Vacant)
                                implies self.pending().slots()[i] == s0[i] by {
                            assert(before.slots()[i] == s0[i]);
                            assert(i != slot as int);
                        }
                    }
                    match out {
                        Some(res) => {
                            return res;
                        },
                        None => {},
                    }
                },
            }
        }
    }
}

/// Builds a set holding the given sources, pushed in order: the `i`th source
/// sits in slot `i` and is queued `i`th.
pub fn select_all<St>(streams: Vec<St>) -> (s: SelectAll<St>)
    ensures
        s.wf(),
        s.count() == streams@.len(),
        s.pending().slots().len() == streams@.len(),
        forall|i: int|
            0 <= i < streams@.len() ==> #[trigger] s.pending().slots()[i] == Slot::Queued(
                streams@[i],
            ),
        s.pending().queue() == Seq::new(streams@.len(), |i: int| i as usize),
{
    let ghost items = streams@;
    let total: usize = streams.len();
    let mut set = SelectAll::new();
    for stream in it: streams.into_iter()
        invariant
            it.seq() == items,
            items.len() == total,
            set.wf(),
            set.count() == it.index(),
            set.pending().slots().len() == it.index(),
            forall|i: int|
                0 <= i < it.index() ==> #[trigger] set.pending().slots()[i] == Slot::Queued(
                    items[i],
                ),
            set.pending().queue() == Seq::new(it.index() as nat, |i: int| i as usize),
    {
        let ghost n = set.pending().slots().len();
        let slot = set.push(stream);
        assert(slot == n) by {
            if slot < n {
                assert(set.pending().slots()[slot as int] is Queued);
            }
        }
        assert(set.pending().queue() =~= Seq::new((n + 1) as nat, |i: int| i as usize));
    }
    set
}

} // verus!
