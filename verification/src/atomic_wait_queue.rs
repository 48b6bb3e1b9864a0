//! A status cell with an attached queue of waiters for later statuses.
//!
//! Models one monotonically rising status together with the work waiting on it.
//! Registration and status raises are a single operation each, so a waiter is
//! never queued for a status that has already been published, and a raise never
//! misses a waiter. Chunk generation keeps one per chunk, where statuses are
//! published in order and dependents wait for a particular one.

use vstd::prelude::*;

verus! {

/// Status value reserved to mean "this queue will accept no further waiters".
pub const CANCELLED_STATUS: u16 = 0xffff;

/// Outcome of trying to wait for a status.
#[derive(Debug)]
pub enum WaitOutcome<T> {
    /// The status was already past the one waited for; the payload is handed
    /// straight back rather than queued.
    AlreadySatisfied(T),
    /// The payload is queued and will be returned by a later raise.
    Registered,
    /// The queue is cancelled and will never satisfy this wait.
    Cancelled(T),
}

/// A monotonic status with a queue of waiters for higher statuses.
pub struct AtomicWaitQueue<T> {
    status: u16,
    /// The waiters, the one registered last at the end.
    waiters: Vec<(u16, T)>,
}

/// A sequence from its end to its start.
pub open spec fn backwards<A>(s: Seq<A>) -> Seq<A> {
    Seq::new(s.len(), |i: int| s[s.len() - 1 - i])
}

/// The payloads that a status satisfies, in the order of the queue.
pub open spec fn satisfied<T>(queue: Seq<(u16, T)>, status: u16) -> Seq<T>
    decreases queue.len(),
{
    if queue.len() == 0 {
        Seq::empty()
    } else {
        let before = satisfied(queue.drop_last(), status);
        if queue.last().0 < status {
            before.push(queue.last().1)
        } else {
            before
        }
    }
}

/// The waiters that a status does not satisfy, in the order of the queue.
pub open spec fn unsatisfied<T>(queue: Seq<(u16, T)>, status: u16) -> Seq<(u16, T)>
    decreases queue.len(),
{
    if queue.len() == 0 {
        Seq::empty()
    } else {
        let before = unsatisfied(queue.drop_last(), status);
        if queue.last().0 < status {
            before
        } else {
            before.push(queue.last())
        }
    }
}

/// The payloads of some waiters.
pub open spec fn payloads<T>(queue: Seq<(u16, T)>) -> Seq<T> {
    Seq::new(queue.len(), |i: int| queue[i].1)
}

impl<T> AtomicWaitQueue<T> {
    /// The status, which the cancelled one is, too.
    pub closed spec fn level(&self) -> u16 {
        self.status
    }

    /// The waiters, the one registered last first.
    pub closed spec fn queue(&self) -> Seq<(u16, T)> {
        backwards(self.waiters@)
    }

    /// No waiter is queued that the status satisfies, and a cancelled queue is
    /// empty.
    pub open spec fn well_formed(&self) -> bool {
        &&& forall|i: int| 0 <= i < self.queue().len() ==> (#[trigger] self.queue()[i]).0
            >= self.level()
        &&& self.level() == CANCELLED_STATUS ==> self.queue().len() == 0
    }

    /// Creates a queue at `initial_status` with no waiters.
    #[must_use]
    pub fn new(initial_status: u16) -> (r: Self)
        ensures
            r.well_formed(),
            r.level() == initial_status,
            r.queue() == Seq::<(u16, T)>::empty(),
    {
        let r = AtomicWaitQueue { status: initial_status, waiters: Vec::new() };
        assert(r.queue() =~= Seq::<(u16, T)>::empty());
        r
    }

    /// Current status, or `None` once cancelled.
    #[must_use]
    pub fn status(&self) -> (r: Option<u16>)
        ensures
            r == if self.level() == CANCELLED_STATUS {
                None
            } else {
                Some(self.level())
            },
    {
        if self.status == CANCELLED_STATUS {
            None
        } else {
            Some(self.status)
        }
    }

    /// Queues `payload` until the status rises past `wait_for`.
    ///
    /// Returns the payload immediately when the status is already past it, or
    /// when the queue is cancelled.
    pub fn wait(&mut self, wait_for: u16, payload: T) -> (r: WaitOutcome<T>)
        requires
            old(self).well_formed(),
        ensures
            final(self).well_formed(),
            final(self).level() == old(self).level(),
            if old(self).level() == CANCELLED_STATUS {
                r == WaitOutcome::Cancelled(payload) && final(self).queue() == old(self).queue()
            } else if old(self).level() > wait_for {
                r == WaitOutcome::AlreadySatisfied(payload) && final(self).queue() == old(
                    self).queue()
            } else {
                r == WaitOutcome::<T>::Registered && final(self).queue() == seq![(
                    wait_for,
                    payload,
                )] + old(self).queue()
            },
    {
        if self.status == CANCELLED_STATUS {
            return WaitOutcome::Cancelled(payload);
        }
        if self.status > wait_for {
            return WaitOutcome::AlreadySatisfied(payload);
        }
        self.waiters.push((wait_for, payload));
        proof {
            assert(self.queue() =~= seq![(wait_for, payload)] + old(self).queue());
            assert forall|i: int| 0 <= i < self.queue().len() implies (#[trigger] self.queue()[i]).0
                >= self.level() by {
                if i > 0 {
                    assert(self.queue()[i] == old(self).queue()[i - 1]);
                }
            }
        }
        WaitOutcome::Registered
    }

    /// Raises the status and returns every newly satisfied payload.
    ///
    /// Waiters that need a later status stay queued. A raise that does not
    /// exceed the current status does nothing, so raises may come in either
    /// order.
    pub fn advance_and_notify(&mut self, new_status: u16) -> (r: Vec<T>)
        requires
            old(self).well_formed(),
            new_status != CANCELLED_STATUS,
        ensures
            final(self).well_formed(),
            if old(self).level() == CANCELLED_STATUS || new_status <= old(self).level() {
                r@.len() == 0 && final(self).level() == old(self).level() && final(self).queue()
                    == old(self).queue()
            } else {
                &&& final(self).level() == new_status
                &&& r@ == satisfied(old(self).queue(), new_status)
                &&& final(self).queue() == unsatisfied(old(self).queue(), new_status)
            },
    {
        let mut woken: Vec<T> = Vec::new();
        if self.status == CANCELLED_STATUS || new_status <= self.status {
            return woken;
        }
        self.status = new_status;
        let mut detached: Vec<(u16, T)> = Vec::new();
        std::mem::swap(&mut detached, &mut self.waiters);
        let ghost all = backwards(detached@);
        assert(all == old(self).queue());
        let mut kept: Vec<(u16, T)> = Vec::new();
        assert(all.subrange(0, 0) =~= Seq::<(u16, T)>::empty());
        while detached.len() > 0
            invariant
                detached@.len() <= all.len(),
                all.subrange(all.len() - detached@.len(), all.len() as int) == backwards(
                    detached@,
                ),
                woken@ == satisfied(all.subrange(0, all.len() - detached@.len()), new_status),
                kept@ == unsatisfied(all.subrange(0, all.len() - detached@.len()), new_status),
            decreases detached@.len(),
        {
            let waiter = detached.pop().unwrap();
            proof {
                let n = all.len() - detached@.len() - 1;
                let before = all.subrange(n, all.len() as int);
                assert(before[0] == waiter);
                assert(all[n] == waiter);
                assert(all.subrange(0, n + 1).drop_last() =~= all.subrange(0, n));
                assert(all.subrange(n + 1, all.len() as int) =~= backwards(detached@)) by {
                    assert forall|i: int| 0 <= i < detached@.len() implies all[n + 1 + i]
                        == backwards(detached@)[i] by {
                        assert(before[i + 1] == all[n + 1 + i]);
                    }
                }
            }
            if new_status > waiter.0 {
                woken.push(waiter.1);
            } else {
                kept.push(waiter);
            }
        }
        assert(all.subrange(0, all.len() as int) =~= all);
        let ghost wanted = kept@;
        while kept.len() > 0
            invariant
                kept@.len() <= wanted.len(),
                kept@ == wanted.subrange(0, kept@.len() as int),
                self.status == new_status,
                self.waiters@.len() == wanted.len() - kept@.len(),
                forall|i: int|
                    0 <= i < self.waiters@.len() ==> #[trigger] self.waiters@[i]
                        == wanted[wanted.len() - 1 - i],
            decreases kept@.len(),
        {
            let waiter = kept.pop().unwrap();
            self.waiters.push(waiter);
        }
        proof {
            assert(self.queue() =~= wanted);
            lemma_unsatisfied(all, new_status);
        }
        woken
    }

    /// Marks the queue as accepting no further waiters and hands back everything
    /// still queued.
    pub fn cancel(&mut self) -> (r: Vec<T>)
        requires
            old(self).well_formed(),
        ensures
            final(self).well_formed(),
            final(self).level() == CANCELLED_STATUS,
            final(self).queue() == Seq::<(u16, T)>::empty(),
            r@ == payloads(old(self).queue()),
    {
        self.status = CANCELLED_STATUS;
        let mut detached: Vec<(u16, T)> = Vec::new();
        std::mem::swap(&mut detached, &mut self.waiters);
        let ghost all = backwards(detached@);
        let ghost start = detached@;
        let mut discarded: Vec<T> = Vec::new();
        while detached.len() > 0
            invariant
                detached@.len() <= start.len(),
                detached@ == start.subrange(0, detached@.len() as int),
                all == backwards(start),
                discarded@.len() == start.len() - detached@.len(),
                forall|i: int|
                    0 <= i < discarded@.len() ==> #[trigger] discarded@[i] == all[i].1,
            decreases detached@.len(),
        {
            let waiter = detached.pop().unwrap();
            discarded.push(waiter.1);
        }
        proof {
            assert(self.queue() =~= Seq::<(u16, T)>::empty());
            assert(discarded@ =~= payloads(all));
        }
        discarded
    }
}

impl<T> Default for AtomicWaitQueue<T> {
    fn default() -> (r: Self)
        ensures
            r.well_formed(),
            r.level() == 0,
            r.queue() == Seq::<(u16, T)>::empty(),
    {
        AtomicWaitQueue::new(0)
    }
}

proof fn lemma_unsatisfied<T>(queue: Seq<(u16, T)>, status: u16)
    ensures
        forall|i: int|
            0 <= i < unsatisfied(queue, status).len() ==> (#[trigger] unsatisfied(
                queue,
                status,
            )[i]).0 >= status,
    decreases queue.len(),
{
    if queue.len() > 0 {
        lemma_unsatisfied(queue.drop_last(), status);
        let before = unsatisfied(queue.drop_last(), status);
        let now = unsatisfied(queue, status);
        assert forall|i: int| 0 <= i < now.len() implies (#[trigger] now[i]).0 >= status by {
            if i < before.len() {
                assert(now[i] == before[i]);
            }
        }
    }
}

/// A raise loses no waiter and wakes none twice: the payloads that were queued
/// are those that are woken together with those that stay.
pub proof fn a_raise_accounts_for_every_waiter<T>(queue: Seq<(u16, T)>, status: u16)
    ensures
        payloads(queue).to_multiset() == satisfied(queue, status).to_multiset().add(
            payloads(unsatisfied(queue, status)).to_multiset(),
        ),
    decreases queue.len(),
{
    let woken = satisfied(queue, status);
    let kept = unsatisfied(queue, status);
    if queue.len() == 0 {
        assert(payloads(queue) =~= Seq::<T>::empty());
        assert(payloads(kept) =~= Seq::<T>::empty());
        broadcast use vstd::seq_lib::group_to_multiset_ensures;

        assert(Seq::<T>::empty().to_multiset() =~= vstd::multiset::Multiset::<T>::empty());
        assert(vstd::multiset::Multiset::<T>::empty().add(vstd::multiset::Multiset::<T>::empty())
            =~= vstd::multiset::Multiset::<T>::empty());
    } else {
        let rest = queue.drop_last();
        let last = queue.last();
        a_raise_accounts_for_every_waiter(rest, status);
        let before = satisfied(rest, status);
        let stayed = unsatisfied(rest, status);
        assert(payloads(queue) =~= payloads(rest).push(last.1));
        vstd::seq_lib::to_multiset_build(payloads(rest), last.1);
        if last.0 < status {
            vstd::seq_lib::to_multiset_build(before, last.1);
        } else {
            assert(payloads(kept) =~= payloads(stayed).push(last.1));
            vstd::seq_lib::to_multiset_build(payloads(stayed), last.1);
        }
        assert(payloads(queue).to_multiset() =~= woken.to_multiset().add(
            payloads(kept).to_multiset(),
        ));
    }
}

/// A raise wakes a waiter exactly if it passes the status waited for.
pub proof fn a_waiter_is_woken_once_its_status_is_passed<T>(
    queue: Seq<(u16, T)>,
    status: u16,
    i: int,
)
    requires
        0 <= i < queue.len(),
    ensures
        queue[i].0 < status ==> satisfied(queue, status).contains(queue[i].1),
        queue[i].0 >= status ==> unsatisfied(queue, status).contains(queue[i]),
    decreases queue.len(),
{
    let woken = satisfied(queue, status);
    let kept = unsatisfied(queue, status);
    let rest = queue.drop_last();
    if i == queue.len() - 1 {
        if queue[i].0 < status {
            assert(woken[woken.len() - 1] == queue[i].1);
        } else {
            assert(kept[kept.len() - 1] == queue[i]);
        }
    } else {
        a_waiter_is_woken_once_its_status_is_passed(rest, status, i);
        assert(rest[i] == queue[i]);
        if queue[i].0 < status {
            let before = satisfied(rest, status);
            let k = choose|k: int| 0 <= k < before.len() && before[k] == queue[i].1;
            assert(woken[k] == before[k]);
        } else {
            let before = unsatisfied(rest, status);
            let k = choose|k: int| 0 <= k < before.len() && before[k] == queue[i];
            assert(kept[k] == before[k]);
        }
    }
}

/// Two raises in a row do what the higher one alone would have done: the same
/// waiters stay, in the same order, and the same payloads are woken in all.
pub proof fn raises_compose<T>(queue: Seq<(u16, T)>, low: u16, high: u16)
    requires
        low <= high,
    ensures
        unsatisfied(unsatisfied(queue, low), high) == unsatisfied(queue, high),
        satisfied(queue, low).to_multiset().add(
            satisfied(unsatisfied(queue, low), high).to_multiset(),
        ) == satisfied(queue, high).to_multiset(),
    decreases queue.len(),
{
    let first = satisfied(queue, low);
    let left = unsatisfied(queue, low);
    if queue.len() == 0 {
        broadcast use vstd::seq_lib::group_to_multiset_ensures;

        assert(first.to_multiset().add(satisfied(left, high).to_multiset()) =~= satisfied(
            queue,
            high,
        ).to_multiset());
    } else {
        let rest = queue.drop_last();
        raises_compose(rest, low, high);
        let last = queue.last();
        let before = unsatisfied(rest, low);
        if last.0 < low {
            vstd::seq_lib::to_multiset_build(satisfied(rest, low), last.1);
            vstd::seq_lib::to_multiset_build(satisfied(rest, high), last.1);
        } else {
            assert(before.push(last).drop_last() =~= before);
            if last.0 < high {
                vstd::seq_lib::to_multiset_build(satisfied(before, high), last.1);
                vstd::seq_lib::to_multiset_build(satisfied(rest, high), last.1);
            }
        }
        assert(first.to_multiset().add(satisfied(left, high).to_multiset()) =~= satisfied(
            queue,
            high,
        ).to_multiset());
    }
}

/// A waiter behind the others is woken behind them, or waits on behind them,
/// as its status was passed or not.
pub proof fn waiters_keep_their_order<T>(queue: Seq<(u16, T)>, wait_for: u16, one: T, status: u16)
    ensures
        ({
            let more = queue.push((wait_for, one));
            if wait_for < status {
                satisfied(more, status) == satisfied(queue, status).push(one) && unsatisfied(
                    more,
                    status,
                ) == unsatisfied(queue, status)
            } else {
                satisfied(more, status) == satisfied(queue, status) && unsatisfied(more, status)
                    == unsatisfied(queue, status).push((wait_for, one))
            }
        }),
        satisfied(Seq::<(u16, T)>::empty(), status) == Seq::<T>::empty(),
        unsatisfied(Seq::<(u16, T)>::empty(), status) == Seq::<(u16, T)>::empty(),
{
    assert(queue.push((wait_for, one)).drop_last() =~= queue);
}

} // verus!
