//! The wait queue.

use std::cell::Cell;
use std::rc::Rc;

use steel::atomic_wait_queue::{AtomicWaitQueue, WaitOutcome};

/// A payload that counts when it is dropped.
struct CountsDrops(Rc<Cell<usize>>);

impl Drop for CountsDrops {
    fn drop(&mut self) {
        self.0.set(self.0.get() + 1);
    }
}

#[test]
fn waiting_past_the_current_status_hands_the_payload_straight_back() {
    let mut queue = AtomicWaitQueue::new(5);
    let outcome = queue.wait(4, "done");
    assert!(matches!(outcome, WaitOutcome::AlreadySatisfied("done")));
}

#[test]
fn a_hand_back_leaves_nothing_registered() {
    // The status-only fast path returns without allocating a node. If it ever
    // published one anyway, the payload would be handed back here *and* again
    // by the next raise.
    let mut queue = AtomicWaitQueue::<&str>::new(5);
    assert!(matches!(
        queue.wait(3, "already past"),
        WaitOutcome::AlreadySatisfied("already past")
    ));

    let mut released = Vec::new();
    released.extend(queue.advance_and_notify(6));
    assert!(
        released.is_empty(),
        "the handed-back waiter must not also be queued: {released:?}"
    );
}

#[test]
fn a_cancelled_queue_hands_back_without_registering() {
    let mut queue = AtomicWaitQueue::<&str>::new(0);
    let _ = queue.cancel();
    assert!(matches!(
        queue.wait(9, "after cancel"),
        WaitOutcome::Cancelled("after cancel")
    ));
}

#[test]
fn a_registered_waiter_is_released_only_once_its_status_is_passed() {
    let mut queue = AtomicWaitQueue::new(0);
    assert!(matches!(queue.wait(2, "at-2"), WaitOutcome::Registered));

    let mut woken = Vec::new();
    woken.extend(queue.advance_and_notify(2));
    assert!(woken.is_empty(), "status 2 does not pass a waiter for 2");

    woken.extend(queue.advance_and_notify(3));
    assert_eq!(woken, ["at-2"]);
}

#[test]
fn a_raise_keeps_waiters_that_need_a_later_status() {
    let mut queue = AtomicWaitQueue::new(0);
    assert!(matches!(queue.wait(1, "early"), WaitOutcome::Registered));
    assert!(matches!(queue.wait(9, "late"), WaitOutcome::Registered));

    let mut woken = Vec::new();
    woken.extend(queue.advance_and_notify(5));
    assert_eq!(woken, ["early"]);

    woken.clear();
    woken.extend(queue.advance_and_notify(10));
    assert_eq!(woken, ["late"], "the late waiter survived the first raise");
}

#[test]
fn cancelling_hands_back_every_queued_payload_and_refuses_new_ones() {
    let mut queue = AtomicWaitQueue::new(0);
    assert!(matches!(queue.wait(1, "a"), WaitOutcome::Registered));
    assert!(matches!(queue.wait(2, "b"), WaitOutcome::Registered));

    let mut discarded = Vec::new();
    discarded.extend(queue.cancel());
    discarded.sort_unstable();
    assert_eq!(discarded, ["a", "b"]);

    assert!(queue.status().is_none());
    assert!(matches!(queue.wait(1, "c"), WaitOutcome::Cancelled("c")));
}

#[test]
fn dropping_the_queue_drops_queued_payloads() {
    let drops = Rc::new(Cell::new(0usize));
    {
        let mut queue = AtomicWaitQueue::new(0);
        for _ in 0..3 {
            assert!(matches!(
                queue.wait(1, CountsDrops(Rc::clone(&drops))),
                WaitOutcome::Registered
            ));
        }
    }
    assert_eq!(
        drops.get(),
        3,
        "payloads still queued at drop must not leak"
    );
}

#[test]
fn the_latest_waiter_is_woken_first() {
    let mut queue = AtomicWaitQueue::new(0);
    for name in ["a", "b", "c"] {
        assert!(matches!(queue.wait(1, name), WaitOutcome::Registered));
    }
    assert_eq!(queue.advance_and_notify(2), ["c", "b", "a"]);
    assert_eq!(queue.status(), Some(2));
}

#[test]
fn every_waiter_is_woken_exactly_once() {
    let mut queue = AtomicWaitQueue::<usize>::default();
    let mut woken = Vec::new();
    for i in 0..64usize {
        if let WaitOutcome::AlreadySatisfied(payload) = queue.wait((i % 16) as u16, i) {
            woken.push(payload);
        }
        if i % 7 == 0 {
            woken.extend(queue.advance_and_notify((i / 7) as u16));
        }
    }
    woken.extend(queue.advance_and_notify(17));
    woken.sort_unstable();
    assert_eq!(woken, (0..64usize).collect::<Vec<_>>());
}

#[test]
fn a_lower_raise_changes_nothing() {
    let mut queue = AtomicWaitQueue::new(9);
    assert!(matches!(queue.wait(9, 'x'), WaitOutcome::Registered));
    assert!(queue.advance_and_notify(9).is_empty());
    assert!(queue.advance_and_notify(3).is_empty());
    assert_eq!(queue.status(), Some(9));
    let _ = queue.cancel();
    assert!(queue.advance_and_notify(20).is_empty());
    assert_eq!(queue.status(), None);
}
