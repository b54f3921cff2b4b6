use futures_join::budget::Budget;
use futures_join::maybe_done::TryMaybeDone;
use futures_join::slots::{Dequeue, Inner};
use futures_join::task::Pinned;
use std::future::Ready;

type Elem = TryMaybeDone<Ready<Result<u32, u32>>>;

fn elems(len: usize) -> Vec<Elem> {
    (0..len).map(|_| TryMaybeDone::Future(Pinned::new(std::future::ready(Ok(0))))).collect()
}

fn started(len: usize) -> Inner<char> {
    let mut inner = Inner::new(len);
    for index in 0..len {
        inner.start(index);
    }
    inner
}

#[test]
fn slots_are_taken_in_the_order_of_their_wake_ups() {
    let elems = elems(4);
    let mut inner = started(4);
    for index in [2, 0, 3] {
        assert_eq!(inner.wake_by_ref(index), None);
    }
    for index in [2, 0, 3] {
        assert_eq!(inner.next(&elems), Dequeue::Data(index));
    }
    assert_eq!(inner.next(&elems), Dequeue::Empty);
    assert!(inner.is_idle());
}

#[test]
fn a_slot_is_in_the_queue_once() {
    let elems = elems(2);
    let mut inner = started(2);
    inner.wake_by_ref(1);
    inner.wake_by_ref(1);
    inner.wake_by_ref(0);
    inner.wake_by_ref(1);
    assert_eq!(inner.next(&elems), Dequeue::Data(1));
    assert!(!inner.was_woken(1) && inner.was_woken(0));
    inner.wake_by_ref(1);
    assert!(inner.was_woken(1));
    assert_eq!(inner.next(&elems), Dequeue::Data(0));
    assert_eq!(inner.next(&elems), Dequeue::Data(1));
    assert_eq!(inner.next(&elems), Dequeue::Empty);
}

#[test]
fn a_slot_that_was_never_polled_is_not_woken() {
    let elems = elems(2);
    let mut inner: Inner<char> = Inner::new(2);
    assert_eq!(inner.park('p'), None);
    assert_eq!(inner.wake_by_ref(0), None);
    assert!(inner.is_idle());
    assert_eq!(inner.next(&elems), Dequeue::Empty);
    inner.start(0);
    assert_eq!(inner.wake_by_ref(0), Some('p'));
    assert_eq!(inner.next(&elems), Dequeue::Data(0));
}

#[test]
fn a_slot_is_started_once() {
    let elems = elems(3);
    let mut inner = started(3);
    inner.wake_by_ref(1);
    inner.start(1);
    assert!(inner.was_woken(1));
    assert_eq!(inner.next(&elems), Dequeue::Data(1));
    assert_eq!(inner.next(&elems), Dequeue::Empty);
}

#[test]
fn a_completed_slot_is_not_woken() {
    let mut elems = elems(2);
    let mut inner = started(2);
    elems[0] = TryMaybeDone::Done(1);
    inner.complete(0);
    inner.wake_by_ref(0);
    assert!(inner.is_idle());
    assert_eq!(inner.next(&elems), Dequeue::Empty);
}

#[test]
fn a_slot_whose_future_has_completed_is_skipped() {
    let mut elems = elems(3);
    let mut inner = started(3);
    inner.wake_by_ref(0);
    inner.wake_by_ref(1);
    inner.wake_by_ref(2);
    elems[0] = TryMaybeDone::Done(1);
    elems[1] = TryMaybeDone::Gone;
    assert_eq!(inner.next(&elems), Dequeue::Data(2));
    assert_eq!(inner.next(&elems), Dequeue::Empty);
}

#[test]
fn the_parent_is_woken_once_after_each_announcement() {
    let mut inner = started(3);
    assert_eq!(inner.wake_by_ref(0), None);
    assert_eq!(inner.park('a'), None);
    assert_eq!(inner.wake_by_ref(0), None);
    assert_eq!(inner.wake_by_ref(1), Some('a'));
    assert_eq!(inner.wake_by_ref(2), None);
    assert_eq!(inner.park('b'), None);
    assert_eq!(inner.park('c'), Some('b'));
    assert_eq!(inner.take_parent(), Some('c'));
    assert_eq!(inner.take_parent(), None);
}

#[test]
fn a_closed_parent_is_not_woken() {
    let mut inner = started(1);
    inner.park('a');
    assert_eq!(inner.take_parent(), Some('a'));
    assert_eq!(inner.wake_by_ref(0), None);
    assert!(!inner.is_idle());
}

#[test]
fn a_half_enqueued_first_slot_is_not_visible() {
    let elems = elems(2);
    let mut inner = started(2);
    let previous = inner.start_wake(1);
    assert_eq!(previous, Some(2));
    assert!(!inner.is_idle());
    assert_eq!(inner.next(&elems), Dequeue::Empty);
    assert_eq!(inner.park('p'), None);
    assert_eq!(inner.finish_wake(2, 1), Some('p'));
    assert_eq!(inner.next(&elems), Dequeue::Data(1));
    assert!(inner.is_idle());
}

#[test]
fn a_half_enqueued_later_slot_hides_the_one_before_it() {
    let elems = elems(3);
    let mut inner = started(3);
    inner.wake_by_ref(0);
    assert_eq!(inner.start_wake(2), Some(0));
    assert_eq!(inner.start_wake(2), None);
    assert_eq!(inner.next(&elems), Dequeue::Inconsistent);
    assert_eq!(inner.next(&elems), Dequeue::Inconsistent);
    assert_eq!(inner.finish_wake(0, 2), None);
    assert_eq!(inner.next(&elems), Dequeue::Data(0));
    assert_eq!(inner.next(&elems), Dequeue::Data(2));
    assert_eq!(inner.next(&elems), Dequeue::Empty);
}

#[test]
fn links_may_be_made_in_any_order() {
    let elems = elems(3);
    let mut inner = started(3);
    assert_eq!(inner.start_wake(0), Some(3));
    assert_eq!(inner.start_wake(1), Some(0));
    assert_eq!(inner.finish_wake(0, 1), None);
    assert_eq!(inner.next(&elems), Dequeue::Empty);
    assert_eq!(inner.finish_wake(3, 0), None);
    assert_eq!(inner.next(&elems), Dequeue::Data(0));
    assert_eq!(inner.next(&elems), Dequeue::Data(1));
    assert_eq!(inner.next(&elems), Dequeue::Empty);
}

#[test]
fn no_slots() {
    let mut inner: Inner<char> = Inner::new(0);
    assert!(inner.is_idle());
    assert_eq!(inner.next(&elems(0)), Dequeue::Empty);
}

#[test]
fn the_budget_is_spent_after_its_limit() {
    let mut budget = Budget::new(3);
    assert!(!budget.spend(false));
    assert!(!budget.spend(true));
    assert!(budget.spend(false));
}

#[test]
fn the_budget_is_spent_after_two_yields() {
    let mut budget = Budget::new(100);
    assert!(!budget.spend(true));
    assert!(!budget.spend(false));
    assert!(budget.spend(true));
}
