use futures_join::futures_unordered::FuturesUnordered;
use futures_join::join_all::{
    collect_futures, collect_sized, join_all, join_all_sized, output_slots, slot_wakers,
    take_outputs, Collected, JoinAll, JoinAllKind,
};
use futures_join::maybe_done::{MaybeDone, TryMaybeDone};
use futures_join::slot_wakers::SlotWakers;
use futures_join::task::Pinned;
use futures_join::try_join_all::{sweep, try_join_all, FinalState};
use futures_join::wake_groups::{Shared, WakeGroups};
use std::future::{ready, Future, Ready};
use std::pin::Pin;
use std::sync::atomic::{AtomicUsize, Ordering};
use std::sync::{Arc, Mutex};
use std::task::{Context, Poll, Wake, Waker};

/// Counts the wake-ups of a task.
struct Task(AtomicUsize);

impl Wake for Task {
    fn wake(self: Arc<Self>) {
        self.0.fetch_add(1, Ordering::SeqCst);
    }
}

fn task() -> (Arc<Task>, Waker) {
    let task = Arc::new(Task(AtomicUsize::new(0)));
    (task.clone(), Waker::from(task))
}

impl Task {
    fn wakes(&self) -> usize {
        self.0.load(Ordering::SeqCst)
    }
}

/// What a [`Probe`] does when it is polled, and what was done to it.
struct State {
    output: Option<Result<usize, usize>>,
    yields: bool,
    polls: usize,
    dropped: bool,
    waker: Option<Waker>,
    /// The wakers that it wakes when it is polled.
    others: Vec<Waker>,
}

/// A future that a test completes and looks at.
struct Probe(Arc<Mutex<State>>);

impl Future for Probe {
    type Output = Result<usize, usize>;

    fn poll(self: Pin<&mut Self>, cx: &mut Context<'_>) -> Poll<Result<usize, usize>> {
        let mut state = self.0.lock().unwrap();
        state.polls += 1;
        if let Some(output) = state.output.take() {
            return Poll::Ready(output);
        }
        state.waker = Some(cx.waker().clone());
        if state.yields {
            cx.waker().wake_by_ref();
        }
        for other in state.others.drain(..) {
            other.wake();
        }
        Poll::Pending
    }
}

impl Drop for Probe {
    fn drop(&mut self) {
        self.0.lock().unwrap().dropped = true;
    }
}

struct Probes(Vec<Arc<Mutex<State>>>);

impl Probes {
    fn new(n: usize) -> (Probes, Vec<Probe>) {
        let states: Vec<_> = (0..n)
            .map(|_| {
                Arc::new(Mutex::new(State {
                    output: None,
                    yields: false,
                    polls: 0,
                    dropped: false,
                    waker: None,
                    others: vec![],
                }))
            })
            .collect();
        let probes = states.iter().map(|state| Probe(state.clone())).collect();
        (Probes(states), probes)
    }

    /// Makes the next poll return `output`.
    fn set(&self, i: usize, output: Result<usize, usize>) {
        self.0[i].lock().unwrap().output = Some(output);
    }

    fn wake(&self, i: usize) {
        let waker = self.0[i].lock().unwrap().waker.clone();
        waker.unwrap().wake();
    }

    /// Makes the next poll of future `i` wake future `other`.
    fn wakes(&self, i: usize, other: usize) {
        let waker = self.0[other].lock().unwrap().waker.clone();
        self.0[i].lock().unwrap().others.push(waker.unwrap());
    }

    fn yields(&self, i: usize, yields: bool) {
        self.0[i].lock().unwrap().yields = yields;
    }

    fn polls(&self) -> Vec<usize> {
        self.0.iter().map(|state| state.lock().unwrap().polls).collect()
    }

    fn dropped(&self) -> Vec<bool> {
        self.0.iter().map(|state| state.lock().unwrap().dropped).collect()
    }
}

#[test]
fn no_futures() {
    let (_, waker) = task();
    let cx = &mut Context::from_waker(&waker);
    let none: Vec<Ready<Result<u8, u8>>> = Vec::new();
    assert_eq!(join_all(none.into_iter()).poll(cx), Poll::Ready(vec![]));
    let none: Vec<Ready<Result<u8, u8>>> = Vec::new();
    assert_eq!(try_join_all(none.into_iter()).poll(cx), Poll::Ready(Ok(vec![])));
}

#[test]
fn few_futures_are_all_polled() {
    let (task, waker) = task();
    let cx = &mut Context::from_waker(&waker);
    let (probes, futures) = Probes::new(30);
    let mut joined = join_all(futures.into_iter());
    assert!(joined.poll(cx).is_pending());
    assert_eq!(probes.polls(), vec![1; 30]);
    probes.set(7, Ok(70));
    assert!(joined.poll(cx).is_pending());
    assert_eq!(probes.polls(), vec![2; 30]);
    assert!(joined.poll(cx).is_pending());
    let mut expected = vec![3; 30];
    expected[7] = 2;
    assert_eq!(probes.polls(), expected);
    probes.wake(0);
    assert_eq!(task.wakes(), 1);
    for i in 0..30 {
        probes.set(i, Ok(i));
    }
    let mut outputs: Vec<Result<usize, usize>> = (0..30).map(Ok).collect();
    outputs[7] = Ok(70);
    assert_eq!(joined.poll(cx), Poll::Ready(outputs));
}

#[test]
fn of_many_futures_only_the_woken_ones_are_polled() {
    for n in [31, 100, 5000] {
        let (task, waker) = task();
        let cx = &mut Context::from_waker(&waker);
        let (probes, futures) = Probes::new(n);
        let mut joined = try_join_all(futures.into_iter());
        assert!(joined.poll(cx).is_pending());
        assert_eq!(probes.polls(), vec![1; n]);
        // It yields after polling each future once.
        assert_eq!(task.wakes(), 1);
        assert!(joined.poll(cx).is_pending());
        assert_eq!(probes.polls(), vec![1; n]);
        assert_eq!(task.wakes(), 1);

        probes.wake(n - 1);
        probes.wake(3);
        probes.wake(n - 1);
        assert_eq!(task.wakes(), 2);
        probes.set(3, Ok(33));
        assert!(joined.poll(cx).is_pending());
        let mut expected = vec![1; n];
        expected[3] = 2;
        expected[n - 1] = 2;
        assert_eq!(probes.polls(), expected);

        // A future that has completed is not woken.
        probes.wake(3);
        assert_eq!(task.wakes(), 2);
        assert!(joined.poll(cx).is_pending());
        assert_eq!(probes.polls(), expected);
    }
}

#[test]
fn many_futures_joined_only_poll_the_woken_ones() {
    let (task, waker) = task();
    let cx = &mut Context::from_waker(&waker);
    let (probes, futures) = Probes::new(40);
    let mut joined = join_all(futures.into_iter());
    assert!(joined.poll(cx).is_pending());
    assert!(joined.poll(cx).is_pending());
    assert_eq!(probes.polls(), vec![1; 40]);
    assert_eq!(task.wakes(), 1);
    for i in (0..40).rev() {
        probes.set(i, Ok(i));
        probes.wake(i);
    }
    assert_eq!(task.wakes(), 2);
    assert_eq!(joined.poll(cx), Poll::Ready((0..40).map(Ok).collect::<Vec<_>>()));
    assert_eq!(probes.polls(), vec![2; 40]);
    assert_eq!(probes.dropped(), vec![true; 40]);
}

#[test]
fn two_futures_that_wake_themselves_make_it_yield() {
    let (task, waker) = task();
    let cx = &mut Context::from_waker(&waker);
    let (probes, futures) = Probes::new(35);
    probes.yields(1, true);
    probes.yields(4, true);
    let mut joined = try_join_all(futures.into_iter());
    assert!(joined.poll(cx).is_pending());
    let mut expected = vec![0; 35];
    for i in 0..5 {
        expected[i] = 1;
    }
    assert_eq!(probes.polls(), expected);
    assert_eq!(task.wakes(), 1);
    probes.yields(1, false);
    probes.yields(4, false);
    // The others are taken up before those that have woken themselves.
    assert!(joined.poll(cx).is_pending());
    let mut expected = vec![1; 35];
    expected[1] = 2;
    expected[4] = 2;
    assert_eq!(probes.polls(), expected);
}

#[test]
fn an_error_cancels_the_other_futures() {
    for n in [3, 30, 31, 60] {
        let (_, waker) = task();
        let cx = &mut Context::from_waker(&waker);
        let (probes, futures) = Probes::new(n);
        probes.set(0, Ok(5));
        probes.set(1, Err(6));
        probes.set(2, Err(7));
        let mut joined = try_join_all(futures.into_iter());
        assert_eq!(joined.poll(cx), Poll::Ready(Err(6)));
        let mut expected = vec![0; n];
        expected[0] = 1;
        expected[1] = 1;
        assert_eq!(probes.polls(), expected);
        assert_eq!(probes.dropped(), vec![true; n]);
    }
}

#[test]
fn an_error_that_comes_later_ends_the_wait() {
    for n in [3, 31] {
        let (task, waker) = task();
        let cx = &mut Context::from_waker(&waker);
        let (probes, futures) = Probes::new(n);
        let mut joined = try_join_all(futures.into_iter());
        assert!(joined.poll(cx).is_pending());
        assert!(joined.poll(cx).is_pending());
        let before = task.wakes();
        probes.set(2, Err(9));
        probes.wake(2);
        assert_eq!(task.wakes(), before + 1);
        assert_eq!(joined.poll(cx), Poll::Ready(Err(9)));
        assert_eq!(probes.dropped(), vec![true; n]);
    }
}

#[test]
fn polled_after_completion_gives_nothing() {
    for n in [2, 31] {
        let (_, waker) = task();
        let cx = &mut Context::from_waker(&waker);
        let mut joined = join_all((0..n).map(ready));
        assert_eq!(joined.poll(cx), Poll::Ready((0..n).collect::<Vec<_>>()));
        assert_eq!(joined.poll(cx), Poll::Ready(vec![]));
        let mut joined = try_join_all((0..n).map(|i| ready(Err::<u8, usize>(i))));
        assert_eq!(joined.poll(cx), Poll::Ready(Err(0)));
        assert_eq!(joined.poll(cx), Poll::Ready(Ok(vec![])));
    }
}

#[test]
fn wakers_that_outlive_a_closed_wait_do_not_wake_its_task() {
    for n in [31, 50] {
        let (task, waker) = task();
        let cx = &mut Context::from_waker(&waker);
        let (probes, futures) = Probes::new(n);
        let mut joined = join_all(futures.into_iter());
        assert!(joined.poll(cx).is_pending());
        assert!(joined.poll(cx).is_pending());
        joined.close();
        drop(joined);
        let before = task.wakes();
        probes.wake(1);
        assert_eq!(task.wakes(), before);

        let (probes, futures) = Probes::new(n);
        let mut joined = try_join_all(futures.into_iter());
        assert!(joined.poll(cx).is_pending());
        assert!(joined.poll(cx).is_pending());
        joined.close();
        let before = task.wakes();
        probes.wake(1);
        assert_eq!(task.wakes(), before);
    }
}

#[test]
fn wakers_of_many_futures_work_from_other_tasks() {
    let (first, first_waker) = task();
    let (second, second_waker) = task();
    let (probes, futures) = Probes::new(31);
    let mut joined = join_all(futures.into_iter());
    assert!(joined.poll(&mut Context::from_waker(&first_waker)).is_pending());
    assert!(joined.poll(&mut Context::from_waker(&first_waker)).is_pending());
    assert!(joined.poll(&mut Context::from_waker(&second_waker)).is_pending());
    let before = first.wakes();
    probes.wake(0);
    assert_eq!(first.wakes(), before);
    assert_eq!(second.wakes(), 1);
}

fn small(joined: &JoinAll<Ready<usize>>) -> bool {
    matches!(joined.kind(), JoinAllKind::Small { .. })
}

#[test]
fn the_bounds_on_the_number_decide_first() {
    let futures = |n: usize| (0..n).map(ready);
    assert!(small(&join_all_sized(futures(30), (30, Some(30)))));
    assert!(!small(&join_all_sized(futures(31), (31, Some(31)))));
    // Bounds that settle it are not held against the futures.
    assert!(small(&join_all_sized(futures(40), (0, Some(30)))));
    assert!(!small(&join_all_sized(futures(5), (31, None))));
    // Inconclusive bounds.
    assert!(small(&join_all_sized(futures(30), (0, None))));
    assert!(!small(&join_all_sized(futures(31), (0, None))));
    assert!(small(&join_all_sized(futures(30), (30, Some(31)))));
    assert!(!small(&join_all_sized(futures(31), (30, Some(31)))));
}

#[test]
fn the_bounds_of_the_iterator_are_used() {
    assert!(small(&join_all((0..30).map(ready))));
    assert!(!small(&join_all((0..31).map(ready))));
    assert!(small(&join_all((0..31).filter(|i| *i != 3).map(ready))));
    assert!(!small(&join_all((0..40).filter(|i| *i != 3).map(ready))));
    assert!(small(&JoinAll::from_iter((0..0).map(ready))));
}

#[test]
fn futures_are_collected_in_order() {
    let wrap = |future: Ready<usize>| MaybeDone::Future(Pinned::new(future));
    let (_, waker) = task();
    let cx = &mut Context::from_waker(&waker);
    match collect_futures((0..3).map(ready), wrap) {
        Collected::Small(mut elems) => {
            assert_eq!(elems.len(), 3);
            for (i, elem) in elems.iter_mut().enumerate() {
                assert!(elem.poll(cx).is_ready());
                assert!(matches!(elem, MaybeDone::Done(output) if *output == i));
            }
        }
        Collected::Big(_) => unreachable!(),
    }
    match collect_sized((0..3).map(ready), (31, None), wrap) {
        Collected::Big(mut set) => {
            let outputs: Vec<Option<u8>> = output_slots(&set);
            assert_eq!(outputs, vec![None, None, None]);
            for i in 0..3 {
                match set.poll_next(cx) {
                    Poll::Ready(Some(output)) => {
                        assert_eq!((output.index, output.data), (i, i));
                    }
                    _ => unreachable!(),
                }
            }
            assert!(matches!(set.poll_next(cx), Poll::Ready(None)));
            assert_eq!(set.len(), 3);
        }
        Collected::Small(_) => unreachable!(),
    }
}

#[test]
fn outputs_are_taken_in_order() {
    let mut outputs = vec![Some('a'), Some('b')];
    assert_eq!(take_outputs(&mut outputs), vec!['a', 'b']);
    assert_eq!(outputs, vec![]);
}

#[test]
fn wakers_for_more_than_a_few_futures() {
    assert!(slot_wakers(0).is_none());
    assert!(slot_wakers(30).is_none());
    assert!(slot_wakers(31).is_some());
}

#[test]
fn a_set_gives_the_futures_as_they_complete() {
    let (task, waker) = task();
    let cx = &mut Context::from_waker(&waker);
    let (probes, futures) = Probes::new(4);
    let mut set = FuturesUnordered::new(futures);
    probes.set(2, Ok(20));
    match set.poll_next(cx) {
        Poll::Ready(Some(output)) => assert_eq!((output.index, output.data), (2, Ok(20))),
        _ => unreachable!(),
    }
    assert_eq!(probes.polls(), vec![1, 1, 1, 0]);
    assert!(set.poll_next(cx).is_pending());
    assert_eq!(probes.polls(), vec![1, 1, 1, 1]);
    probes.set(3, Err(30));
    probes.set(0, Ok(0));
    probes.wake(3);
    assert_eq!(task.wakes(), 1);
    probes.wake(0);
    for index in [3, 0] {
        match set.poll_next(cx) {
            Poll::Ready(Some(output)) => assert_eq!(output.index, index),
            _ => unreachable!(),
        }
    }
    assert!(set.poll_next(cx).is_pending());
    assert_eq!(probes.polls(), vec![2, 1, 1, 2]);
    assert_eq!(probes.dropped(), vec![true, false, true, true]);
    set.close();
    let before = task.wakes();
    probes.wake(1);
    assert_eq!(task.wakes(), before);
}

#[test]
fn what_a_poll_returned_is_recorded() {
    let mut elem = MaybeDone::Future(Pinned::new(ready(1)));
    assert_eq!(elem.settle(Poll::Pending), Poll::Pending);
    assert!(matches!(elem, MaybeDone::Future(_)));
    assert_eq!(elem.settle(Poll::Ready(3)), Poll::Ready(()));
    assert!(matches!(elem, MaybeDone::Done(3)));

    let future = ready(Ok::<u8, char>(1));
    let mut elem = TryMaybeDone::Future(Pinned::new(future.clone()));
    assert_eq!(elem.settle(Poll::Pending), Poll::Pending);
    assert!(matches!(elem, TryMaybeDone::Future(_)));
    assert_eq!(elem.settle(Poll::Ready(Ok(4))), Poll::Ready(Ok(())));
    assert!(matches!(elem, TryMaybeDone::Done(4)));
    let mut elem = TryMaybeDone::Future(Pinned::new(future));
    assert_eq!(elem.settle(Poll::Ready(Err('e'))), Poll::Ready(Err('e')));
    assert!(matches!(elem, TryMaybeDone::Gone));
}

#[test]
fn an_element_that_has_completed_is_not_polled() {
    let (_, waker) = task();
    let cx = &mut Context::from_waker(&waker);
    let (probes, mut futures) = Probes::new(1);
    let mut elem = MaybeDone::Future(Pinned::new(futures.pop().unwrap()));
    assert_eq!(elem.poll(cx), Poll::Pending);
    probes.set(0, Ok(1));
    assert_eq!(elem.poll(cx), Poll::Ready(()));
    assert_eq!(elem.poll(cx), Poll::Ready(()));
    assert_eq!(probes.polls(), vec![2]);
    let mut elem = TryMaybeDone::Future(Pinned::new(ready(Err::<u8, u8>(4))));
    assert_eq!(elem.try_poll(cx), Poll::Ready(Err(4)));
    let mut elem = TryMaybeDone::Future(Pinned::new(ready(Ok::<u8, u8>(4))));
    assert_eq!(elem.try_poll(cx), Poll::Ready(Ok(())));
    assert_eq!(elem.try_poll(cx), Poll::Ready(Ok(())));
}

fn groups(futures: Vec<Probe>) -> WakeGroups<TryMaybeDone<Probe>> {
    WakeGroups::new(futures.into_iter().map(|future| TryMaybeDone::Future(Pinned::new(future))))
}

#[test]
fn only_the_futures_of_woken_groups_are_polled() {
    let (task, waker) = task();
    let cx = &mut Context::from_waker(&waker);
    let (probes, futures) = Probes::new(20);
    let mut groups = groups(futures);
    assert!(groups.poll(cx).is_pending());
    assert_eq!(probes.polls(), vec![1; 20]);
    assert_eq!(task.wakes(), 1);
    assert!(groups.poll(cx).is_pending());
    assert_eq!(probes.polls(), vec![1; 20]);

    probes.wake(18);
    probes.wake(17);
    probes.wake(3);
    assert_eq!(task.wakes(), 2);
    assert!(groups.poll(cx).is_pending());
    let expected: Vec<usize> = (0..20).map(|i| if i < 8 || i >= 16 { 2 } else { 1 }).collect();
    assert_eq!(probes.polls(), expected);

    for i in 0..20 {
        probes.set(i, Ok(i));
    }
    for i in [0, 8, 16] {
        probes.wake(i);
    }
    assert_eq!(groups.poll(cx), Poll::Ready(Ok(())));
    assert_eq!(groups.poll(cx), Poll::Ready(Ok(())));
    let outputs: Vec<usize> = groups
        .into_elems()
        .into_iter()
        .map(|elem| match elem {
            TryMaybeDone::Done(output) => output,
            _ => unreachable!(),
        })
        .collect();
    assert_eq!(outputs, (0..20).collect::<Vec<_>>());
}

#[test]
fn the_error_of_a_group_is_returned_at_once() {
    let (_, waker) = task();
    let cx = &mut Context::from_waker(&waker);
    let (probes, futures) = Probes::new(20);
    probes.set(9, Err(90));
    probes.set(10, Err(100));
    let mut groups = groups(futures);
    assert_eq!(groups.poll(cx), Poll::Ready(Err(90)));
    let expected: Vec<usize> = (0..20).map(|i| if i < 10 { 1 } else { 0 }).collect();
    assert_eq!(probes.polls(), expected);
}

#[test]
fn two_groups_that_wake_themselves_make_it_yield() {
    let (task, waker) = task();
    let cx = &mut Context::from_waker(&waker);
    let (probes, futures) = Probes::new(40);
    probes.yields(0, true);
    probes.yields(15, true);
    let mut groups = groups(futures);
    assert!(groups.poll(cx).is_pending());
    let expected: Vec<usize> = (0..40).map(|i| if i < 16 { 1 } else { 0 }).collect();
    assert_eq!(probes.polls(), expected);
    assert_eq!(task.wakes(), 1);
    probes.yields(0, false);
    probes.yields(15, false);
    assert!(groups.poll(cx).is_pending());
    let expected: Vec<usize> = (0..40).map(|i| if i < 16 { 2 } else { 1 }).collect();
    assert_eq!(probes.polls(), expected);
}

#[test]
fn wakers_of_closed_groups_do_not_wake() {
    let (task, waker) = task();
    let cx = &mut Context::from_waker(&waker);
    let (probes, futures) = Probes::new(3);
    let mut groups = groups(futures);
    assert!(groups.poll(cx).is_pending());
    assert!(groups.poll(cx).is_pending());
    groups.close();
    let before = task.wakes();
    probes.wake(2);
    assert_eq!(task.wakes(), before);
}

#[test]
fn the_task_of_groups_is_woken_by_the_first_wake_up() {
    let mut shared: Shared<char> = Shared::new(100);
    assert!(shared.is_idle());
    assert_eq!(shared.park('a'), None);
    assert_eq!(shared.wake_by_ref(70), Some('a'));
    assert_eq!(shared.wake_by_ref(70), None);
    assert_eq!(shared.wake_by_ref(2), None);
    assert!(!shared.is_idle());
    assert!(shared.is_ready(70) && shared.is_ready(2) && !shared.is_ready(3));
    // That some group was woken is known already, so nobody is woken.
    assert_eq!(shared.park('b'), None);
    assert_eq!(shared.wake_by_ref(5), None);
    let mut queue = Vec::new();
    shared.take_ready(&mut queue);
    assert_eq!(queue, vec![2, 5, 70]);
    assert!(shared.is_idle());
    assert_eq!(shared.park('c'), Some('b'));
    assert_eq!(shared.take_parent(), Some('c'));
    assert_eq!(shared.wake_by_ref(5), None);
}

#[test]
fn a_group_that_another_one_woke_before_its_turn_has_not_woken_itself() {
    let (task, waker) = task();
    let cx = &mut Context::from_waker(&waker);
    let (probes, futures) = Probes::new(56);
    let mut groups = groups(futures);
    assert!(groups.poll(cx).is_pending());
    assert!(groups.poll(cx).is_pending());
    assert_eq!(probes.polls(), vec![1; 56]);

    probes.wakes(0, 8);
    probes.wakes(0, 16);
    for i in [0, 8, 16] {
        probes.wake(i);
    }
    let before = task.wakes();
    assert!(groups.poll(cx).is_pending());
    let expected: Vec<usize> = (0..56)
        .map(|i| match i / 8 {
            0 => 2,
            1 | 2 => 3,
            _ => 1,
        })
        .collect();
    assert_eq!(probes.polls(), expected);
    assert_eq!(task.wakes(), before);
    probes.wake(55);
    assert_eq!(task.wakes(), before + 1);
}

#[test]
fn a_wake_up_while_a_group_is_polled_is_noticed() {
    let mut shared: Shared<char> = Shared::new(3);
    assert_eq!(shared.wake_by_ref(1), None);
    shared.begin(1);
    assert!(!shared.finish(1));
    shared.begin(1);
    assert_eq!(shared.wake_by_ref(2), None);
    assert!(!shared.finish(1));
    shared.begin(1);
    assert_eq!(shared.wake_by_ref(1), None);
    assert!(shared.finish(1));
}

#[test]
fn seventeen_groups_that_wake_themselves_are_polled_two_at_a_time() {
    let (task, waker) = task();
    let cx = &mut Context::from_waker(&waker);
    let (probes, futures) = Probes::new(17 * 8);
    for i in 0..17 {
        probes.yields(8 * i, true);
    }
    let mut groups = groups(futures);
    for n in 1..4 {
        assert!(groups.poll(cx).is_pending());
        let expected: Vec<usize> = (0..17 * 8).map(|i| if i < 16 * n { 1 } else { 0 }).collect();
        assert_eq!(probes.polls(), expected);
        assert_eq!(task.wakes(), n);
    }
}

fn elems(futures: Vec<Probe>) -> Vec<TryMaybeDone<Probe>> {
    futures.into_iter().map(|future| TryMaybeDone::Future(Pinned::new(future))).collect()
}

#[test]
fn new_elements_are_polled_until_the_limit_and_then_woken_ones() {
    let (task, waker) = task();
    let cx = &mut Context::from_waker(&waker);
    let (probes, futures) = Probes::new(3);
    let mut elems = elems(futures);
    let mut wakers = SlotWakers::new(3);
    assert_eq!(wakers.poll(&mut elems, cx), Poll::Pending);
    assert_eq!(probes.polls(), vec![1, 1, 1]);
    assert_eq!(task.wakes(), 1);
    assert_eq!(wakers.poll(&mut elems, cx), Poll::Pending);
    assert_eq!(probes.polls(), vec![1, 1, 1]);
    assert_eq!(task.wakes(), 1);
    probes.wake(1);
    assert_eq!(task.wakes(), 2);
    assert_eq!(wakers.poll(&mut elems, cx), Poll::Pending);
    assert_eq!(probes.polls(), vec![1, 2, 1]);
    assert_eq!(task.wakes(), 2);

    for i in 0..3 {
        probes.set(i, Ok(i));
        probes.wake(i);
    }
    assert_eq!(task.wakes(), 3);
    assert_eq!(wakers.poll(&mut elems, cx), Poll::Ready(Ok(())));
    assert_eq!(wakers.poll(&mut elems, cx), Poll::Ready(Ok(())));
    assert_eq!(probes.polls(), vec![2, 3, 2]);
    assert_eq!(task.wakes(), 3);
}

#[test]
fn elements_that_wake_themselves_are_polled_two_at_a_time() {
    let (task, waker) = task();
    let cx = &mut Context::from_waker(&waker);
    let (probes, futures) = Probes::new(3);
    for i in 0..3 {
        probes.yields(i, true);
    }
    let mut elems = elems(futures);
    let mut wakers = SlotWakers::new(3);
    for (n, expected) in [vec![1, 1, 0], vec![2, 1, 1], vec![2, 2, 2]].into_iter().enumerate() {
        assert_eq!(wakers.poll(&mut elems, cx), Poll::Pending);
        assert_eq!(probes.polls(), expected);
        assert_eq!(task.wakes(), n + 1);
    }
}

#[test]
fn one_element_that_wakes_itself_is_polled_again() {
    let (task, waker) = task();
    let cx = &mut Context::from_waker(&waker);
    let (probes, futures) = Probes::new(3);
    probes.set(1, Ok(1));
    probes.set(2, Ok(2));
    let mut elems = elems(futures);
    let mut wakers = SlotWakers::new(3);
    assert_eq!(wakers.poll(&mut elems, cx), Poll::Pending);
    assert_eq!(task.wakes(), 1);
    probes.yields(0, true);
    probes.wake(0);
    assert_eq!(wakers.poll(&mut elems, cx), Poll::Pending);
    assert_eq!(probes.polls(), vec![2, 1, 1]);
    assert_eq!(task.wakes(), 2);
}

#[test]
fn closed_slot_wakers_drop_the_waker_of_the_task() {
    let (task, waker) = task();
    let (_, futures) = Probes::new(2);
    let mut elems = elems(futures);
    let mut wakers = SlotWakers::new(2);
    let cx = &mut Context::from_waker(&waker);
    assert_eq!(wakers.poll(&mut elems, cx), Poll::Pending);
    let before = Arc::strong_count(&task);
    assert_eq!(wakers.poll(&mut elems, cx), Poll::Pending);
    assert_eq!(Arc::strong_count(&task), before + 1);
    wakers.close();
    assert_eq!(Arc::strong_count(&task), before);
}

#[test]
fn the_error_of_the_last_of_many_comes_from_the_first_call() {
    let (_, waker) = task();
    let cx = &mut Context::from_waker(&waker);
    let (probes, futures) = Probes::new(31);
    probes.set(30, Err(7));
    let mut joined = try_join_all(futures.into_iter());
    assert_eq!(joined.poll(cx), Poll::Ready(Err(7)));
    assert_eq!(probes.polls(), vec![1; 31]);
    assert_eq!(probes.dropped(), vec![true; 31]);
}

#[test]
fn many_futures_that_were_all_woken_complete_in_the_next_call() {
    let (_, waker) = task();
    let cx = &mut Context::from_waker(&waker);
    let (probes, futures) = Probes::new(31);
    let mut joined = join_all(futures.into_iter());
    assert!(joined.poll(cx).is_pending());
    assert!(joined.poll(cx).is_pending());
    for i in (0..31).rev() {
        probes.set(i, Ok(i));
        probes.wake(i);
    }
    let outputs: Vec<Result<usize, usize>> = (0..31).map(Ok).collect();
    assert_eq!(joined.poll(cx), Poll::Ready(outputs));
    assert_eq!(probes.polls(), vec![2; 31]);
}

#[test]
fn after_an_error_the_other_elements_are_polled() {
    let (_, waker) = task();
    let cx = &mut Context::from_waker(&waker);
    let (probes, futures) = Probes::new(2);
    probes.set(0, Err(5));
    let mut elems = elems(futures);
    let mut wakers = SlotWakers::new(2);
    assert_eq!(wakers.poll(&mut elems, cx), Poll::Ready(Err(5)));
    assert_eq!(probes.polls(), vec![1, 0]);
    assert_eq!(wakers.poll(&mut elems, cx), Poll::Pending);
    probes.set(1, Ok(1));
    probes.wake(1);
    assert_eq!(wakers.poll(&mut elems, cx), Poll::Pending);
    assert_eq!(probes.polls(), vec![1, 2]);
    assert!(matches!(elems[1], TryMaybeDone::Done(1)));
    assert_eq!(wakers.poll(&mut elems, cx), Poll::Pending);
    assert_eq!(probes.polls(), vec![1, 2]);
}

#[test]
fn after_an_error_the_other_groups_are_polled() {
    let (_, waker) = task();
    let cx = &mut Context::from_waker(&waker);
    let (probes, futures) = Probes::new(16);
    probes.set(0, Err(5));
    let mut groups = groups(futures);
    assert_eq!(groups.poll(cx), Poll::Ready(Err(5)));
    for i in 8..16 {
        probes.set(i, Ok(i));
    }
    assert_eq!(groups.poll(cx), Poll::Pending);
    let expected: Vec<usize> = (0..16).map(|i| if i == 0 || i >= 8 { 1 } else { 0 }).collect();
    assert_eq!(probes.polls(), expected);
    assert_eq!(groups.poll(cx), Poll::Pending);
    assert_eq!(probes.polls(), expected);
}

#[test]
fn the_error_of_the_first_of_two_that_fail_is_returned() {
    let (_, waker) = task();
    let cx = &mut Context::from_waker(&waker);
    let (probes, futures) = Probes::new(3);
    probes.set(0, Ok(1));
    probes.set(1, Err(2));
    probes.set(2, Err(3));
    let mut joined = try_join_all(futures.into_iter());
    assert_eq!(joined.poll(cx), Poll::Ready(Err(2)));
    assert_eq!(probes.polls(), vec![1, 1, 0]);
}

#[test]
fn outputs_kept_over_several_calls_stay_in_order() {
    let (_, waker) = task();
    let cx = &mut Context::from_waker(&waker);
    let (probes, futures) = Probes::new(3);
    let mut joined = join_all(futures.into_iter());
    for i in [1, 2, 0] {
        assert!(joined.poll(cx).is_pending());
        probes.set(i, Ok(10 * i));
    }
    assert_eq!(joined.poll(cx), Poll::Ready(vec![Ok(0), Ok(10), Ok(20)]));
}

#[test]
fn a_sweep_polls_each_future_once_up_to_the_first_that_fails() {
    let (_, waker) = task();
    let cx = &mut Context::from_waker(&waker);
    let (probes, futures) = Probes::new(4);
    let mut elems = elems(futures);
    assert!(matches!(sweep(&mut elems, cx), FinalState::Pending));
    assert_eq!(probes.polls(), vec![1; 4]);
    probes.set(0, Ok(0));
    probes.set(2, Err(7));
    probes.set(3, Err(8));
    assert!(matches!(sweep(&mut elems, cx), FinalState::Error(7)));
    assert_eq!(probes.polls(), vec![2, 2, 2, 1]);
    assert_eq!(probes.dropped(), vec![true, false, true, false]);
    assert!(matches!(elems[0], TryMaybeDone::Done(0)));
    assert!(matches!(elems[2], TryMaybeDone::Gone));

    let (probes, futures) = Probes::new(2);
    probes.set(0, Ok(0));
    probes.set(1, Ok(1));
    let mut elems: Vec<_> =
        futures.into_iter().map(|future| TryMaybeDone::Future(Pinned::new(future))).collect();
    assert!(matches!(sweep(&mut elems, cx), FinalState::AllDone));
    assert!(matches!(sweep(&mut elems, cx), FinalState::AllDone));
    assert_eq!(probes.polls(), vec![1, 1]);
}

#[test]
fn the_waker_of_the_last_call_is_woken() {
    let (first, first_waker) = task();
    let (second, second_waker) = task();
    let (probes, futures) = Probes::new(3);
    let mut elems = elems(futures);
    let mut wakers = SlotWakers::new(3);
    assert_eq!(wakers.poll(&mut elems, &mut Context::from_waker(&first_waker)), Poll::Pending);
    assert_eq!(wakers.poll(&mut elems, &mut Context::from_waker(&first_waker)), Poll::Pending);
    assert_eq!(wakers.poll(&mut elems, &mut Context::from_waker(&second_waker)), Poll::Pending);
    let before = first.wakes();
    probes.wake(2);
    assert_eq!(first.wakes(), before);
    assert_eq!(second.wakes(), 1);
    probes.wake(1);
    assert_eq!(second.wakes(), 1);
}

#[test]
fn four_woken_groups_are_all_polled() {
    let (task, waker) = task();
    let cx = &mut Context::from_waker(&waker);
    let (probes, futures) = Probes::new(32);
    let mut groups = groups(futures);
    assert!(groups.poll(cx).is_pending());
    assert!(groups.poll(cx).is_pending());
    assert_eq!(probes.polls(), vec![1; 32]);
    probes.wakes(0, 8);
    probes.wakes(0, 16);
    for i in [0, 8, 16, 24] {
        probes.wake(i);
    }
    let before = task.wakes();
    assert!(groups.poll(cx).is_pending());
    assert_eq!(probes.polls(), vec![2; 32]);
    assert_eq!(task.wakes(), before + 1);
}
