use futures_join::join_all::{join_all, JoinAll};
use futures_join::try_join_all::{try_join_all, TryJoinAll};
use std::fmt::Debug;
use std::future::{pending, ready, Future, Ready};
use std::pin::Pin;
use std::sync::atomic::{AtomicUsize, Ordering};
use std::sync::{Arc, Mutex};
use std::task::{Context, Poll, Wake, Waker};

/// Counts the wake-ups of a task.
struct Counter {
    wakes: AtomicUsize,
}

impl Counter {
    fn new() -> Arc<Counter> {
        Arc::new(Counter { wakes: AtomicUsize::new(0) })
    }

    fn count(&self) -> usize {
        self.wakes.load(Ordering::SeqCst)
    }
}

impl Wake for Counter {
    fn wake(self: Arc<Self>) {
        self.wakes.fetch_add(1, Ordering::SeqCst);
    }
}

fn block_on<F: Future>(future: F) -> F::Output {
    let mut future = Box::pin(future);
    let counter = Counter::new();
    let waker = Waker::from(counter.clone());
    loop {
        let before = counter.count();
        if let Poll::Ready(output) = future.as_mut().poll(&mut Context::from_waker(&waker)) {
            return output;
        }
        assert!(counter.count() > before, "the task waits for a wake-up that will not come");
    }
}

fn assert_done<T>(actual_fut: impl Future<Output = T>, expected: T)
where
    T: PartialEq + Debug,
{
    let output = block_on(actual_fut);
    assert_eq!(output, expected);
}

fn ok<T, E>(value: T) -> Ready<Result<T, E>> {
    ready(Ok(value))
}

fn err<T, E>(error: E) -> Ready<Result<T, E>> {
    ready(Err(error))
}

struct Shared<T> {
    value: Option<T>,
    waker: Option<Waker>,
}

struct Sender<T>(Arc<Mutex<Shared<T>>>);

struct Receiver<T>(Arc<Mutex<Shared<T>>>);

fn channel<T>() -> (Sender<T>, Receiver<T>) {
    let shared = Arc::new(Mutex::new(Shared { value: None, waker: None }));
    (Sender(shared.clone()), Receiver(shared))
}

impl<T> Sender<T> {
    fn send(self, value: T) {
        let waker = {
            let mut shared = self.0.lock().unwrap();
            shared.value = Some(value);
            shared.waker.take()
        };
        if let Some(waker) = waker {
            waker.wake();
        }
    }
}

impl<T> Future for Receiver<T> {
    type Output = Result<T, ()>;

    fn poll(self: Pin<&mut Self>, cx: &mut Context<'_>) -> Poll<Result<T, ()>> {
        let mut shared = self.0.lock().unwrap();
        match shared.value.take() {
            Some(value) => Poll::Ready(Ok(value)),
            None => {
                shared.waker = Some(cx.waker().clone());
                Poll::Pending
            }
        }
    }
}

/// Wakes itself and is pending once.
struct Yield(bool);

impl Future for Yield {
    type Output = ();

    fn poll(mut self: Pin<&mut Self>, cx: &mut Context<'_>) -> Poll<()> {
        if self.0 {
            return Poll::Ready(());
        }
        self.0 = true;
        cx.waker().wake_by_ref();
        Poll::Pending
    }
}

#[test]
fn future_join_all_collect_collects() {
    assert_done(join_all(vec![ready(1), ready(2)].into_iter()), vec![1, 2]);
    assert_done(join_all(vec![ready(1)].into_iter()), vec![1]);
}

#[test]
fn join_all_iter_lifetime() {
    fn sizes(bufs: Vec<&[u8]>) -> impl Future<Output = Vec<usize>> {
        let iter = bufs.into_iter().map(|b| ready::<usize>(b.len()));
        join_all(iter)
    }

    assert_done(sizes(vec![&[1, 2, 3], &[], &[0]]), vec![3_usize, 0, 1]);
}

#[test]
fn join_all_from_iter() {
    assert_done(JoinAll::from_iter(vec![ready(1), ready(2)].into_iter()), vec![1, 2])
}

#[test]
fn join_all_preserves_order() {
    for n in [0, 1, 30, 31, 100] {
        let noop = Waker::from(Counter::new());
        let (txs, rxs): (Vec<_>, Vec<_>) = (0..n).map(|_| channel()).unzip();
        let mut fut = join_all(rxs.into_iter());
        if n > 0 {
            assert!(Pin::new(&mut fut).poll(&mut Context::from_waker(&noop)).is_pending());
        }
        // Complete the futures in reverse order.
        for (i, tx) in txs.into_iter().enumerate().rev() {
            tx.send(i);
        }
        let expected: Vec<_> = (0..n).map(Ok).collect();
        assert_eq!(
            Pin::new(&mut fut).poll(&mut Context::from_waker(&noop)),
            Poll::Ready(expected)
        );
    }
}

#[test]
fn join_all_unbounded_size_hint() {
    for n in [0, 1, 30, 31, 100] {
        let iter = (0..).take_while(|&i| i < n).map(ready);
        assert_eq!(iter.size_hint(), (0, None));
        assert_done(join_all(iter), (0..n).collect::<Vec<_>>());
    }
}

#[test]
fn future_try_join_all_collect_collects() {
    assert_done(try_join_all(vec![ok(1), ok(2)].into_iter()), Ok::<_, usize>(vec![1, 2]));
    assert_done(try_join_all(vec![ok(1), err(2)].into_iter()), Err(2));
    assert_done(try_join_all(vec![ok(1)].into_iter()), Ok::<_, usize>(vec![1]));
}

#[test]
fn try_join_all_iter_lifetime() {
    fn sizes(bufs: Vec<&[u8]>) -> impl Future<Output = Result<Vec<usize>, ()>> {
        let iter = bufs.into_iter().map(|b| ok::<usize, ()>(b.len()));
        try_join_all(iter)
    }

    assert_done(sizes(vec![&[1, 2, 3], &[], &[0]]), Ok(vec![3_usize, 0, 1]));
}

#[test]
fn try_join_all_from_iter() {
    assert_done(
        TryJoinAll::from_iter(vec![ok(1), ok(2)].into_iter()),
        Ok::<_, usize>(vec![1, 2]),
    )
}

#[test]
fn try_join_all_preserves_order() {
    for n in [1, 30, 31, 100] {
        // Futures that complete in reverse order.
        let futures = (0..n).map(|i| async move {
            for _ in i..n {
                Yield(false).await;
            }
            Ok::<_, ()>(i)
        });
        assert_done(try_join_all(futures), Ok((0..n).collect::<Vec<_>>()));
    }
}

#[test]
fn try_join_all_returns_first_error_immediately() {
    for n in [2, 30, 31, 100] {
        // The first future never completes, the last one fails.
        let futures = (0..n).map(|i| {
            let future: Pin<Box<dyn Future<Output = Result<usize, usize>>>> = if i == 0 {
                Box::pin(pending())
            } else if i == n - 1 {
                Box::pin(err(i))
            } else {
                Box::pin(ok(i))
            };
            future
        });
        assert_done(try_join_all(futures), Err(n - 1));
    }
}
