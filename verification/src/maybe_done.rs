//! Futures together with the outputs that they have completed with.
use crate::progress;
use crate::progress::{Gives, Progress, Waiting};
use crate::task;
use crate::task::Pinned;
use std::future::Future;
use std::pin::Pin;
use std::task::{Context, Poll, Waker};
use vstd::prelude::*;

verus! {

/// An element that is polled until it has completed.
pub trait PollElem: Sized {
    /// The future of the element.
    type Fut;

    /// What the element holds once it has completed.
    type Out;

    /// What the element may fail with.
    type Error;

    /// Whether polling the future that waits, with a context of waker `waker`, has given
    /// `result`.
    spec fn gives(
        waiting: Waiting<Self::Fut>,
        waker: Waker,
        result: Poll<Result<Self::Out, Self::Error>>,
    ) -> bool;

    /// How far the element has come.
    spec fn progress(&self) -> Progress<Self::Fut, Self::Out>;

    /// Tells whether the element has not completed yet.
    fn is_pending(&self) -> (pending: bool)
        ensures
            pending == (self.progress() is Pending),
    ;

    /// Polls an element that has not completed, returning `Poll::Ready(Ok(()))`
    /// once it has.
    fn poll_elem(&mut self, cx: &mut Context<'_>) -> (signal: Poll<Result<(), Self::Error>>)
        requires
            old(self).progress() is Pending,
            progress::live(old(self).progress()),
        ensures
            progress::polled(
                old(self).progress(),
                final(self).progress(),
                task::context_waker(*old(cx)),
                signal,
            ),
            Self::gives(
                old(self).progress()->Pending_0,
                task::context_waker(*old(cx)),
                progress::returned(final(self).progress(), signal),
            ),
    ;
}

/// What polling elements gives.
pub open spec fn giving<T: PollElem>() -> Gives<T::Fut, T::Out, T::Error> {
    |waiting: Waiting<T::Fut>, waker: Waker, result: Poll<Result<T::Out, T::Error>>|
        T::gives(waiting, waker, result)
}

/// A future, or the output that it has completed with.
#[verifier::reject_recursive_types(F)]
pub enum MaybeDone<F: Future> {
    /// A future that has not completed.
    Future(Pinned<F>),
    /// The output of a future that has completed.
    Done(F::Output),
}

impl<F: Future> View for MaybeDone<F> {
    type V = Progress<F, F::Output>;

    open spec fn view(&self) -> Progress<F, F::Output> {
        match *self {
            MaybeDone::Future(future) => Progress::Pending(future@),
            MaybeDone::Done(output) => Progress::Done(output),
        }
    }
}

/// Whether polling the future of `before` once, with the context `cx`, has made `after` of
/// the element and has given `signal`: what the future has returned was recorded.
pub open spec fn polled_once<F: Future>(
    before: MaybeDone<F>,
    after: MaybeDone<F>,
    cx: Context<'_>,
    signal: Poll<()>,
) -> bool {
    exists|result: Poll<F::Output>|
        {
            &&& #[trigger] task::gave(before->Future_0.pointer(), cx, result)
            &&& after@ == progress::settle(
                before@,
                task::context_waker(cx),
                after@->Pending_0.pointer,
                progress::succeeding(result),
            )
            &&& progress::succeeding(signal) == progress::signal(progress::succeeding(result))
        }
}

impl<F: Future> MaybeDone<F> {
    /// Records what the future has returned when it was polled.
    pub fn settle(&mut self, result: Poll<F::Output>) -> (signal: Poll<()>)
        requires
            old(self)@ is Pending,
        ensures
            final(self)@ == progress::recorded(old(self)@, progress::succeeding(result)),
            progress::succeeding(signal) == progress::signal(progress::succeeding(result)),
            result is Ready ==> task::dropped(old(self)->Future_0),
    {
        match result {
            Poll::Pending => Poll::Pending,
            Poll::Ready(output) => {
                let mut past: MaybeDone<F> = MaybeDone::Done(output);
                std::mem::swap(self, &mut past);
                if let MaybeDone::Future(future) = past {
                    task::discard(future);
                }
                Poll::Ready(())
            },
        }
    }

    /// Polls the future unless it has completed.
    pub fn poll(&mut self, cx: &mut Context<'_>) -> (signal: Poll<()>)
        requires
            progress::live(old(self)@),
        ensures
            old(self)@ is Done ==> {
                &&& final(self)@ == old(self)@
                &&& *final(cx) == *old(cx)
                &&& signal == Poll::Ready(())
            },
            old(self)@ is Pending ==> polled_once(*old(self), *final(self), *old(cx), signal),
            old(self)@ is Pending ==> task::handed_on(
                task::context_waker(*old(cx)),
                task::context_waker(*final(cx)),
            ),
            old(self)@ is Pending ==> progress::polled(
                old(self)@,
                final(self)@,
                task::context_waker(*old(cx)),
                progress::succeeding(signal),
            ),
            old(self)@ is Pending ==> task::giving::<F>()(
                old(self)@->Pending_0,
                task::context_waker(*old(cx)),
                progress::returned(final(self)@, progress::succeeding(signal)),
            ),
    {
        match self {
            MaybeDone::Future(future) => {
                let result: Poll<F::Output> = future.poll(cx);
                let ghost past = *future;
                let signal: Poll<()> = self.settle(result);
                assert(signal is Ready ==> task::dropped(past));
                signal
            },
            MaybeDone::Done(_) => Poll::Ready(()),
        }
    }
}

/// A future that returns a `Result`.
pub trait TryFuture: Future {
    /// What the future yields when it succeeds.
    type Ok;

    /// What the future yields when it fails.
    type Error;

    /// Whether polling `future` with the context `cx` has given `result`.
    spec fn try_gave(
        future: Pin<Box<Self>>,
        cx: Context<'_>,
        result: Poll<Result<Self::Ok, Self::Error>>,
    ) -> bool where Self: Sized;

    /// Polls the future.
    fn try_poll(future: &mut Pinned<Self>, cx: &mut Context<'_>) -> (result: Poll<
        Result<Self::Ok, Self::Error>,
    >) where Self: Sized
        requires
            !old(future)@.finished,
        ensures
            final(future)@ == old(future)@.after(
                task::context_waker(*old(cx)),
                final(future)@.pointer,
                result,
            ),
            Self::try_gave(old(future).pointer(), *old(cx), result),
            task::handed_on(task::context_waker(*old(cx)), task::context_waker(*final(cx))),
    ;
}

impl<F: Future<Output = Result<T, E>>, T, E> TryFuture for F {
    type Ok = T;

    type Error = E;

    open spec fn try_gave(
        future: Pin<Box<F>>,
        cx: Context<'_>,
        result: Poll<Result<T, E>>,
    ) -> bool {
        task::gave(future, cx, result)
    }

    fn try_poll(future: &mut Pinned<Self>, cx: &mut Context<'_>) -> (result: Poll<Result<T, E>>) {
        future.poll(cx)
    }
}

/// Whether polling the future that `pointer` points to, with a context of waker `waker`,
/// has given `result`.
pub open spec fn try_given<F: TryFuture>(
    pointer: Pin<Box<F>>,
    waker: Waker,
    result: Poll<Result<F::Ok, F::Error>>,
) -> bool {
    exists|cx: Context<'_>|
        {
            &&& #[trigger] F::try_gave(pointer, cx, result)
            &&& task::context_waker(cx) == waker
        }
}

/// What polling futures that may fail gives. Those that have completed are dropped.
pub open spec fn try_giving<F: TryFuture>() -> Gives<F, F::Ok, F::Error> {
    |waiting: Waiting<F>, waker: Waker, result: Poll<Result<F::Ok, F::Error>>|
        try_given(waiting.pointer, waker, result) && (result is Ready ==> task::let_go(
            waiting,
            waker,
        ))
}

/// A future that may fail, or the output that it has succeeded with.
#[verifier::reject_recursive_types(F)]
pub enum TryMaybeDone<F: TryFuture> {
    /// A future that has not completed.
    Future(Pinned<F>),
    /// The output of a future that has succeeded.
    Done(F::Ok),
    /// The future has failed, and its error was returned.
    Gone,
}

impl<F: TryFuture> View for TryMaybeDone<F> {
    type V = Progress<F, F::Ok>;

    open spec fn view(&self) -> Progress<F, F::Ok> {
        match *self {
            TryMaybeDone::Future(future) => Progress::Pending(future@),
            TryMaybeDone::Done(output) => Progress::Done(output),
            TryMaybeDone::Gone => Progress::Gone,
        }
    }
}

/// Whether polling the future of `before` once, with the context `cx`, has made `after` of
/// the element and has given `signal`: what the future has returned was recorded.
pub open spec fn try_polled_once<F: TryFuture>(
    before: TryMaybeDone<F>,
    after: TryMaybeDone<F>,
    cx: Context<'_>,
    signal: Poll<Result<(), F::Error>>,
) -> bool {
    exists|result: Poll<Result<F::Ok, F::Error>>|
        {
            &&& #[trigger] F::try_gave(before->Future_0.pointer(), cx, result)
            &&& after@ == progress::settle(
                before@,
                task::context_waker(cx),
                after@->Pending_0.pointer,
                result,
            )
            &&& signal == progress::signal(result)
        }
}

impl<F: TryFuture> TryMaybeDone<F> {
    /// Records what the future has returned when it was polled.
    pub fn settle(&mut self, result: Poll<Result<F::Ok, F::Error>>) -> (signal: Poll<
        Result<(), F::Error>,
    >)
        requires
            old(self)@ is Pending,
        ensures
            final(self)@ == progress::recorded(old(self)@, result),
            signal == progress::signal(result),
            result is Ready ==> task::dropped(old(self)->Future_0),
    {
        let (mut past, signal): (TryMaybeDone<F>, Poll<Result<(), F::Error>>) = match result {
            Poll::Pending => {
                return Poll::Pending;
            },
            Poll::Ready(Ok(output)) => (TryMaybeDone::Done(output), Poll::Ready(Ok(()))),
            Poll::Ready(Err(error)) => (TryMaybeDone::Gone, Poll::Ready(Err(error))),
        };
        std::mem::swap(self, &mut past);
        if let TryMaybeDone::Future(future) = past {
            task::discard(future);
        }
        signal
    }

    /// Polls the future unless it has completed.
    pub fn try_poll(&mut self, cx: &mut Context<'_>) -> (signal: Poll<Result<(), F::Error>>)
        requires
            old(self)@ !is Gone,
            progress::live(old(self)@),
        ensures
            old(self)@ is Done ==> {
                &&& final(self)@ == old(self)@
                &&& *final(cx) == *old(cx)
                &&& signal == Poll::Ready(Ok::<(), F::Error>(()))
            },
            old(self)@ is Pending ==> try_polled_once(*old(self), *final(self), *old(cx), signal),
            old(self)@ is Pending ==> task::handed_on(
                task::context_waker(*old(cx)),
                task::context_waker(*final(cx)),
            ),
            old(self)@ is Pending ==> progress::polled(
                old(self)@,
                final(self)@,
                task::context_waker(*old(cx)),
                signal,
            ),
            old(self)@ is Pending ==> try_given(
                old(self)@->Pending_0.pointer,
                task::context_waker(*old(cx)),
                progress::returned(final(self)@, signal),
            ),
            old(self)@ is Pending && signal is Ready ==> task::let_go(
                old(self)@->Pending_0,
                task::context_waker(*old(cx)),
            ),
    {
        match self {
            TryMaybeDone::Future(future) => {
                let result: Poll<Result<F::Ok, F::Error>> = F::try_poll(future, cx);
                let ghost past = *future;
                let signal: Poll<Result<(), F::Error>> = self.settle(result);
                assert(signal is Ready ==> task::dropped(past));
                signal
            },
            _ => Poll::Ready(Ok(())),
        }
    }
}

impl<F: TryFuture> PollElem for TryMaybeDone<F> {
    type Fut = F;

    type Out = F::Ok;

    type Error = F::Error;

    open spec fn gives(
        waiting: Waiting<F>,
        waker: Waker,
        result: Poll<Result<F::Ok, F::Error>>,
    ) -> bool {
        try_given(waiting.pointer, waker, result) && (result is Ready ==> task::let_go(
            waiting,
            waker,
        ))
    }

    open spec fn progress(&self) -> Progress<F, F::Ok> {
        self@
    }

    fn is_pending(&self) -> (pending: bool) {
        matches!(self, TryMaybeDone::Future(_))
    }

    fn poll_elem(&mut self, cx: &mut Context<'_>) -> (signal: Poll<Result<(), F::Error>>)
        ensures
            try_polled_once(*old(self), *final(self), *old(cx), signal),
    {
        self.try_poll(cx)
    }
}

} // verus!
