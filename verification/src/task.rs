//! The parts of the standard library's task machinery that the combinators are
//! built from, and the pinned futures that they own.
use crate::progress::{Gives, Waiting};
use std::future::Future;
use std::pin::Pin;
use std::task::{Context, Poll, Waker};
use vstd::prelude::*;
use vstd::std_specs::iter::IteratorSpec;

verus! {

/// [`std::task::Waker`], a handle that wakes a task. Nothing is known of what
/// is inside.
#[verifier::external_type_specification]
#[verifier::external_body]
pub struct ExWaker(std::task::Waker);

/// [`std::task::Context`], what a future is polled with. Nothing is known of
/// what is inside.
#[verifier::external_type_specification]
#[verifier::external_body]
pub struct ExContext<'a>(std::task::Context<'a>);

/// [`std::task::Poll`], with its two variants `Ready` and `Pending`.
#[verifier::external_type_specification]
#[verifier::reject_recursive_types(T)]
pub struct ExPoll<T>(std::task::Poll<T>);

/// [`std::pin::Pin`], a pointer to a value that does not move. Nothing is known
/// of what is inside.
#[verifier::external_type_specification]
#[verifier::external_body]
#[verifier::reject_recursive_types(Ptr)]
pub struct ExPin<Ptr>(std::pin::Pin<Ptr>);

/// [`std::task::Waker::wake`] wakes the waker's task and consumes the waker.
/// What the executor does then is not stated.
pub assume_specification[ std::task::Waker::wake ](waker: std::task::Waker);

/// [`std::task::Waker::wake_by_ref`] wakes the waker's task. What the executor
/// does then is not stated.
pub assume_specification[ std::task::Waker::wake_by_ref ](waker: &std::task::Waker);

/// `Clone::clone` on a [`std::task::Waker`] gives a waker of the same task.
/// Wakers are opaque, so nothing is stated of it.
pub assume_specification[ <std::task::Waker as std::clone::Clone>::clone ](
    waker: &std::task::Waker,
) -> std::task::Waker;

/// Whether the task of `waker` was woken through it.
pub closed spec fn woken(waker: std::task::Waker) -> bool {
    ||| call_ensures(std::task::Waker::wake_by_ref, (&waker,), ())
    ||| call_ensures(std::task::Waker::wake, (waker,), ())
}

/// Wakes the task of `waker`.
pub(crate) fn wake(waker: std::task::Waker)
    ensures
        woken(waker),
{
    let wake = std::task::Waker::wake;
    wake(waker)
}

/// Wakes the task of `waker`.
pub(crate) fn wake_by_ref(waker: &std::task::Waker)
    ensures
        woken(*waker),
{
    let wake = std::task::Waker::wake_by_ref;
    wake(waker)
}

/// Whether `copy` was made from `waker`, as a waker of the same task.
pub closed spec fn copied(waker: std::task::Waker, copy: std::task::Waker) -> bool {
    call_ensures(<std::task::Waker as std::clone::Clone>::clone, (&waker,), copy)
}

/// A copy of `waker`.
pub(crate) fn copy(waker: &std::task::Waker) -> (copy: std::task::Waker)
    ensures
        copied(*waker, copy),
{
    let clone = <std::task::Waker as std::clone::Clone>::clone;
    clone(waker)
}

/// Whether `value` was dropped: it was discarded by [`Result::ok`] as the error of a result.
pub closed spec fn dropped<T>(value: T) -> bool {
    call_ensures(Result::<(), T>::ok, (Err(value),), None)
}

/// Drops `value`.
pub(crate) fn discard<T>(value: T)
    ensures
        dropped(value),
{
    let ok = Result::<(), T>::ok;
    let nothing: Option<()> = ok(Err(value));
}

/// The waker of the task that is being polled with `cx`.
pub uninterp spec fn context_waker(cx: std::task::Context<'_>) -> std::task::Waker;

/// [`std::task::Context::waker`] gives the waker of the task that is being polled.
pub assume_specification<'a>[ std::task::Context::<'a>::waker ](
    cx: &std::task::Context<'a>,
) -> (waker: &'a std::task::Waker)
    ensures
        *waker == context_waker(*cx),
;

/// [`std::task::Context::from_waker`] makes a context with the given waker.
pub assume_specification<'a>[ std::task::Context::<'a>::from_waker ](
    waker: &'a std::task::Waker,
) -> (cx: std::task::Context<'a>)
    ensures
        context_waker(cx) == *waker,
;

/// [`std::boxed::Box::pin`] moves a value to the heap and pins it there. Pinned
/// pointers are opaque, so nothing is stated of it.
pub assume_specification<T>[ std::boxed::Box::<T>::pin ](x: T) -> std::pin::Pin<
    std::boxed::Box<T>,
>;

/// Whether pinning `future` on the heap has given `pointer`.
pub closed spec fn pinned<F>(future: F, pointer: Pin<Box<F>>) -> bool {
    call_ensures(std::boxed::Box::<F>::pin, (future,), pointer)
}

/// Whether a poll of a future with a context of waker `before` has left a context of waker
/// `after`.
pub uninterp spec fn handed_on(before: Waker, after: Waker) -> bool;

/// [`std::future::Future::poll`] on a future in a pinned box. What it returns, and what
/// it leaves of the context, is up to the future. So nothing is stated of the result,
/// and of the context only that this is what the poll has left of it.
#[verifier::external_body]
fn poll_pinned<F: Future>(future: &mut Pin<Box<F>>, cx: &mut Context<'_>) -> (result: Poll<
    F::Output,
>)
    ensures
        handed_on(context_waker(*old(cx)), context_waker(*final(cx))),
{
    future.as_mut().poll(cx)
}

/// Whether polling the future that `future` refers to, with the context that `cx` refers
/// to, has given `result`.
pub closed spec fn poll_gave<F: Future>(
    future: &mut Pin<Box<F>>,
    cx: &mut Context<'_>,
    result: Poll<F::Output>,
) -> bool {
    call_ensures(poll_pinned::<F>, (future, cx), result)
}

/// Whether polling `future` with the context `cx` has given `result`.
pub open spec fn gave<F: Future>(
    future: Pin<Box<F>>,
    cx: Context<'_>,
    result: Poll<F::Output>,
) -> bool {
    exists|target: &mut Pin<Box<F>>, context: &mut Context<'_>|
        {
            &&& #[trigger] poll_gave(target, context, result)
            &&& *target == future
            &&& *context == cx
        }
}

/// Whether polling the future that `pointer` points to, with a context of waker `waker`,
/// has given `result`.
pub open spec fn given<F: Future>(
    pointer: Pin<Box<F>>,
    waker: Waker,
    result: Poll<F::Output>,
) -> bool {
    exists|cx: Context<'_>|
        {
            &&& #[trigger] gave(pointer, cx, result)
            &&& context_waker(cx) == waker
        }
}

/// Whether the future that waited, when it was polled once more with `waker` and has
/// completed, was dropped.
pub open spec fn let_go<F>(waiting: Waiting<F>, waker: Waker) -> bool {
    exists|past: Pinned<F>|
        {
            &&& #[trigger] dropped(past)
            &&& past@ == (Waiting {
                tag: past@.tag,
                finished: true,
                ..waiting.again(waker, past@.pointer)
            })
        }
}

/// What polling futures that cannot fail gives. Those that have completed are dropped.
pub open spec fn giving<F: Future>() -> Gives<F, F::Output, ()> {
    |waiting: Waiting<F>, waker: Waker, result: Poll<Result<F::Output, ()>>|
        match result {
            Poll::Pending => given(waiting.pointer, waker, Poll::Pending),
            Poll::Ready(Ok(output)) => given(waiting.pointer, waker, Poll::Ready(output))
                && let_go(waiting, waker),
            Poll::Ready(Err(_)) => false,
        }
}

/// [`std::pin::Pin::get_mut`] gives the value that a pinned reference points to,
/// which may be moved as it is `Unpin`. Pinned pointers are opaque, so nothing is
/// stated of it.
#[verifier::external_body]
fn get_pinned<'a, T: Unpin>(pinned: Pin<&'a mut T>) -> &'a mut T {
    pinned.get_mut()
}

/// Whether `pinned` is a pinned reference to what `target` refers to: `target` is what
/// [`std::pin::Pin::get_mut`] gives for it.
pub closed spec fn points_to<T: Unpin>(pinned: Pin<&mut T>, target: &mut T) -> bool {
    call_ensures(get_pinned::<T>, (pinned,), target)
}

/// The value that a pinned reference points to.
pub(crate) fn unpin<'a, T: Unpin>(pinned: Pin<&'a mut T>) -> (target: &'a mut T)
    ensures
        points_to(pinned, target),
{
    let get = get_pinned::<T>;
    get(pinned)
}

/// [`std::iter::Iterator::size_hint`]. An iterator may give any bounds, so
/// nothing is stated of them.
#[verifier::external_body]
fn size_hint<I: Iterator>(iter: &I) -> (usize, Option<usize>) {
    iter.size_hint()
}

/// Whether `iter` has given `hint` as bounds on the number of items that it yields.
pub closed spec fn hinted<I: Iterator>(iter: I, hint: (usize, Option<usize>)) -> bool {
    call_ensures(size_hint::<I>, (&iter,), hint)
}

/// The bounds that `iter` gives on the number of items that it yields.
pub(crate) fn hint_of<I: Iterator>(iter: &I) -> (hint: (usize, Option<usize>))
    ensures
        hinted(*iter, hint),
{
    let size_hint = size_hint::<I>;
    size_hint(iter)
}

/// Appends the items that `iter` yields to `items`.
pub(crate) fn collect_into<I: Iterator>(items: &mut Vec<I::Item>, iter: I)
    ensures
        old(items)@.is_prefix_of(final(items)@),
        iter.obeys_prophetic_iter_laws() ==> final(items)@ == old(items)@ + iter.remaining(),
{
    let ghost laws = iter.obeys_prophetic_iter_laws();
    let ghost all = items@ + iter.remaining();
    let mut source: I = iter;
    loop
        invariant
            source.obeys_prophetic_iter_laws() == laws,
            old(items)@.is_prefix_of(items@),
            laws ==> items@ + source.remaining() == all,
        ensures
            laws ==> source.remaining().len() == 0,
        decreases usize::MAX - items.len(),
    {
        match source.next() {
            Some(item) => {
                items.push(item);
            },
            None => {
                break ;
            },
        }
    }
}

/// The items that `iter` yields.
pub(crate) fn collect<I: Iterator>(iter: I) -> (items: Vec<I::Item>)
    ensures
        iter.obeys_prophetic_iter_laws() ==> items@ == iter.remaining(),
{
    let mut items: Vec<I::Item> = Vec::new();
    collect_into(&mut items, iter);
    items
}

/// A future on the heap that is never moved again. Its view is the future that
/// it was made from, which tells it apart from other futures whatever polling
/// does to its state, what points to it, how often it was polled, and the waker that it was
/// given last.
#[verifier::reject_recursive_types(F)]
pub struct Pinned<F> {
    future: Pin<Box<F>>,
    waiting: Ghost<Waiting<F>>,
}

impl<F> View for Pinned<F> {
    type V = Waiting<F>;

    closed spec fn view(&self) -> Waiting<F> {
        Waiting { pointer: self.future, ..self.waiting@ }
    }
}

impl<F> Pinned<F> {
    /// The pointer to the future.
    pub open spec fn pointer(&self) -> Pin<Box<F>> {
        self@.pointer
    }

    /// Pins `future`.
    pub fn new(future: F) -> (result: Self)
        ensures
            result@ == Waiting::new(future, result@.pointer),
            pinned(future, result@.pointer),
    {
        let ghost held = future;
        let pin = Box::<F>::pin;
        let pointer: Pin<Box<F>> = pin(future);
        let ghost waiting = Waiting::new(held, pointer);
        Pinned { future: pointer, waiting: Ghost(waiting) }
    }

    /// Returns the pointer to the future, to look at it.
    pub fn get(&self) -> (pointer: &Pin<Box<F>>)
        ensures
            *pointer == self.pointer(),
    {
        &self.future
    }
}

impl<F: Future> Pinned<F> {
    /// Polls the future, which has not returned its output yet, once.
    pub fn poll(&mut self, cx: &mut Context<'_>) -> (result: Poll<F::Output>)
        requires
            !old(self)@.finished,
        ensures
            final(self)@ == old(self)@.after(
                context_waker(*old(cx)),
                final(self)@.pointer,
                result,
            ),
            exists|future: &mut Pin<Box<F>>, context: &mut Context<'_>|
                {
                    &&& #[trigger] poll_gave(future, context, result)
                    &&& *future == old(self).pointer()
                    &&& *final(future) == final(self).pointer()
                    &&& *context == *old(cx)
                    &&& *final(context) == *final(cx)
                },
            gave(old(self).pointer(), *old(cx), result),
            given(old(self).pointer(), context_waker(*old(cx)), result),
            handed_on(context_waker(*old(cx)), context_waker(*final(cx))),
    {
        let ghost waker = context_waker(*cx);
        let poll = poll_pinned::<F>;
        let result: Poll<F::Output> = poll(&mut self.future, cx);
        proof {
            assert forall|future: &mut Pin<Box<F>>, context: &mut Context<'_>|
                #[trigger] call_ensures(poll_pinned::<F>, (future, context), result) implies
                poll_gave(future, context, result) by {}
            self.waiting = Ghost(self.waiting@.after(waker, self.future, result));
        }
        result
    }
}

} // verus!
