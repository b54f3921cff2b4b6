# futures_join

Waiting for all of a list of futures to finish, with the outputs in the order of
the futures: `join_all` for futures that cannot fail, and `try_join_all` for futures
that can, which ends with the first error. Of a few futures, all are polled whenever
the combinator is polled. Of many, only those are that were never polled or that were
woken.

`src/` is verified with Verus.

- `join_all`, `try_join_all`: the combinators.
- `futures_unordered`: a set of futures that complete in any order.
- `slot_wakers`, `slots`: a waker for each future, and the queue of the futures that
  were woken.
- `wake_groups`, `ready_set`: a waker for each group of futures, and the set of the
  groups that were woken.
- `budget`: when to yield to the executor.
- `maybe_done`: a future, or its output.
- `progress`: how far futures have come, and which polls lead from one state to the
  next. The contracts of the combinators are stated over this.
- `handshake`, `group_handshake`: why a task that waits does not miss a wake-up. This is
  shown of any sequence of what is done while the lock is held, and of models in which
  that is made of smaller steps.
- `task`: the parts of the standard library that this is built on. What an executor does
  when a task is woken is not known here, nor what a future will return when it is polled.

What wakers and their task share stands behind a lock. The contracts of the functions
that take the lock speak of exchanges: what it held when it was taken, and what it was
left holding. Every exchange is one of a few acts, such as a wake-up of a future or the
announcement of the task that it may wait. What a call of `poll` does is stated as a log of
the polls that it made and of the exchanges around them. What the log records of a poll is
what polling the future with that context has given, so the outputs and the errors that the
combinators return are those of the futures.

`app/` adds what callers expect around it: combinators made from anything that can be
turned into an iterator, `FromIterator`, `Debug`, and `Drop`.
