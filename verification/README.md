# concurrency

Building blocks of concurrent programs, with their protocols specified and proved
in Verus.

- `src/banker.rs`: the banker's algorithm. `is_safe` returns exactly whether some
  order lets every thread finish; `take` hands out a unit only when the books stay
  safe; releases keep a safe state safe and leave totals unchanged; the verdict
  does not depend on how the threads are numbered.
- `src/bakery.rs`: Lamport's bakery lock as a step-by-step transition system over
  the shared flags and tickets; every step keeps an invariant from which mutual
  exclusion follows, together with first-come, first-served order and, as long
  as no thread leaves a ticket behind through a leaked guard, freedom from
  deadlock.
- `src/ticketlock.rs`: the ticket lock as a transition system, with mutual
  exclusion and first-come-first-served order.
- `src/semaphore.rs`: the count of a counting semaphore, never above its limit.
- `src/stack.rs`, `src/kvserver.rs`, `src/hello.rs`, `src/waker_table.rs`,
  `src/basics.rs`: a LIFO stack, a key-value session server, a hand-written
  future, a table of I/O wakers, and small examples.

`app/` runs the example programs on real threads, atomics, channels, epoll and
async runtimes, using the library for their decisions.
