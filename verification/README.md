# async-weighted-semaphore

An async weighted semaphore, written in Verus: a synchronization primitive for limiting concurrent
usage of a resource or signaling availability of a resource to a consumer.

* `src/` is the verified library. It holds the state of a semaphore and decides what happens to
  permits, waiters and wakers. Each step of an operation is a function of its own, so that the
  operations of several threads can be interleaved. A step is taken as indivisible. What holds of
  all interleavings of steps is proved in `src/protocol.rs`, what holds of whole operations in
  `src/rest.rs`, and what becomes of wakers in `src/wakers.rs`.
* `app/` is ordinary Rust around it: shared access, `Future` and `Drop` implementations, real wakers
  and threads. It runs each operation under one mutex, so the interleavings of single steps do not
  arise there, and it is not lock-free. Waiters and effects are kept on the heap.
* `tests/` runs the library: single operations, single steps, random interleavings, and tasks on
  several threads.

## What is proved

* Acquires finish in the order in which they start.
* A release serves as many pending acquires as its permits last for, and wakes those and no others.
* No wake-up is lost, whatever the order in which threads take their steps. Threads do not deadlock,
  and releases come to an end.
* Never more permits are handed out than were put in, and none are lost unless the semaphore is
  poisoned. Poison stays. Dropping a guard while panicking poisons.
* Each waker that is handed in is woken or dropped exactly once, over any sequence of steps that ends
  with the last future gone.
* No function panics on what its contract admits, and the steps of the protocol call each function
  on what it admits.
