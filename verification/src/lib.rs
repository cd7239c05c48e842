//! An async weighted semaphore: a synchronization primitive for limiting concurrent usage of a
//! resource or signaling availability of a resource to a consumer.
//!
//! A [`Semaphore`] starts with an initial counter of permits. Releasing increases the counter.
//! Acquiring decreases it, and waits if it would become negative.
//!
//! This crate holds the state of the semaphore and all that happens to it. Time, threads and
//! wakers are the caller's: a waker is handed in as two words, a thread as a number, and what is
//! to be done with them comes back as a list of [`waker::Effect`]s. A method with `&mut` access is
//! one indivisible step, or several of them in a row. For each operation there are also methods
//! for its single steps, so that operations of several threads can be interleaved.
//!
//! # Priority
//!
//! Acquiring is first-in-first-out: calls to `acquire` finish in the order in which they start. If
//! there is a pending call, a new one will always wait, even if there are enough permits for it.
//!
//! # Poisoning
//!
//! If a guard is dropped while panicking, or the number of available permits exceeds
//! [`Semaphore::MAX_AVAILABLE`], the semaphore is permanently poisoned. All current and future
//! acquires fail, and release becomes a no-op.
//!
//! # Layout
//!
//! * [`atomic`] and [`state`]: packed words and what is packed into them.
//! * [`waker`]: the handshake between a future and the one that finishes it.
//! * [`table`] and [`waiters`]: the waiters of a semaphore, their queue and their cancellations.
//! * [`semaphore`], [`release`], [`acquire`], [`guard`], [`errors`]: the operations.
//! * [`model`]: what the operations do, as functions of what a semaphore holds.
//! * [`plain`]: laws of what each operation does to the numbers, states and wakers that it is
//!   given.
//! * [`calls`]: laws of several calls in a row.
//! * [`rest`]: laws of whole operations on a semaphore that no other operation is working on.
//! * [`protocol`]: laws of all interleavings of the steps of any number of operations.
//! * [`wakers`]: laws of what becomes of the wakers that are handed in.
//! * [`text`]: values in words.

pub use crate::acquire::{AcquireFuture, AcquireFutureArc};
pub use crate::errors::{PoisonError, TryAcquireError};
pub use crate::guard::{SemaphoreGuard, SemaphoreGuardArc};
pub use crate::semaphore::Semaphore;

pub mod acquire;
pub mod atomic;
pub mod calls;
pub mod errors;
pub mod guard;
pub mod model;
pub mod plain;
pub mod protocol;
pub mod release;
pub mod rest;
pub mod semaphore;
pub mod state;
pub mod table;
pub mod text;
pub mod waiters;
pub mod waker;
pub mod wakers;
