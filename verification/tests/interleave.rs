use async_weighted_semaphore::acquire::Entered;
use async_weighted_semaphore::release::ReleaseAction;
use async_weighted_semaphore::state::{AcquireState, Permits, ReleaseState, WaiterPtr};
use async_weighted_semaphore::waker::{Effect, Poll, State, WakerParts, WakerResult};
use async_weighted_semaphore::{AcquireFuture, PoisonError, Semaphore, SemaphoreGuard};
use rand::{Rng, SeedableRng};
use rand_xorshift::XorShiftRng;
use std::collections::HashSet;

/// What a thread does next. Other threads may run between any two steps.
enum Thread {
    /// Has read the release state and is about to take the lock, or defer.
    Releasing { action: ReleaseAction, seen: ReleaseState, then: Then },
    /// Owns the lock.
    Locked { action: ReleaseAction, then: Then },
    /// Has taken the cancellations and read the acquire state.
    Taken { action: ReleaseAction, next_cancel: WaiterPtr, seen: AcquireState, then: Then },
    Flipped { action: ReleaseAction, next_cancel: WaiterPtr, then: Then },
    Popping { action: ReleaseAction, then: Then },
    Closing { action: ReleaseAction, then: Then },
    /// Has read the release state and is about to give the lock back.
    Unlocking { action: ReleaseAction, seen: ReleaseState, then: Then },
    /// Has read the acquire state and is about to enter.
    Entering { future: Pending, seen: AcquireState },
    /// Holds a future that waits.
    Waiting { future: Pending },
    /// Has read that the future is pending and is about to announce a waker.
    Polling { future: Pending, seen: State },
    Storing { future: Pending, seq: usize, parts: WakerParts },
    Stored { future: Pending, seq: usize, parts: WakerParts },
    /// Has started to cancel.
    Cancelling { future: Pending, seen: WaiterPtr },
    /// Waits for the acceptance of the cancellation.
    Parked { future: Pending },
    Finished,
}

/// What a thread does after a release.
enum Then {
    Nothing,
    Wait(Pending),
    Park(Pending),
}

struct Pending {
    inner: AcquireFuture,
    amount: usize,
    /// The order of arrival in the queue.
    ticket: usize,
}

struct World {
    sem: Semaphore,
    rng: XorShiftRng,
    tickets: usize,
    next_waker: usize,
    /// The wakers that were handed in and neither woken nor dropped.
    held: HashSet<usize>,
    supply: usize,
    granted: usize,
    poisoned: bool,
}

impl World {
    fn new_waker(&mut self) -> WakerParts {
        self.next_waker += 1;
        self.held.insert(self.next_waker);
        WakerParts { data: self.next_waker, vtable: 1 }
    }

    /// Each waker is woken or dropped once.
    fn perform(&mut self, effects: Vec<Effect>) {
        for effect in effects {
            match effect {
                Effect::Wake(waker) | Effect::Drop(waker) => {
                    assert!(self.held.remove(&waker.data));
                }
                Effect::Unpark(_) => {}
            }
        }
    }

    fn release(&self, amount: usize, then: Then) -> Thread {
        let action = ReleaseAction { releasable: Permits::new(amount) };
        Thread::Releasing { action, seen: self.sem.release_state(), then }
    }

    fn after(&self, then: Then) -> Thread {
        match then {
            Then::Nothing => Thread::Finished,
            Then::Wait(future) => Thread::Waiting { future },
            Then::Park(future) => Thread::Parked { future },
        }
    }

    fn take_result(&mut self, result: Result<SemaphoreGuard, PoisonError>, future: Pending) {
        match result {
            Ok(guard) => {
                assert_eq!(guard.forget(), future.amount);
                self.granted += future.amount;
                assert!(self.granted <= self.supply);
            }
            Err(PoisonError) => assert!(self.poisoned),
        }
        let mut effects = vec![];
        assert!(future.inner.drop(&mut self.sem, 0, false, &mut effects).is_none());
        self.perform(effects);
    }

    fn start(&mut self) -> Thread {
        let amount = self.rng.gen_range(0, 6);
        if self.rng.gen_bool(0.5) {
            self.supply += amount;
            self.release(amount, Then::Nothing)
        } else {
            let inner = self.sem.acquire(amount);
            let future = Pending { inner, amount, ticket: 0 };
            Thread::Entering { future, seen: self.sem.acquire_state() }
        }
    }

    fn step(&mut self, thread: Thread) -> Thread {
        let mut effects = vec![];
        let next = match thread {
            Thread::Releasing { mut action, seen, then } => {
                if action.lock_or_else_defer_from(&mut self.sem, seen) {
                    Thread::Locked { action, then }
                } else {
                    self.after(then)
                }
            }
            Thread::Locked { mut action, then } => {
                let next_cancel = action.take_cancels(&mut self.sem);
                Thread::Taken { action, next_cancel, seen: self.sem.acquire_state(), then }
            }
            Thread::Taken { mut action, next_cancel, seen, then } => {
                action.flip_from(&mut self.sem, seen);
                Thread::Flipped { action, next_cancel, then }
            }
            Thread::Flipped { mut action, next_cancel, then } => {
                action.cancel(&mut self.sem, next_cancel, &mut effects);
                Thread::Popping { action, then }
            }
            Thread::Popping { mut action, then } => {
                action.pop_all(&mut self.sem, &mut effects);
                Thread::Closing { action, then }
            }
            Thread::Closing { mut action, then } => {
                action.flip(&mut self.sem);
                Thread::Unlocking { action, seen: self.sem.release_state(), then }
            }
            Thread::Unlocking { mut action, seen, then } => {
                if action.try_unlock_from(&mut self.sem, seen) {
                    self.after(then)
                } else {
                    Thread::Locked { action, then }
                }
            }
            Thread::Entering { mut future, seen } => {
                let waker = self.new_waker();
                match future.inner.enter_from(&mut self.sem, seen, waker, false, &mut effects) {
                    Entered::Ready(result) => {
                        self.perform(effects);
                        self.take_result(result, future);
                        return Thread::Finished;
                    }
                    Entered::Queued { available } => {
                        self.tickets += 1;
                        future.ticket = self.tickets;
                        self.release(available, Then::Wait(future))
                    }
                }
            }
            Thread::Waiting { mut future } => {
                if self.rng.gen_bool(0.2) {
                    let seen = State::Pending { seq: 0 };
                    match future.inner.start_cancel_from(&mut self.sem, seen, 0) {
                        WakerResult::Cancelling => {
                            Thread::Cancelling { future, seen: WaiterPtr::null() }
                        }
                        WakerResult::Finished { poisoned } => {
                            let amount = if poisoned { 0 } else { future.amount };
                            future.inner.remove(&mut self.sem, false, &mut effects);
                            self.release(amount, Then::Nothing)
                        }
                    }
                } else {
                    Thread::Polling { future, seen: State::Pending { seq: 0 } }
                }
            }
            Thread::Polling { mut future, seen } => {
                let parts = self.new_waker();
                match future.inner.begin_poll_from(&mut self.sem, seen) {
                    Ok(seq) => Thread::Storing { future, seq, parts },
                    Err(poisoned) => {
                        effects.push(Effect::Drop(parts));
                        self.perform(effects);
                        let result = future.inner.end(&mut self.sem, poisoned, false);
                        self.take_result(result, future);
                        return Thread::Finished;
                    }
                }
            }
            Thread::Storing { mut future, seq, parts } => {
                future.inner.store_waker(&mut self.sem, parts, &mut effects);
                Thread::Stored { future, seq, parts }
            }
            Thread::Stored { mut future, seq, parts } => {
                match future.inner.end_poll(&mut self.sem, seq, parts, false, &mut effects) {
                    Poll::Pending => Thread::Waiting { future },
                    Poll::Ready(result) => {
                        self.perform(effects);
                        self.take_result(result, future);
                        return Thread::Finished;
                    }
                }
            }
            Thread::Cancelling { mut future, seen } => {
                future.inner.push_cancel_from(&mut self.sem, seen);
                self.release(0, Then::Park(future))
            }
            Thread::Parked { future } => {
                if future.inner.wait_cancel(&self.sem) {
                    future.inner.remove(&mut self.sem, false, &mut effects);
                    Thread::Finished
                } else {
                    Thread::Parked { future }
                }
            }
            Thread::Finished => Thread::Finished,
        };
        self.perform(effects);
        next
    }
}

fn run(seed: u64, poison: bool) {
    let mut world = World {
        sem: Semaphore::new(3),
        rng: XorShiftRng::seed_from_u64(seed),
        tickets: 0,
        next_waker: 0,
        held: HashSet::new(),
        supply: 3,
        granted: 0,
        poisoned: false,
    };
    let mut threads: Vec<Thread> = vec![];
    for round in 0..200 {
        if threads.len() < 6 {
            let thread = world.start();
            threads.push(thread);
        }
        if poison && round == 100 {
            world.poisoned = true;
            let action = ReleaseAction { releasable: Permits::poison() };
            let seen = world.sem.release_state();
            threads.push(Thread::Releasing { action, seen, then: Then::Nothing });
        }
        for _ in 0..6 {
            let i = world.rng.gen_range(0, threads.len());
            let thread = threads.swap_remove(i);
            match world.step(thread) {
                Thread::Finished => {}
                next => threads.push(next),
            }
            if threads.is_empty() {
                break;
            }
        }
    }
    // Let all threads go on until nothing is left to do but to wait.
    loop {
        let mut waiting = vec![];
        let mut busy = vec![];
        for thread in threads {
            match thread {
                Thread::Waiting { future } => waiting.push(future),
                thread => busy.push(world.step(thread)),
            }
        }
        let done = busy.is_empty();
        threads = busy;
        threads.retain(|thread| !matches!(thread, Thread::Finished));
        threads.extend(waiting.into_iter().map(|future| Thread::Waiting { future }));
        if done {
            break;
        }
    }
    // Nobody waits for permits that are there, and all permits are accounted for.
    let left = match world.sem.acquire_state() {
        AcquireState::Available(permits) => permits.into_usize(),
        AcquireState::Queued(_) => match world.sem.release_state() {
            ReleaseState::Unlocked(permits) => permits.into_usize(),
            _ => panic!("the lock was not given back"),
        },
    };
    let mut futures: Vec<Pending> = threads
        .into_iter()
        .map(|thread| match thread {
            Thread::Waiting { future } => future,
            _ => unreachable!(),
        })
        .collect();
    futures.sort_by_key(|future| future.ticket);
    let mut first_pending = true;
    let mut owed = 0;
    for future in futures.iter_mut() {
        let waker = world.new_waker();
        let mut effects = vec![];
        match future.inner.poll(&mut world.sem, waker, false, &mut effects) {
            Poll::Ready(Ok(guard)) => {
                // First come, first served.
                assert!(first_pending);
                owed += guard.forget();
            }
            Poll::Ready(Err(PoisonError)) => assert!(poison),
            Poll::Pending => {
                if first_pending {
                    assert!(left.unwrap() < future.amount);
                }
                first_pending = false;
            }
        }
        world.perform(effects);
    }
    match left {
        Some(left) => {
            assert!(!poison);
            assert_eq!(left + owed + world.granted, world.supply);
        }
        None => {
            assert!(poison);
            assert!(first_pending);
        }
    }
    let mut effects = vec![];
    for future in futures {
        assert!(future.inner.drop(&mut world.sem, 0, false, &mut effects).is_none());
    }
    world.perform(effects);
    assert!(world.held.is_empty());
}

#[test]
fn random_interleavings() {
    for seed in 0..500 {
        run(seed, false);
    }
}

#[test]
fn random_interleavings_with_poison() {
    for seed in 0..500 {
        run(seed, true);
    }
}
