use async_weighted_semaphore::atomic::{Atomic, Packable};
use async_weighted_semaphore::state::{
    AcquireState, AcquireStep, Permits, ReleaseState, WaiterPtr, MAX_AVAILABLE,
};
use async_weighted_semaphore::table::{Waiter, WaiterTable};
use async_weighted_semaphore::text::{write_address, write_digits, DebugPtr};
use async_weighted_semaphore::waker::{AtomicWaker, State, WakerParts};
use async_weighted_semaphore::{PoisonError, Semaphore, TryAcquireError};

fn round_trips<T: Packable + PartialEq>(val: T, word: usize) {
    assert_eq!(T::encode(val), word);
    assert!(T::decode(word) == val);
}

fn waiter(amount: usize) -> Waiter {
    Waiter {
        semaphore: 0,
        amount,
        step: AcquireStep::Entering,
        waker: AtomicWaker::new(),
        next: WaiterPtr::null(),
        prev: WaiterPtr::null(),
        next_cancel: WaiterPtr::null(),
    }
}

#[test]
fn largest_number_of_permits() {
    assert_eq!(Semaphore::MAX_AVAILABLE, (1 << (usize::BITS - 3)) - 1);
    assert_eq!(MAX_AVAILABLE, Semaphore::MAX_AVAILABLE);
    assert_eq!(Permits::new(MAX_AVAILABLE).into_usize(), Some(MAX_AVAILABLE));
    assert_eq!(Permits::new(MAX_AVAILABLE + 1).into_usize(), None);
    assert_eq!(Permits::poison().into_usize(), None);
    assert_eq!(Permits::new(0).into_usize(), Some(0));
}

#[test]
fn sums_and_differences_of_permits() {
    let five = Permits::new(5);
    let seven = Permits::new(7);
    assert!(five + seven == Permits::new(12));
    assert!(seven + five == five + seven);
    assert!((five + seven) + five == five + (seven + five));
    assert!(seven - five == Permits::new(2));
    assert!(five + Permits::poison() == Permits::poison());
    assert!(Permits::poison() - five == Permits::poison());
    assert_eq!((Permits::new(MAX_AVAILABLE) + Permits::new(1)).into_usize(), None);
    let mut sum = five;
    sum += seven;
    assert!(sum == Permits::new(12));
    sum -= five;
    assert!(sum == seven);
}

#[test]
fn words_of_release_states() {
    round_trips(ReleaseState::Locked, 0);
    round_trips(ReleaseState::Unlocked(Permits::poison()), 1);
    round_trips(ReleaseState::Unlocked(Permits::new(0)), 2);
    round_trips(ReleaseState::Unlocked(Permits::new(5)), 42);
    round_trips(ReleaseState::Unlocked(Permits::new(MAX_AVAILABLE)), usize::MAX - 5);
    round_trips(ReleaseState::LockedDirty(Permits::poison()), 3);
    round_trips(ReleaseState::LockedDirty(Permits::new(0)), 4);
    round_trips(ReleaseState::LockedDirty(Permits::new(5)), 44);
    assert_eq!(ReleaseState::encode(ReleaseState::Unlocked(Permits::new(MAX_AVAILABLE + 1))), 1);
}

#[test]
fn words_of_acquire_states() {
    round_trips(AcquireState::Queued(WaiterPtr::null()), 0);
    round_trips(AcquireState::Queued(WaiterPtr(6)), 6);
    round_trips(AcquireState::Available(Permits::new(0)), 1);
    round_trips(AcquireState::Available(Permits::new(5)), 11);
    round_trips(AcquireState::Available(Permits::poison()), usize::MAX);
    assert_eq!(AcquireState::Queued(WaiterPtr(6)).available(), None);
    assert_eq!(AcquireState::Available(Permits::new(5)).available(), Some(5));
    assert_eq!(AcquireState::Available(Permits::poison()).available(), None);
}

#[test]
fn words_of_waker_states() {
    round_trips(State::Pending { seq: 0 }, 0);
    round_trips(State::Pending { seq: 3 }, 24);
    round_trips(State::Storing { seq: 3 }, 25);
    round_trips(State::Finished { poisoned: false }, 2);
    round_trips(State::Finished { poisoned: true }, 3);
    round_trips(State::Cancelling, 4);
    round_trips(State::Cancelled, 5);
    // The sequence numbers start over.
    assert_eq!(State::encode(State::Pending { seq: MAX_AVAILABLE + 1 }), 0);
    assert_eq!(State::encode(State::Storing { seq: MAX_AVAILABLE + 2 }), 9);
    round_trips(7usize, 7);
    round_trips(WaiterPtr(8), 8);
}

#[test]
fn atomics() {
    let mut atomic = Atomic::new(State::Pending { seq: 1 });
    assert_eq!(atomic.load(), State::Pending { seq: 1 });
    atomic.store(State::Cancelling);
    assert_eq!(atomic.swap(State::Storing { seq: 2 }), State::Cancelling);
    let mut current = State::Cancelled;
    assert!(!atomic.cmpxchg_weak_acqrel(&mut current, State::Finished { poisoned: true }));
    assert_eq!(current, State::Storing { seq: 2 });
    assert_eq!(atomic.load(), State::Storing { seq: 2 });
    assert!(atomic.cmpxchg_weak_acqrel(&mut current, State::Finished { poisoned: true }));
    assert_eq!(atomic.load(), State::Finished { poisoned: true });
}

#[test]
fn addresses_of_waiters() {
    let mut table = WaiterTable::new();
    let a = table.insert(waiter(1));
    let b = table.insert(waiter(2));
    assert!(a == WaiterPtr(2));
    assert!(b == WaiterPtr(4));
    assert!(!a.is_null() && WaiterPtr::null().is_null());
    table.get_mut(a).amount = 5;
    assert_eq!(table.get(a).amount, 5);
    assert_eq!(table.get(b).amount, 2);
    table.remove(a);
    let c = table.insert(waiter(3));
    assert!(c != b && !c.is_null());
    assert_eq!(table.get(b).amount, 2);
    assert_eq!(table.get(c).amount, 3);
}

#[test]
fn errors_in_words() {
    assert_eq!(PoisonError.message(), "the semaphore has been poisoned");
    assert_eq!(TryAcquireError::Poisoned.message(), "the semaphore has been poisoned");
    assert_eq!(TryAcquireError::WouldBlock.message(), "the call to acquire would have blocked");
    assert_eq!(TryAcquireError::from(PoisonError), TryAcquireError::Poisoned);
}

#[test]
fn numbers_in_words() {
    assert_eq!(write_digits(0, 10), "0");
    assert_eq!(write_digits(1234567890, 10), "1234567890");
    assert_eq!(write_digits(6, 2), "110");
    assert_eq!(write_digits(usize::MAX, 10), format!("{}", usize::MAX));
    assert_eq!(write_address(0), "0x0");
    assert_eq!(write_address(0xbeef), "0xbeef");
}

#[test]
fn states_in_words() {
    assert_eq!(Permits::new(17).debug(), "17");
    assert_eq!(Permits::new(MAX_AVAILABLE).debug(), format!("{}", MAX_AVAILABLE));
    assert_eq!(Permits::new(MAX_AVAILABLE + 1).debug(), "poison");
    assert_eq!(ReleaseState::Locked.debug(), "Locked");
    assert_eq!(ReleaseState::Unlocked(Permits::new(3)).debug(), "Unlocked(3)");
    assert_eq!(ReleaseState::LockedDirty(Permits::poison()).debug(), "LockedDirty(poison)");
    for step in [AcquireStep::Entering, AcquireStep::Waiting, AcquireStep::Done] {
        assert_eq!(step.debug(), format!("{:?}", step));
    }
    for state in [
        State::Pending { seq: 12 },
        State::Storing { seq: 0 },
        State::Finished { poisoned: false },
        State::Finished { poisoned: true },
        State::Cancelling,
        State::Cancelled,
    ] {
        assert_eq!(state.debug(), format!("{:?}", state));
    }
}

#[test]
fn waiters_in_words() {
    let mut table = WaiterTable::new();
    let ptr = table.insert(waiter(12));
    let text = "W { a: 12, s: Entering, w: AW { s: Pending { seq: 0 }, d: 0x0, t: 0x0, t: None }, \
                n: 0x0, p: 0x0, nc: 0x0 }";
    assert_eq!(table.get(ptr).debug(), text);
    assert_eq!(DebugPtr(WaiterPtr::null()).debug(&table), "null");
    assert_eq!(DebugPtr(ptr).debug(&table), format!("0x2 {}", text));
    assert_eq!(AcquireState::Queued(WaiterPtr::null()).debug(&table), "Queued(null)");
    assert_eq!(AcquireState::Queued(ptr).debug(&table), format!("Queued(0x2 {})", text));
    assert_eq!(AcquireState::Available(Permits::new(4)).debug(&table), "Available(4)");
    let mut waker = AtomicWaker::new();
    let mut effects = vec![];
    waker.poll(WakerParts { data: 255, vtable: 16 }, &mut effects);
    waker.start_cancel(9);
    assert_eq!(waker.debug(), "AW { s: Cancelling, d: 0xff, t: 0x10, t: Some(9) }");
}

#[test]
fn semaphores_in_words() {
    let mut effects = vec![];
    let mut sem = Semaphore::new(5);
    assert_eq!(sem.debug(), "Semaphore::Ready(5)");
    let mut future = sem.acquire(8);
    assert_eq!(future.debug(&sem), "AcquireFuture(8)");
    let shared = sem.acquire_arc(9);
    assert_eq!(shared.debug(&sem), "AcquireFutureArc(9)");
    let waker = WakerParts { data: 1, vtable: 1 };
    future.poll(&mut sem, waker, false, &mut effects);
    assert_eq!(sem.debug(), "Semaphore::Blocked(5)");
    sem.poison();
    assert_eq!(sem.debug(), "Semaphore::Ready(poison)");
}
