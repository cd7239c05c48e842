use async_weighted_semaphore::acquire::Entered;
use async_weighted_semaphore::release::ReleaseAction;
use async_weighted_semaphore::state::{AcquireState, Permits, ReleaseState, WaiterPtr};
use async_weighted_semaphore::waker::{Effect, Poll, State, WakerParts, WakerResult};
use async_weighted_semaphore::{
    AcquireFuture, PoisonError, Semaphore, SemaphoreGuard, SemaphoreGuardArc, TryAcquireError,
};

fn waker(data: usize) -> WakerParts {
    WakerParts { data, vtable: 1 }
}

/// Polls for the first time and expects to wait.
fn wait(sem: &mut Semaphore, amount: usize, data: usize) -> AcquireFuture {
    let mut effects = vec![];
    let mut future = sem.acquire(amount);
    assert!(future.poll(sem, waker(data), false, &mut effects) == Poll::Pending);
    assert_eq!(effects, vec![]);
    future
}

fn permits(sem: &Semaphore) -> Option<usize> {
    match sem.acquire_state() {
        AcquireState::Available(permits) => permits.into_usize(),
        AcquireState::Queued(_) => match sem.release_state() {
            ReleaseState::Unlocked(permits) => permits.into_usize(),
            _ => panic!(),
        },
    }
}

#[test]
fn a_new_acquire_waits_behind_a_pending_one() {
    let mut sem = Semaphore::new(1);
    let _a = wait(&mut sem, 2, 1);
    let _b = wait(&mut sem, 1, 2);
    assert_eq!(sem.try_acquire(0, false), Err(TryAcquireError::WouldBlock));
    assert_eq!(permits(&sem), Some(1));
    // The first one is served first, then the second one.
    assert_eq!(sem.release(1), vec![Effect::Wake(waker(1))]);
    assert_eq!(permits(&sem), Some(0));
    assert_eq!(sem.release(5), vec![Effect::Wake(waker(2))]);
    assert_eq!(permits(&sem), Some(4));
    assert_eq!(sem.acquire_state().available(), Some(4));
}

#[test]
fn one_release_serves_several_in_order() {
    let mut sem = Semaphore::new(0);
    let _futures: Vec<AcquireFuture> =
        [(3, 1), (1, 2), (4, 3), (1, 4)].iter().map(|x| wait(&mut sem, x.0, x.1)).collect();
    assert_eq!(sem.release(7), vec![Effect::Wake(waker(1)), Effect::Wake(waker(2))]);
    assert_eq!(permits(&sem), Some(3));
}

#[test]
fn releasing_in_parts() {
    let amounts = [2, 1, 6, 1];
    let mut whole = Semaphore::new(0);
    let mut parts = Semaphore::new(0);
    let _futures: Vec<AcquireFuture> =
        amounts.iter().map(|amount| wait(&mut whole, *amount, *amount)).collect();
    let _others: Vec<AcquireFuture> =
        amounts.iter().map(|amount| wait(&mut parts, *amount, *amount)).collect();
    let effects = whole.release(5);
    let mut first = parts.release(2);
    first.append(&mut parts.release(3));
    assert_eq!(effects, first);
    assert_eq!(effects, vec![Effect::Wake(waker(2)), Effect::Wake(waker(1))]);
    assert_eq!(permits(&whole), Some(2));
    assert_eq!(permits(&parts), Some(2));
}

#[test]
fn attempts_agree_with_acquires() {
    let mut effects = vec![];
    for (initial, amount) in [(3, 3), (3, 4), (0, 0), (usize::MAX, 0)] {
        let mut sem = Semaphore::new(initial);
        let attempt = sem.try_acquire(amount, false);
        let mut sem = Semaphore::new(initial);
        let mut future = sem.acquire(amount);
        match future.poll(&mut sem, waker(1), false, &mut effects) {
            Poll::Ready(Ok(guard)) => assert_eq!(attempt, Ok(guard)),
            Poll::Ready(Err(PoisonError)) => assert_eq!(attempt, Err(TryAcquireError::Poisoned)),
            Poll::Pending => assert_eq!(attempt, Err(TryAcquireError::WouldBlock)),
        }
    }
}

#[test]
fn permits_that_nobody_waits_for_become_available() {
    let mut sem = Semaphore::new(2);
    assert_eq!(sem.release(3), vec![]);
    assert_eq!(sem.acquire_state().available(), Some(5));
    let guard = sem.try_acquire(4, false).unwrap();
    assert_eq!(guard, SemaphoreGuard { semaphore: 0, amount: 4, panicking: false });
    assert_eq!(sem.acquire_state().available(), Some(1));
    assert_eq!(sem.try_acquire(2, false), Err(TryAcquireError::WouldBlock));
    assert_eq!(guard.drop(&mut sem, false), vec![]);
    assert_eq!(sem.acquire_state().available(), Some(5));
    let shared = sem.try_acquire_arc(5, true).unwrap();
    assert_eq!(shared, SemaphoreGuardArc { semaphore: Some(0), amount: 5, panicking: true });
    assert_eq!(sem.try_acquire_arc(1, true), Err(TryAcquireError::WouldBlock));
    assert_eq!(shared.forget(), 5);
    assert_eq!(sem.acquire_state().available(), Some(0));
}

#[test]
fn poison_reaches_all() {
    let mut effects = vec![];
    let mut sem = Semaphore::new(1);
    let mut a = wait(&mut sem, 2, 1);
    let mut b = wait(&mut sem, usize::MAX, 2);
    assert_eq!(sem.poison(), vec![Effect::Wake(waker(1)), Effect::Wake(waker(2))]);
    assert_eq!(sem.try_acquire(0, false), Err(TryAcquireError::Poisoned));
    assert_eq!(sem.try_acquire_arc(0, false), Err(TryAcquireError::Poisoned));
    for future in [&mut a, &mut b] {
        let result = future.poll(&mut sem, waker(3), false, &mut effects);
        assert!(result == Poll::Ready(Err(PoisonError)));
    }
    // The semaphore stays poisoned.
    assert_eq!(sem.release(1), vec![]);
    assert_eq!(sem.poison(), vec![]);
    assert!(sem.acquire_state() == AcquireState::Available(Permits::poison()));
    let mut c = sem.acquire(0);
    let result = c.poll(&mut sem, waker(4), false, &mut effects);
    assert!(result == Poll::Ready(Err(PoisonError)));
}

#[test]
fn too_many_permits_poison() {
    let mut sem = Semaphore::new(Semaphore::MAX_AVAILABLE);
    assert_eq!(sem.acquire_state().available(), Some(Semaphore::MAX_AVAILABLE));
    assert_eq!(sem.release(0), vec![]);
    assert!(sem.try_acquire(0, false).is_ok());
    assert_eq!(sem.release(1), vec![]);
    assert_eq!(sem.try_acquire(0, false), Err(TryAcquireError::Poisoned));
}

#[test]
fn too_many_permits_poison_the_pending() {
    let mut sem = Semaphore::new(0);
    let _a = wait(&mut sem, usize::MAX, 1);
    assert_eq!(sem.release(Semaphore::MAX_AVAILABLE), vec![]);
    assert_eq!(permits(&sem), Some(Semaphore::MAX_AVAILABLE));
    assert_eq!(sem.release(1), vec![Effect::Wake(waker(1))]);
    assert_eq!(sem.try_acquire(0, false), Err(TryAcquireError::Poisoned));
}

#[test]
fn guards_poison_when_dropped_while_unwinding() {
    for (before, after, poisoned) in
        [(false, false, false), (false, true, true), (true, true, true), (true, false, false)]
    {
        let mut sem = Semaphore::new(3);
        let guard = sem.try_acquire(2, before).unwrap();
        guard.drop(&mut sem, after);
        let expected = if poisoned { None } else { Some(3) };
        assert_eq!(sem.acquire_state().available(), expected);
        let mut sem = Semaphore::new(3);
        let guard = sem.try_acquire_arc(2, before).unwrap();
        guard.drop(&mut sem, after);
        assert_eq!(sem.acquire_state().available(), expected);
    }
}

#[test]
fn a_guard_without_a_semaphore_releases_nothing() {
    let mut sem = Semaphore::new(3);
    let guard = SemaphoreGuardArc { semaphore: None, amount: 2, panicking: false };
    assert_eq!(guard.drop(&mut sem, true), vec![]);
    assert_eq!(sem.acquire_state().available(), Some(3));
}

#[test]
fn extend_undoes_split() {
    let sem = Semaphore::new_at(64, 0);
    let mut guard = SemaphoreGuard::new(&sem, 10, false);
    let part = guard.split(4, true).unwrap();
    assert_eq!(part, SemaphoreGuard { semaphore: 64, amount: 4, panicking: true });
    assert_eq!(guard.amount, 6);
    assert_eq!(guard.split(7, false), Err(TryAcquireError::WouldBlock));
    guard.extend(part);
    assert_eq!(guard, SemaphoreGuard { semaphore: 64, amount: 10, panicking: false });
    let mut guard = SemaphoreGuardArc::new(&sem, 10, false);
    let part = guard.split(10, true).unwrap();
    assert_eq!(guard.amount, 0);
    assert_eq!(guard.split(1, false), Err(TryAcquireError::WouldBlock));
    guard.extend(part);
    assert_eq!(guard, SemaphoreGuardArc { semaphore: Some(64), amount: 10, panicking: false });
    let mut most = SemaphoreGuard::new(&sem, usize::MAX, false);
    most.extend(SemaphoreGuard::new(&sem, 1, false));
    assert_eq!(most.forget(), usize::MAX);
}

#[test]
fn a_served_future_gets_its_guard() {
    let mut effects = vec![];
    let mut sem = Semaphore::new_at(32, 1);
    let mut future = wait(&mut sem, 3, 1);
    assert!(future.poll(&mut sem, waker(2), false, &mut effects) == Poll::Pending);
    assert_eq!(effects, vec![Effect::Drop(waker(1))]);
    assert_eq!(sem.release(2), vec![Effect::Wake(waker(2))]);
    effects.clear();
    let result = future.poll(&mut sem, waker(3), true, &mut effects);
    let guard = SemaphoreGuard { semaphore: 32, amount: 3, panicking: true };
    assert!(result == Poll::Ready(Ok(guard)));
    assert_eq!(effects, vec![Effect::Drop(waker(3))]);
    // Once it has ended, dropping it changes nothing.
    assert!(future.drop(&mut sem, 0, false, &mut effects).is_none());
    assert_eq!(permits(&sem), Some(0));
}

#[test]
fn dropping_a_served_future_releases_its_permits() {
    let mut effects = vec![];
    let mut sem = Semaphore::new(0);
    let a = wait(&mut sem, 3, 1);
    let _b = wait(&mut sem, 2, 2);
    assert_eq!(sem.release(3), vec![Effect::Wake(waker(1))]);
    assert!(a.drop(&mut sem, 0, false, &mut effects).is_none());
    assert_eq!(effects, vec![Effect::Wake(waker(2))]);
    assert_eq!(permits(&sem), Some(1));
}

#[test]
fn dropping_a_failed_future_releases_nothing() {
    let mut effects = vec![];
    let mut sem = Semaphore::new(0);
    let a = wait(&mut sem, 3, 1);
    sem.poison();
    assert!(a.drop(&mut sem, 0, false, &mut effects).is_none());
    assert_eq!(effects, vec![]);
}

#[test]
fn dropping_a_future_that_was_not_polled() {
    let mut effects = vec![];
    let mut sem = Semaphore::new(4);
    let a = sem.acquire(3);
    assert!(a.drop(&mut sem, 0, false, &mut effects).is_none());
    assert_eq!(effects, vec![]);
    assert_eq!(permits(&sem), Some(4));
}

#[test]
fn an_unpolled_future_changes_nothing_during_a_release() {
    let mut effects = vec![];
    let mut sem = Semaphore::new(0);
    let _a = wait(&mut sem, 2, 1);
    let mut owner = ReleaseAction { releasable: Permits::new(1) };
    assert!(owner.lock_or_else_defer(&mut sem));
    for amount in [0, 5, usize::MAX] {
        let b = sem.acquire(amount);
        assert!(sem.acquire_state() == AcquireState::Queued(WaiterPtr::null()));
        assert!(sem.release_state() == ReleaseState::Locked);
        assert!(b.drop(&mut sem, 0, false, &mut effects).is_none());
        assert!(sem.release_state() == ReleaseState::Locked);
    }
    assert_eq!(effects, vec![]);
    owner.drain(&mut sem, &mut effects);
    assert_eq!(permits(&sem), Some(1));
}

#[test]
fn cancelling_in_the_middle_serves_nobody() {
    let mut effects = vec![];
    let mut sem = Semaphore::new(1);
    let a = wait(&mut sem, 2, 1);
    let b = wait(&mut sem, 5, 2);
    let _c = wait(&mut sem, 1, 3);
    assert!(b.drop(&mut sem, 8, false, &mut effects).is_none());
    assert_eq!(effects, vec![Effect::Unpark(8), Effect::Drop(waker(2))]);
    assert_eq!(permits(&sem), Some(1));
    effects.clear();
    // The next one moves up and is served.
    assert!(a.drop(&mut sem, 9, false, &mut effects).is_none());
    assert_eq!(
        effects,
        vec![Effect::Unpark(9), Effect::Wake(waker(3)), Effect::Drop(waker(1))]
    );
    assert_eq!(permits(&sem), Some(0));
}

#[test]
fn a_release_without_the_lock_is_deferred() {
    let mut effects = vec![];
    let mut sem = Semaphore::new(0);
    let _a = wait(&mut sem, 5, 1);
    let mut owner = ReleaseAction { releasable: Permits::new(1) };
    assert!(owner.lock_or_else_defer(&mut sem));
    assert!(sem.release_state() == ReleaseState::Locked);
    assert_eq!(sem.debug(), "Semaphore::Unknown");
    assert_eq!(sem.release(2), vec![]);
    assert!(sem.release_state() == ReleaseState::LockedDirty(Permits::new(2)));
    assert_eq!(sem.release(3), vec![]);
    assert!(sem.release_state() == ReleaseState::LockedDirty(Permits::new(5)));
    // The owner serves with what it has, and does not get rid of the lock yet.
    owner.serve(&mut sem, &mut effects);
    assert_eq!(effects, vec![]);
    assert!(!owner.try_unlock(&mut sem));
    assert!(owner.releasable == Permits::new(6));
    owner.serve(&mut sem, &mut effects);
    assert_eq!(effects, vec![Effect::Wake(waker(1))]);
    assert!(owner.try_unlock(&mut sem));
    assert_eq!(sem.acquire_state().available(), Some(1));
}

#[test]
fn giving_back_during_a_release() {
    let mut effects = vec![];
    let mut sem = Semaphore::new(5);
    let mut owner = ReleaseAction { releasable: Permits::new(1) };
    assert!(owner.lock_or_else_defer(&mut sem));
    let guard = sem.try_acquire(3, false).unwrap();
    assert_eq!(guard.drop(&mut sem, false), vec![]);
    // What was taken is left to the owner.
    assert_eq!(sem.acquire_state().available(), Some(2));
    assert!(sem.release_state() == ReleaseState::LockedDirty(Permits::new(3)));
    owner.drain(&mut sem, &mut effects);
    assert_eq!(effects, vec![]);
    assert_eq!(sem.acquire_state().available(), Some(6));
}

#[test]
fn poison_during_a_release_arrives_with_it() {
    let mut effects = vec![];
    let mut sem = Semaphore::new(5);
    let mut owner = ReleaseAction { releasable: Permits::new(1) };
    assert!(owner.lock_or_else_defer(&mut sem));
    assert_eq!(sem.poison(), vec![]);
    assert!(sem.release_state() == ReleaseState::LockedDirty(Permits::poison()));
    let guard = sem.try_acquire(5, false).unwrap();
    owner.drain(&mut sem, &mut effects);
    for amount in [0, 1, usize::MAX] {
        assert_eq!(sem.try_acquire(amount, false), Err(TryAcquireError::Poisoned));
    }
    // It stays, whatever is done.
    assert_eq!(guard.drop(&mut sem, false), vec![]);
    assert_eq!(sem.release(3), vec![]);
    let mut future = sem.acquire(0);
    let result = future.poll(&mut sem, waker(1), false, &mut effects);
    assert!(result == Poll::Ready(Err(PoisonError)));
    assert!(future.drop(&mut sem, 0, false, &mut effects).is_none());
    assert_eq!(sem.try_acquire(0, false), Err(TryAcquireError::Poisoned));
}

#[test]
fn each_waker_is_given_up_once() {
    let mut effects = vec![];
    let mut sem = Semaphore::new(0);
    let mut a = sem.acquire(1);
    let mut b = sem.acquire(1);
    let mut c = sem.acquire(1);
    assert!(a.poll(&mut sem, waker(1), false, &mut effects) == Poll::Pending);
    assert!(b.poll(&mut sem, waker(2), false, &mut effects) == Poll::Pending);
    assert!(c.poll(&mut sem, waker(3), false, &mut effects) == Poll::Pending);
    assert!(b.poll(&mut sem, waker(4), false, &mut effects) == Poll::Pending);
    assert!(c.drop(&mut sem, 9, false, &mut effects).is_none());
    effects.append(&mut sem.release(1));
    assert!(a.poll(&mut sem, waker(5), false, &mut effects) != Poll::Pending);
    assert!(a.drop(&mut sem, 9, false, &mut effects).is_none());
    assert!(b.drop(&mut sem, 9, false, &mut effects).is_none());
    assert_eq!(
        effects,
        vec![
            Effect::Drop(waker(2)),
            Effect::Unpark(9),
            Effect::Drop(waker(3)),
            Effect::Wake(waker(1)),
            Effect::Drop(waker(5)),
            Effect::Unpark(9),
            Effect::Drop(waker(4)),
        ]
    );
}

#[test]
fn an_acquire_during_a_release_is_seen_by_its_owner() {
    let mut effects = vec![];
    let mut sem = Semaphore::new(0);
    let mut owner = ReleaseAction { releasable: Permits::new(4) };
    assert!(owner.lock_or_else_defer(&mut sem));
    owner.take_cancels(&mut sem);
    let _a = wait(&mut sem, 3, 1);
    assert!(sem.release_state() == ReleaseState::LockedDirty(Permits::new(0)));
    owner.drain(&mut sem, &mut effects);
    assert_eq!(effects, vec![Effect::Wake(waker(1))]);
    assert_eq!(permits(&sem), Some(1));
}

#[test]
fn a_cancellation_during_a_release_waits_for_its_owner() {
    let mut effects = vec![];
    let mut sem = Semaphore::new(1);
    let a = wait(&mut sem, 2, 1);
    let mut owner = ReleaseAction { releasable: Permits::new(1) };
    assert!(owner.lock_or_else_defer(&mut sem));
    let rest = a.drop(&mut sem, 6, false, &mut effects).unwrap();
    assert_eq!(effects, vec![]);
    assert!(!rest.wait_cancel(&sem));
    // The first waiter is being cancelled: it is not served, and nobody overtakes it.
    let next_cancel = owner.take_cancels(&mut sem);
    assert!(next_cancel == rest.waiter);
    owner.flip(&mut sem);
    assert!(!owner.try_pop(&mut sem, &mut effects));
    owner.cancel(&mut sem, next_cancel, &mut effects);
    assert_eq!(effects, vec![Effect::Unpark(6)]);
    assert!(rest.wait_cancel(&sem));
    rest.remove(&mut sem, false, &mut effects);
    assert_eq!(effects, vec![Effect::Unpark(6), Effect::Drop(waker(1))]);
    owner.drain(&mut sem, &mut effects);
    assert_eq!(sem.acquire_state().available(), Some(2));
}

#[test]
fn a_poll_that_is_overtaken_by_a_release() {
    let mut effects = vec![];
    let mut sem = Semaphore::new(0);
    let mut a = wait(&mut sem, 2, 1);
    let seq = a.begin_poll_from(&mut sem, State::Pending { seq: 0 }).unwrap();
    assert_eq!(sem.release(2), vec![]);
    a.store_waker(&mut sem, waker(2), &mut effects);
    let result = a.end_poll(&mut sem, seq, waker(2), false, &mut effects);
    let guard = SemaphoreGuard { semaphore: 0, amount: 2, panicking: false };
    assert!(result == Poll::Ready(Ok(guard)));
    assert_eq!(effects, vec![Effect::Drop(waker(1)), Effect::Drop(waker(2))]);
}

#[test]
fn a_cancellation_that_is_overtaken_by_a_release() {
    let mut sem = Semaphore::new(0);
    let mut a = wait(&mut sem, 2, 1);
    assert_eq!(sem.release(2), vec![Effect::Wake(waker(1))]);
    let result = a.start_cancel_from(&mut sem, State::Pending { seq: 0 }, 4);
    assert_eq!(result, WakerResult::Finished { poisoned: false });
}

#[test]
fn stale_reads_of_the_acquire_state() {
    let mut effects = vec![];
    let mut sem = Semaphore::new(3);
    let stale = sem.acquire_state();
    sem.try_acquire(2, false).unwrap().forget();
    // What was read allows it, the present does not.
    assert_eq!(sem.try_acquire_from(stale, 2, false), Err(TryAcquireError::WouldBlock));
    // What was read refuses it, which was right at that time.
    sem.release(5);
    assert_eq!(sem.try_acquire_from(stale, 4, false), Err(TryAcquireError::WouldBlock));
    assert!(sem.try_acquire_from(stale, 3, false).is_ok());
    // An acquire that would have to wait finds permits when it enters.
    let mut a = sem.acquire(3);
    let stored = match a.enter_from(
        &mut sem,
        AcquireState::Available(Permits::new(0)),
        waker(1),
        false,
        &mut effects,
    ) {
        Entered::Ready(result) => result,
        Entered::Queued { .. } => panic!(),
    };
    assert_eq!(stored.unwrap().forget(), 3);
    assert_eq!(effects, vec![]);
    assert!(a.drop(&mut sem, 0, false, &mut effects).is_none());
    assert_eq!(effects, vec![Effect::Drop(waker(1))]);
    // One that would not have to wait finds others waiting.
    let _b = wait(&mut sem, 2, 2);
    let mut c = sem.acquire(0);
    effects.clear();
    match c.enter_from(&mut sem, stale, waker(3), false, &mut effects) {
        Entered::Queued { available } => assert_eq!(available, 0),
        Entered::Ready(_) => panic!(),
    }
    assert!(sem.acquire_state() == AcquireState::Queued(c.waiter));
}

#[test]
fn stale_reads_of_the_release_state() {
    let mut effects = vec![];
    let mut sem = Semaphore::new(0);
    let unlocked = sem.release_state();
    let mut owner = ReleaseAction { releasable: Permits::new(1) };
    assert!(owner.lock_or_else_defer_from(&mut sem, ReleaseState::Locked));
    let mut other = ReleaseAction { releasable: Permits::new(2) };
    assert!(!other.lock_or_else_defer_from(&mut sem, unlocked));
    assert!(!owner.try_unlock_from(&mut sem, ReleaseState::Locked));
    assert!(owner.releasable == Permits::new(3));
    owner.serve(&mut sem, &mut effects);
    assert!(owner.try_unlock_from(&mut sem, ReleaseState::LockedDirty(Permits::new(2))));
    assert_eq!(permits(&sem), Some(3));
}

#[test]
fn a_flip_that_saw_nobody_new() {
    let mut sem = Semaphore::new(0);
    let _a = wait(&mut sem, 2, 1);
    let seen = sem.acquire_state();
    assert!(seen == AcquireState::Queued(WaiterPtr::null()));
    let mut owner = ReleaseAction { releasable: Permits::new(1) };
    assert!(owner.lock_or_else_defer(&mut sem));
    let b = wait(&mut sem, 2, 2);
    owner.flip_from(&mut sem, seen);
    assert!(sem.acquire_state() == AcquireState::Queued(b.waiter));
    assert!(owner.releasable == Permits::new(1));
    owner.flip(&mut sem);
    assert!(sem.acquire_state() == AcquireState::Queued(WaiterPtr::null()));
}

#[test]
fn shared_futures() {
    let mut effects = vec![];
    let mut sem = Semaphore::new_at(16, 1);
    let mut a = sem.acquire_arc(2);
    assert_eq!(a.arc, 16);
    assert!(a.poll(&mut sem, waker(1), false, &mut effects) == Poll::Pending);
    assert_eq!(sem.release(1), vec![Effect::Wake(waker(1))]);
    let result = a.poll(&mut sem, waker(2), false, &mut effects);
    let guard = SemaphoreGuardArc { semaphore: Some(16), amount: 2, panicking: false };
    assert!(result == Poll::Ready(Ok(guard)));
    let mut b = sem.acquire_arc(2);
    assert!(b.poll(&mut sem, waker(3), false, &mut effects) == Poll::Pending);
    effects.clear();
    assert!(b.drop(&mut sem, 5, false, &mut effects).is_none());
    assert_eq!(effects, vec![Effect::Unpark(5), Effect::Drop(waker(3))]);
    sem.poison();
    let mut c = sem.acquire_arc(2);
    let result = c.poll(&mut sem, waker(4), false, &mut effects);
    assert!(result == Poll::Ready(Err(PoisonError)));
}

#[test]
fn batches_of_data() {
    // Three items arrive at a time and are taken in pairs, until no more will arrive.
    let mut sem = Semaphore::new(0);
    let mut pairs = 0;
    for _ in 0..100 {
        sem.release(3);
        while let Ok(guard) = sem.try_acquire(2, false) {
            assert_eq!(guard.forget(), 2);
            pairs += 1;
        }
    }
    assert_eq!(pairs, 150);
    sem.poison();
    assert_eq!(sem.try_acquire(2, false), Err(TryAcquireError::Poisoned));
}

#[test]
fn readers_and_writers() {
    let mut sem = Semaphore::new(Semaphore::MAX_AVAILABLE);
    let first = sem.try_acquire(1, false).unwrap();
    let second = sem.try_acquire(1, false).unwrap();
    assert!(sem.try_acquire(Semaphore::MAX_AVAILABLE, false).is_err());
    let _writer = wait(&mut sem, Semaphore::MAX_AVAILABLE, 1);
    // No reader overtakes the writer.
    assert_eq!(sem.try_acquire(1, false), Err(TryAcquireError::WouldBlock));
    assert_eq!(first.drop(&mut sem, false), vec![]);
    assert_eq!(second.drop(&mut sem, false), vec![Effect::Wake(waker(1))]);
    assert_eq!(sem.acquire_state().available(), Some(0));
}
