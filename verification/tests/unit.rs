use async_weighted_semaphore::waker::{Effect, Poll, WakerParts};
use async_weighted_semaphore::{
    AcquireFuture, PoisonError, Semaphore, SemaphoreGuard, SemaphoreGuardArc,
};
use rand::{Rng, SeedableRng};
use rand_xorshift::XorShiftRng;
use std::cell::RefCell;
use std::collections::BTreeMap;
use std::mem;

/// A semaphore whose wakers count how often they are woken.
struct World {
    sem: RefCell<Semaphore>,
    counts: RefCell<Vec<usize>>,
}

impl World {
    fn new(initial: usize) -> Self {
        World { sem: RefCell::new(Semaphore::new(initial)), counts: RefCell::new(vec![]) }
    }

    fn perform(&self, effects: Vec<Effect>) {
        for effect in effects {
            if let Effect::Wake(waker) = effect {
                self.counts.borrow_mut()[waker.data] += 1;
            }
        }
    }

    fn release(&self, amount: usize) {
        let effects = self.sem.borrow_mut().release(amount);
        self.perform(effects);
    }

    fn drop_guard(&self, guard: SemaphoreGuard) {
        let effects = guard.drop(&mut self.sem.borrow_mut(), false);
        self.perform(effects);
    }

    fn drop_guard_arc(&self, guard: SemaphoreGuardArc) {
        let effects = guard.drop(&mut self.sem.borrow_mut(), false);
        self.perform(effects);
    }

    fn available(&self) -> Option<usize> {
        self.sem.borrow().acquire_state().available()
    }

    fn new_waker(&self) -> WakerParts {
        let mut counts = self.counts.borrow_mut();
        counts.push(0);
        WakerParts { data: counts.len() - 1, vtable: 1 }
    }

    fn acquire_arc_now(&self, amount: usize) -> Option<Result<SemaphoreGuardArc, PoisonError>> {
        let waker = self.new_waker();
        let mut effects = vec![];
        let mut future = self.sem.borrow_mut().acquire_arc(amount);
        let result = future.poll(&mut self.sem.borrow_mut(), waker, false, &mut effects);
        assert!(future.drop(&mut self.sem.borrow_mut(), 0, false, &mut effects).is_none());
        self.perform(effects);
        match result {
            Poll::Pending => None,
            Poll::Ready(x) => Some(x),
        }
    }
}

struct TestFuture<'a> {
    world: &'a World,
    waker: WakerParts,
    old_count: usize,
    inner: Option<AcquireFuture>,
    amount: usize,
}

impl<'a> TestFuture<'a> {
    fn new(world: &'a World, amount: usize) -> Self {
        let waker = world.new_waker();
        let inner = world.sem.borrow_mut().acquire(amount);
        TestFuture { world, waker, old_count: 0, inner: Some(inner), amount }
    }

    fn count(&self) -> usize {
        self.world.counts.borrow()[self.waker.data]
    }

    fn poll(&mut self) -> Option<Result<SemaphoreGuard, PoisonError>> {
        let mut effects = vec![];
        let result = self.inner.as_mut().unwrap().poll(
            &mut self.world.sem.borrow_mut(),
            self.waker,
            false,
            &mut effects,
        );
        self.world.perform(effects);
        match result {
            Poll::Pending => None,
            Poll::Ready(x) => Some(x),
        }
    }

    fn poll_if_woken(&mut self) -> Option<Result<SemaphoreGuard, PoisonError>> {
        let count = self.count();
        if self.old_count != count {
            self.old_count = count;
            self.poll()
        } else {
            None
        }
    }

    fn into_inner(mut self) -> AcquireFuture {
        self.inner.take().unwrap()
    }
}

impl<'a> Drop for TestFuture<'a> {
    fn drop(&mut self) {
        if let Some(inner) = self.inner.take() {
            let mut effects = vec![];
            let rest = inner.drop(&mut self.world.sem.borrow_mut(), 0, false, &mut effects);
            assert!(rest.is_none());
            self.world.perform(effects);
        }
    }
}

#[test]
fn unit_test_simple() {
    // Binary semaphore should be exclusive:
    let semaphore = World::new(1);
    let mut a1 = TestFuture::new(&semaphore, 1);
    let g1 = a1.poll().unwrap().unwrap();
    let mut a2 = TestFuture::new(&semaphore, 1);
    assert_eq!(a1.count(), 0);
    assert_eq!(a2.count(), 0);
    assert!(a2.poll().is_none());
    semaphore.drop_guard(g1);
    assert_eq!(a1.count(), 0);
    assert_eq!(a2.count(), 1);
    assert!(a2.poll().is_some());
}

#[test]
fn test_zero_now() {
    let semaphore = World::new(1);
    let mut a1 = TestFuture::new(&semaphore, 0);
    let g1 = a1.poll().unwrap().unwrap();
    assert_eq!(a1.count(), 0);
    semaphore.drop_guard(g1);
}

#[test]
fn test_zero_pending() {
    let semaphore = World::new(0);
    println!("A {:?}", semaphore.sem.borrow().debug());
    let mut a1 = TestFuture::new(&semaphore, 1);
    println!("B {:?}", semaphore.sem.borrow().debug());
    assert!(a1.poll().is_none());
    println!("C {:?}", semaphore.sem.borrow().debug());
    let mut a2 = TestFuture::new(&semaphore, 0);
    let _g2 = a2.poll();
    assert!(a2.poll().is_none());
    assert_eq!(a1.count(), 0);
    assert_eq!(a2.count(), 0);
    mem::drop(a1);
    assert_eq!(a2.count(), 1);
    assert!(a2.poll().is_some());
}

#[test]
fn unit_test_cancel() {
    let semaphore = World::new(1);
    let mut a1 = TestFuture::new(&semaphore, 2);
    assert!(a1.poll().is_none());
    let mut a2 = TestFuture::new(&semaphore, 1);
    assert!(a2.poll().is_none());
    assert_eq!(a1.count(), 0);
    assert_eq!(a2.count(), 0);
    mem::drop(a1);
    assert_eq!(a2.count(), 1);
    assert!(a2.poll().is_some());
}

#[test]
fn test_extend() {
    let semaphore = World::new(15);
    assert_eq!(semaphore.available(), Some(15));
    let mut g1 = TestFuture::new(&semaphore, 10).poll().unwrap().unwrap();
    assert_eq!(semaphore.available(), Some(5));
    let g2 = TestFuture::new(&semaphore, 5).poll().unwrap().unwrap();
    assert_eq!(semaphore.available(), Some(0));
    g1.extend(g2);
    assert_eq!(semaphore.available(), Some(0));
    semaphore.drop_guard(g1);
    assert_eq!(semaphore.available(), Some(15));
}

// Attempting to combine guards will poison the semaphores if the permits would overflow
#[test]
fn test_extend_overflow() {
    let semaphore = World::new(Semaphore::MAX_AVAILABLE);
    let mut g1 =
        TestFuture::new(&semaphore, Semaphore::MAX_AVAILABLE).poll().unwrap().unwrap();
    let g2 = SemaphoreGuard::new(&semaphore.sem.borrow(), 1, false);
    g1.extend(g2);
    semaphore.drop_guard(g1);
    // At this point, the semaphore should be poisoned
    TestFuture::new(&semaphore, 1).poll().unwrap().err().unwrap();
}

#[test]
fn test_extend_arc() {
    let semaphore = World::new(15);
    assert_eq!(semaphore.available(), Some(15));
    let mut g1 = semaphore.acquire_arc_now(10).unwrap().unwrap();
    let g2 = semaphore.acquire_arc_now(5).unwrap().unwrap();
    assert_eq!(semaphore.available(), Some(0));
    g1.extend(g2);
    assert_eq!(semaphore.available(), Some(0));
    semaphore.drop_guard_arc(g1);
    assert_eq!(semaphore.available(), Some(15));
}

// Attempting to combine guards will poison the semaphores if the permits would overflow
#[test]
fn test_extend_arc_overflow() {
    let semaphore = World::new(Semaphore::MAX_AVAILABLE);
    let mut g1 = semaphore.acquire_arc_now(Semaphore::MAX_AVAILABLE).unwrap().unwrap();
    let g2 = SemaphoreGuardArc::new(&semaphore.sem.borrow(), 1, false);
    g1.extend(g2);
    semaphore.drop_guard_arc(g1);
    // At this point, the semaphore should be poisoned
    assert!(semaphore.acquire_arc_now(1).unwrap().is_err());
}

#[test]
fn test_split() {
    let semaphore = World::new(15);
    assert_eq!(semaphore.available(), Some(15));
    let mut g1 = TestFuture::new(&semaphore, 15).poll().unwrap().unwrap();
    let g2 = g1.split(5, false).unwrap();
    semaphore.drop_guard(g2);
    assert_eq!(semaphore.available(), Some(5));
    semaphore.drop_guard(g1);
    assert_eq!(semaphore.available(), Some(15));
}

#[test]
fn test_split_underflow() {
    let semaphore = World::new(15);
    assert_eq!(semaphore.available(), Some(15));
    let mut g1 = TestFuture::new(&semaphore, 5).poll().unwrap().unwrap();
    assert!(g1.split(10, false).is_err());
}

#[test]
fn test_split_arc() {
    let semaphore = World::new(15);
    assert_eq!(semaphore.available(), Some(15));
    let mut g1 = semaphore.acquire_arc_now(15).unwrap().unwrap();
    let g2 = g1.split(5, false).unwrap();
    semaphore.drop_guard_arc(g2);
    assert_eq!(semaphore.available(), Some(5));
    semaphore.drop_guard_arc(g1);
    assert_eq!(semaphore.available(), Some(15));
}

#[test]
fn test_split_arc_underflow() {
    let semaphore = World::new(15);
    assert_eq!(semaphore.available(), Some(15));
    let mut g1 = semaphore.acquire_arc_now(5).unwrap().unwrap();
    assert!(g1.split(10, false).is_err());
}

#[test]
fn test_leak() {
    let semaphore = World::new(1);
    let mut a1 = TestFuture::new(&semaphore, 2);
    assert!(a1.poll().is_none());
    mem::forget(a1.into_inner());
    mem::drop(semaphore);
}

// A guard that is dropped by a thread that is unwinding poisons the semaphore
#[test]
fn test_poison_panic() {
    let semaphore = World::new(1);
    let guard = TestFuture::new(&semaphore, 1).poll().unwrap().unwrap();
    let effects = guard.drop(&mut semaphore.sem.borrow_mut(), true);
    semaphore.perform(effects);
    TestFuture::new(&semaphore, 2).poll().unwrap().err().unwrap();
}

#[test]
fn test_poison_new() {
    let semaphore = World::new(usize::MAX);
    TestFuture::new(&semaphore, 2).poll().unwrap().err().unwrap();
}

#[test]
fn test_poison_release_immediate() {
    let semaphore = World::new(0);
    semaphore.release(usize::MAX);
    TestFuture::new(&semaphore, 2).poll().unwrap().err().unwrap();
}

#[test]
fn test_poison_release_add() {
    let semaphore = World::new(0);
    semaphore.release(Semaphore::MAX_AVAILABLE / 2);
    semaphore.release(Semaphore::MAX_AVAILABLE / 2 + 2);
    TestFuture::new(&semaphore, 2).poll().unwrap().err().unwrap();
}

#[test]
fn test_poison_release_concurrent() {
    let semaphore = World::new(0);
    let mut future = TestFuture::new(&semaphore, 2);
    assert!(future.poll().is_none());
    semaphore.release(usize::MAX);
    future.poll_if_woken().expect("done").err().expect("AcquireError");
}

#[test]
fn test_sequential() {
    let semaphore = World::new(0);
    let mut time = 0;
    let mut available = 0usize;
    let mut futures = BTreeMap::<usize, TestFuture>::new();
    let mut rng = XorShiftRng::seed_from_u64(954360855);
    for _ in 0..100000 {
        if rng.gen_bool(0.1) && futures.len() < 5 {
            let amount = rng.gen_range(0, 10);
            let mut fut = TestFuture::new(&semaphore, amount);
            if let Some(guard) = fut.poll() {
                guard.unwrap().forget();
                available = available.checked_sub(amount).unwrap();
            } else {
                futures.insert(time, fut);
            }
            time += 1;
        } else if rng.gen_bool(0.1) {
            let mut blocked = false;
            let mut ready = vec![];
            for (time, fut) in futures.iter_mut() {
                if rng.gen_bool(0.5) {
                    if let Some(guard) = fut.poll_if_woken() {
                        assert!(!blocked);
                        guard.unwrap().forget();
                        available = available.checked_sub(fut.amount).unwrap();
                        ready.push(*time);
                    } else {
                        blocked = true;
                    }
                }
            }
            for time in ready {
                futures.remove(&time);
            }
        } else if rng.gen_bool(0.1) && available < 30 {
            let amount = rng.gen_range(0, 10);
            available = available.checked_add(amount).unwrap();
            semaphore.release(amount);
        }
    }
}
