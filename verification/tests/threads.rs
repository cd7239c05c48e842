use async_std::future::timeout;
use async_weighted_semaphore::waker::{self, AtomicWaker, Effect, WakerParts, WakerResult};
use async_weighted_semaphore::{AcquireFuture, PoisonError, Semaphore, SemaphoreGuard};
use futures::executor::{block_on, LocalPool, ThreadPool};
use futures::task::{LocalSpawnExt, SpawnExt};
use rand::{thread_rng, Rng};
use std::collections::HashMap;
use std::future::Future;
use std::mem;
use std::pin::Pin;
use std::rc::Rc;
use std::sync::mpsc::sync_channel;
use std::sync::{Arc, Condvar, Mutex};
use std::task::{Context, Poll, Waker};
use std::time::Duration;

/// The wakers that were handed in, by number.
struct Wakers {
    next: usize,
    held: HashMap<usize, Waker>,
}

impl Wakers {
    fn new() -> Self {
        Wakers { next: 0, held: HashMap::new() }
    }

    fn hand_in(&mut self, waker: Waker) -> WakerParts {
        let data = self.next;
        self.next += 1;
        self.held.insert(data, waker);
        WakerParts { data, vtable: 1 }
    }

    /// Takes out the wakers that are given up. Returns those that are to be woken.
    fn perform(&mut self, effects: Vec<Effect>) -> Vec<Waker> {
        let mut woken = vec![];
        for effect in effects {
            match effect {
                Effect::Wake(waker) => woken.push(self.held.remove(&waker.data).unwrap()),
                Effect::Drop(waker) => mem::drop(self.held.remove(&waker.data).unwrap()),
                Effect::Unpark(_) => {}
            }
        }
        woken
    }
}

fn wake_all(woken: Vec<Waker>) {
    for waker in woken {
        waker.wake();
    }
}

/// A semaphore that threads share.
struct Shared {
    inner: Mutex<(Semaphore, Wakers)>,
}

impl Shared {
    fn new(initial: usize) -> Self {
        Shared { inner: Mutex::new((Semaphore::new(initial), Wakers::new())) }
    }

    fn acquire(&self, amount: usize) -> Acquire<'_> {
        let future = self.inner.lock().unwrap().0.acquire(amount);
        Acquire { shared: self, future: Some(future) }
    }

    fn release(&self, amount: usize) {
        let mut lock = self.inner.lock().unwrap();
        let effects = lock.0.release(amount);
        let woken = lock.1.perform(effects);
        mem::drop(lock);
        wake_all(woken);
    }

    fn drop_guard(&self, guard: SemaphoreGuard) {
        let mut lock = self.inner.lock().unwrap();
        let effects = guard.drop(&mut lock.0, false);
        let woken = lock.1.perform(effects);
        mem::drop(lock);
        wake_all(woken);
    }
}

struct Acquire<'a> {
    shared: &'a Shared,
    future: Option<AcquireFuture>,
}

impl<'a> Future for Acquire<'a> {
    type Output = Result<SemaphoreGuard, PoisonError>;

    fn poll(mut self: Pin<&mut Self>, cx: &mut Context<'_>) -> Poll<Self::Output> {
        let shared = self.shared;
        let mut lock = shared.inner.lock().unwrap();
        let (sem, wakers) = &mut *lock;
        let waker = wakers.hand_in(cx.waker().clone());
        let mut effects = vec![];
        let result = self.future.as_mut().unwrap().poll(sem, waker, false, &mut effects);
        let woken = wakers.perform(effects);
        mem::drop(lock);
        wake_all(woken);
        match result {
            waker::Poll::Ready(result) => Poll::Ready(result),
            waker::Poll::Pending => Poll::Pending,
        }
    }
}

impl<'a> Drop for Acquire<'a> {
    fn drop(&mut self) {
        let mut lock = self.shared.inner.lock().unwrap();
        let (sem, wakers) = &mut *lock;
        let mut effects = vec![];
        assert!(self.future.take().unwrap().drop(sem, 0, false, &mut effects).is_none());
        let woken = wakers.perform(effects);
        mem::drop(lock);
        wake_all(woken);
    }
}

#[test]
fn tests_test_simple() {
    let semaphore = Rc::new(Shared::new(10));
    let mut pool = LocalPool::new();
    let spawner = pool.spawner();
    spawner
        .spawn_local({
            let semaphore = semaphore.clone();
            async move {
                semaphore.acquire(10).await.unwrap().forget();
                semaphore.acquire(10).await.unwrap().forget();
            }
        })
        .unwrap();
    pool.run_until_stalled();
    semaphore.release(10);
    pool.run();
}

/// Many readers or one writer. The mutex only lets threads share the value: a writer finds it free.
struct RwLock<T> {
    semaphore: Shared,
    inner: Mutex<T>,
}

impl<T> RwLock<T> {
    fn new(inner: T) -> Self {
        RwLock { semaphore: Shared::new(Semaphore::MAX_AVAILABLE), inner: Mutex::new(inner) }
    }

    async fn read<U>(&self, f: impl FnOnce(&T) -> U) -> Result<U, PoisonError> {
        let guard = self.semaphore.acquire(1).await?;
        let result = f(&self.inner.lock().unwrap());
        self.semaphore.drop_guard(guard);
        Ok(result)
    }

    async fn write<U>(&self, f: impl FnOnce(&mut T) -> U) -> Result<U, PoisonError> {
        let guard = self.semaphore.acquire(Semaphore::MAX_AVAILABLE).await?;
        let result = f(&mut self.inner.try_lock().unwrap());
        self.semaphore.drop_guard(guard);
        Ok(result)
    }

    fn into_inner(self) -> Result<T, PoisonError> {
        let mut sem = self.semaphore.inner.into_inner().unwrap().0;
        match sem.try_acquire(0, false) {
            Ok(_) => Ok(self.inner.into_inner().unwrap()),
            Err(_) => Err(PoisonError),
        }
    }
}

#[test]
fn test() {
    let lock = Arc::new(RwLock::new(Vec::new()));
    let threads = 10;
    let iters = 500;
    let pool = ThreadPool::builder().pool_size(threads).create().unwrap();
    (0..threads)
        .map(|thread| {
            let lock = lock.clone();
            pool.spawn_with_handle(async move {
                for i in (thread..iters * threads + thread).step_by(threads) {
                    while lock.read(|vec| vec.len()).await.unwrap() != i {}
                    lock.write(|vec| vec.push(i)).await.unwrap()
                }
            })
            .unwrap()
        })
        .collect::<Vec<_>>()
        .into_iter()
        .for_each(block_on);
    mem::drop(pool);
    let vec = Arc::try_unwrap(lock).ok().unwrap().into_inner().unwrap();
    assert_eq!(vec, (0..threads * iters).collect::<Vec<_>>());
}

struct CheckedSemaphore {
    capacity: usize,
    semaphore: Shared,
    counter: Mutex<usize>,
}

impl CheckedSemaphore {
    fn new(capacity: usize) -> Self {
        CheckedSemaphore { capacity, semaphore: Shared::new(capacity), counter: Mutex::new(0) }
    }

    async fn acquire(&self, amount: usize) -> SemaphoreGuard {
        let guard = self.semaphore.acquire(amount).await.unwrap();
        let mut lock = self.counter.lock().unwrap();
        *lock += amount;
        assert!(*lock <= self.capacity);
        mem::drop(lock);
        guard
    }

    fn release(&self, amount: usize) {
        let mut lock = self.counter.lock().unwrap();
        assert!(*lock >= amount);
        *lock -= amount;
        mem::drop(lock);
        self.semaphore.release(amount);
    }
}

#[test]
fn test_multicore() {
    for i in 0..10 {
        println!("{:?}", i);
        test_multicore_impl();
    }
}

fn test_multicore_impl() {
    let capacity = 100;
    let semaphore = Arc::new(CheckedSemaphore::new(capacity));
    let pool = ThreadPool::builder().pool_size(10).create().unwrap();
    (0..100)
        .map(|_thread| {
            pool.spawn_with_handle({
                let semaphore = semaphore.clone();
                async move {
                    let mut owned = 0;
                    for _i in 0..100 {
                        if owned == 0 {
                            owned = thread_rng().gen_range(0, capacity + 1);
                            let dur = Duration::from_millis(thread_rng().gen_range(0, 10));
                            if let Ok(guard) = timeout(dur, semaphore.acquire(owned)).await {
                                guard.forget();
                            } else {
                                owned = 0;
                            }
                        } else {
                            let mut rng = thread_rng();
                            let r = if rng.gen_bool(0.5) {
                                owned
                            } else {
                                rng.gen_range(1, owned + 1)
                            };
                            owned -= r;
                            semaphore.release(r);
                        }
                    }
                    semaphore.release(owned);
                }
            })
            .unwrap()
        })
        .collect::<Vec<_>>()
        .into_iter()
        .for_each(block_on);
    mem::drop(pool);
    assert_eq!(Arc::strong_count(&semaphore), 1);
}

/// A waker whose future may be polled or cancelled while another thread finishes it.
struct Tester {
    waiter: Mutex<(AtomicWaker, Wakers)>,
    accepted: Condvar,
}

impl Tester {
    fn new() -> Self {
        Tester {
            waiter: Mutex::new((AtomicWaker::new(), Wakers::new())),
            accepted: Condvar::new(),
        }
    }

    fn finish(&self, poisoned: bool) -> WakerResult {
        let mut lock = self.waiter.lock().unwrap();
        let (waiter, wakers) = &mut *lock;
        let mut effects = vec![];
        let result = waiter.finish(poisoned, &mut effects);
        let woken = wakers.perform(effects);
        mem::drop(lock);
        wake_all(woken);
        result
    }

    fn accept_cancel(&self) {
        let mut lock = self.waiter.lock().unwrap();
        let mut effects = vec![];
        lock.0.accept_cancel(&mut effects);
        assert_eq!(effects, vec![Effect::Unpark(7)]);
        self.accepted.notify_all();
    }

    fn start_cancel(&self) -> WakerResult {
        self.waiter.lock().unwrap().0.start_cancel(7)
    }

    fn wait_cancel(&self) {
        let mut lock = self.waiter.lock().unwrap();
        while !lock.0.wait_cancel() {
            lock = self.accepted.wait(lock).unwrap();
        }
    }
}

struct Polling<'a>(&'a Tester);

impl<'a> Future for Polling<'a> {
    type Output = bool;

    fn poll(self: Pin<&mut Self>, cx: &mut Context<'_>) -> Poll<bool> {
        let mut lock = self.0.waiter.lock().unwrap();
        let (waiter, wakers) = &mut *lock;
        let parts = wakers.hand_in(cx.waker().clone());
        let mut effects = vec![];
        let result = waiter.poll(parts, &mut effects);
        assert!(wakers.perform(effects).is_empty());
        match result {
            waker::Poll::Ready(poisoned) => Poll::Ready(poisoned),
            waker::Poll::Pending => Poll::Pending,
        }
    }
}

fn test_race(cancel: bool) {
    let iters = 10000;
    let testers = Arc::new((0..iters).map(|_| Tester::new()).collect::<Vec<_>>());
    let pool = ThreadPool::builder().pool_size(2).create().unwrap();
    let (send, recv) = sync_channel(0);
    let h1 = pool
        .spawn_with_handle({
            let testers = testers.clone();
            async move {
                let mut results = vec![];
                for i in 0..iters {
                    let tester = &testers[i];
                    let mut polling = Polling(tester);
                    assert_eq!(None, futures::future::FutureExt::now_or_never(&mut polling));
                    send.send(i).unwrap();
                    let result = if cancel {
                        match tester.start_cancel() {
                            WakerResult::Cancelling => {
                                tester.wait_cancel();
                                None
                            }
                            WakerResult::Finished { poisoned } => Some(poisoned),
                        }
                    } else {
                        Some(polling.await)
                    };
                    results.push(result);
                }
                results
            }
        })
        .unwrap();
    let h2 = pool
        .spawn_with_handle({
            let testers = testers.clone();
            async move {
                let mut results = vec![];
                for i in 0..iters {
                    let tester = &testers[recv.recv().unwrap()];
                    let result = match tester.finish(i % 2 == 0) {
                        WakerResult::Cancelling => {
                            tester.accept_cancel();
                            WakerResult::Cancelling
                        }
                        WakerResult::Finished { poisoned } => WakerResult::Finished { poisoned },
                    };
                    results.push(result);
                }
                results
            }
        })
        .unwrap();
    let r1 = block_on(h1);
    let r2 = block_on(h2);
    for (send, recv) in r1.into_iter().zip(r2.into_iter()) {
        match (cancel, send, recv) {
            (_, Some(o), WakerResult::Finished { poisoned: i }) if i == o => {}
            (true, None, WakerResult::Cancelling) => {}
            _ => panic!("Unexpected outcome {:?}", (cancel, send, recv)),
        }
    }
}

#[test]
fn test_poll_race() {
    test_race(false);
}

#[test]
fn test_cancel_race() {
    test_race(true);
}
