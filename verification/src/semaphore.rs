use crate::acquire::{AcquireFuture, AcquireFutureArc};
use crate::atomic::{Atomic, Packable};
use crate::errors::TryAcquireError;
use crate::guard::{SemaphoreGuard, SemaphoreGuardArc};
use crate::model::{refusal, SemaphoreView};
use crate::release::ReleaseAction;
use crate::state::{AcquireState, Permits, ReleaseState, WaiterPtr};
use crate::table::max_waiters;
use crate::waiters::{at, Waiters};
use crate::waker::Effect;
use vstd::prelude::*;

verus! {

/// A weighted semaphore.
pub struct Semaphore {
    pub(crate) address: usize,
    /// The number of available permits or the last waiter that is not linked yet.
    pub(crate) acquire: Atomic<AcquireState>,
    /// The release lock and the permits that it guards.
    pub(crate) release: Atomic<ReleaseState>,
    /// The stack of cancellations.
    pub(crate) next_cancel: Atomic<WaiterPtr>,
    pub(crate) waiters: Waiters,
}

impl Semaphore {
    /// The maximum number of permits that can be made available. If the number of available
    /// permits exceeds it, the semaphore is poisoned.
    pub const MAX_AVAILABLE: usize = usize::MAX / 8;

    pub closed spec fn view(&self) -> SemaphoreView {
        self.inside()
    }

    pub closed spec fn wf(&self) -> bool {
        self.inv()
    }

    pub(crate) open spec fn inside(&self) -> SemaphoreView {
        SemaphoreView {
            address: self.address,
            acquire: self.acquire@,
            release: self.release@,
            waiters: self.waiters@,
        }
    }

    pub(crate) open spec fn inv(&self) -> bool {
        &&& self.acquire.wf()
        &&& self.release.wf()
        &&& self.next_cancel.wf()
        &&& self.waiters.wf()
        &&& self.inside().ok()
        &&& self.next_cancel@ == at(self.waiters@.cancels, 0)
    }

    pub(crate) proof fn lemma_inside(&self)
        ensures
            self@ == self.inside(),
            self.wf() == self.inv(),
    {
    }

    /// The contents of a semaphore fit together.
    pub proof fn lemma_ok(&self)
        requires
            self.wf(),
        ensures
            self@.ok(),
            self@.waiters.entries.dom().finite(),
    {
        self.waiters.lemma_ok();
    }

    pub fn address(&self) -> (res: usize)
        ensures
            res == self@.address,
    {
        self.address
    }

    /// Creates a semaphore with an initial number of permits.
    pub fn new(initial: usize) -> (res: Self)
        ensures
            res.wf(),
            res@ == SemaphoreView::fresh(0, initial),
    {
        Self::new_at(0, initial)
    }

    /// Creates a semaphore with an initial number of permits. The address tells it from others.
    pub fn new_at(address: usize, initial: usize) -> (res: Self)
        ensures
            res.wf(),
            res@ == SemaphoreView::fresh(address, initial),
    {
        Semaphore {
            address,
            acquire: Atomic::new(AcquireState::Available(Permits::new(initial))),
            release: Atomic::new(ReleaseState::Unlocked(Permits::new(0))),
            next_cancel: Atomic::new(WaiterPtr::null()),
            waiters: Waiters::new(),
        }
    }

    /// Acquires permits. `seen` is what was read of `acquire`, however long ago that was: if it
    /// refuses the permits, that is the result. Otherwise the result is that of the present.
    pub fn try_acquire_from(
        &mut self,
        seen: AcquireState,
        amount: usize,
        panicking: bool,
    ) -> (res: Result<SemaphoreGuard, TryAcquireError>)
        requires
            old(self).wf(),
            seen.fits(),
            seen.canon() == seen,
        ensures
            final(self).wf(),
            ({
                let found = if refusal(seen, amount) is Some {
                    seen
                } else {
                    old(self)@.acquire
                };
                match refusal(found, amount) {
                    Some(error) => {
                        &&& res == Err::<SemaphoreGuard, TryAcquireError>(error)
                        &&& final(self)@ == old(self)@
                    },
                    None => {
                        &&& res == Ok::<SemaphoreGuard, TryAcquireError>(
                            SemaphoreGuard { semaphore: old(self)@.address, amount, panicking },
                        )
                        &&& final(self)@ == old(self)@.taken_at_once(amount)
                    },
                }
            }),
    {
        let mut current = seen;
        loop
            invariant
                self.inv(),
                self.inside() == old(self).inside(),
                current.fits(),
                current.canon() == current,
                current == seen || current == self.acquire@ && refusal(seen, amount) is None,
            decreases (if current == self.acquire@ { 0int } else { 1 }),
        {
            proof {
                self.acquire.lemma_canonical();
            }
            match current {
                AcquireState::Queued(_) => {
                    return Err(TryAcquireError::WouldBlock);
                },
                AcquireState::Available(available) => match available.into_usize() {
                    Some(available) => {
                        if amount <= available {
                            if self.acquire.cmpxchg_weak_acqrel(
                                &mut current,
                                AcquireState::Available(Permits::new(available - amount)),
                            ) {
                                return Ok(
                                    SemaphoreGuard { semaphore: self.address, amount, panicking },
                                );
                            }
                        } else {
                            return Err(TryAcquireError::WouldBlock);
                        }
                    },
                    None => {
                        return Err(TryAcquireError::Poisoned);
                    },
                },
            }
        }
    }

    /// Like `acquire`, but fails if the call would block.
    pub fn try_acquire(&mut self, amount: usize, panicking: bool) -> (res: Result<
        SemaphoreGuard,
        TryAcquireError,
    >)
        requires
            old(self).wf(),
        ensures
            final(self).wf(),
            match refusal(old(self)@.acquire, amount) {
                Some(error) => {
                    &&& res == Err::<SemaphoreGuard, TryAcquireError>(error)
                    &&& final(self)@ == old(self)@
                },
                None => {
                    &&& res == Ok::<SemaphoreGuard, TryAcquireError>(
                        SemaphoreGuard { semaphore: old(self)@.address, amount, panicking },
                    )
                    &&& final(self)@ == old(self)@.taken_at_once(amount)
                },
            },
    {
        let seen = self.acquire.load();
        self.try_acquire_from(seen, amount, panicking)
    }

    /// Like `try_acquire`, but returns a guard of a shared semaphore.
    pub fn try_acquire_arc(&mut self, amount: usize, panicking: bool) -> (res: Result<
        SemaphoreGuardArc,
        TryAcquireError,
    >)
        requires
            old(self).wf(),
        ensures
            final(self).wf(),
            match refusal(old(self)@.acquire, amount) {
                Some(error) => {
                    &&& res == Err::<SemaphoreGuardArc, TryAcquireError>(error)
                    &&& final(self)@ == old(self)@
                },
                None => {
                    &&& res == Ok::<SemaphoreGuardArc, TryAcquireError>(
                        SemaphoreGuardArc {
                            semaphore: Some(old(self)@.address),
                            amount,
                            panicking,
                        },
                    )
                    &&& final(self)@ == old(self)@.taken_at_once(amount)
                },
            },
    {
        match self.try_acquire(amount, panicking) {
            Ok(guard) => {
                let result = SemaphoreGuardArc::new(self, amount, panicking);
                guard.forget();
                Ok(result)
            },
            Err(error) => Err(error),
        }
    }

    /// Starts to wait until there are no older pending acquires and at least `amount` permits are
    /// available. The future does so when it is polled.
    pub fn acquire(&mut self, amount: usize) -> (res: AcquireFuture)
        requires
            old(self).wf(),
            old(self)@.waiters.entries.dom().len() < max_waiters(),
        ensures
            final(self).wf(),
            !old(self)@.waiters.entries.contains_key(res.waiter),
            res.waiter != WaiterPtr(0) && res.waiter.aligned(),
            final(self)@.waiters.entries.contains_key(res.waiter),
            final(self)@.waiters.entries[res.waiter].amount == amount,
            final(self)@.waiters.entries[res.waiter].step is Entering,
            final(self)@.waiters.entries[res.waiter].waker.state is Pending,
            final(self)@.waiters.entries[res.waiter].waker.vtable == 0,
            final(self)@ == old(self)@.with_waiters(
                old(self)@.waiters.inserted(res.waiter, old(self)@.address, amount),
            ),
    {
        let waiter = self.waiters.insert(self.address, amount);
        proof {
            self.waiters.lemma_ok();
            assert(self.waiters@.entries.contains_key(waiter));
        }
        AcquireFuture { waiter }
    }

    /// Like `acquire`, but the future gives a guard of a shared semaphore.
    pub fn acquire_arc(&mut self, amount: usize) -> (res: AcquireFutureArc)
        requires
            old(self).wf(),
            old(self)@.waiters.entries.dom().len() < max_waiters(),
        ensures
            final(self).wf(),
            res.arc == old(self)@.address,
            !old(self)@.waiters.entries.contains_key(res.inner.waiter),
            res.inner.waiter != WaiterPtr(0) && res.inner.waiter.aligned(),
            final(self)@.waiters.entries.contains_key(res.inner.waiter),
            final(self)@.waiters.entries[res.inner.waiter].amount == amount,
            final(self)@.waiters.entries[res.inner.waiter].step is Entering,
            final(self)@.waiters.entries[res.inner.waiter].waker.state is Pending,
            final(self)@.waiters.entries[res.inner.waiter].waker.vtable == 0,
            final(self)@ == old(self)@.with_waiters(
                old(self)@.waiters.inserted(res.inner.waiter, old(self)@.address, amount),
            ),
    {
        let inner = self.acquire(amount);
        AcquireFutureArc { arc: self.address, inner }
    }

    /// Returns `amount` permits to the semaphore. The wakers of the acquires that succeed with
    /// them are to be woken.
    pub fn release(&mut self, amount: usize) -> (res: Vec<Effect>)
        requires
            old(self).wf(),
        ensures
            final(self).wf(),
            final(self)@ == old(self)@.released(Permits(amount)),
            res@ == old(self)@.release_effects(Permits(amount)),
    {
        let mut effects: Vec<Effect> = Vec::new();
        let mut action = ReleaseAction { releasable: Permits::new(amount) };
        action.release(self, &mut effects);
        effects
    }

    /// Poisons the semaphore: all pending and future acquires fail. The wakers of the pending ones
    /// are to be woken.
    pub fn poison(&mut self) -> (res: Vec<Effect>)
        requires
            old(self).wf(),
        ensures
            final(self).wf(),
            final(self)@ == old(self)@.released(Permits(usize::MAX)),
            res@ == old(self)@.release_effects(Permits(usize::MAX)),
    {
        let mut effects: Vec<Effect> = Vec::new();
        let mut action = ReleaseAction { releasable: Permits::poison() };
        action.release(self, &mut effects);
        effects
    }

    /// What `acquire` holds, as the `_from` methods take it.
    pub fn acquire_state(&self) -> (res: AcquireState)
        requires
            self.wf(),
        ensures
            res == self@.acquire,
            res.fits(),
            res.canon() == res,
    {
        self.acquire.load()
    }

    /// What `release` holds, as the `_from` methods take it.
    pub fn release_state(&self) -> (res: ReleaseState)
        requires
            self.wf(),
        ensures
            res == self@.release,
            res.canon() == res,
    {
        self.release.load()
    }
}

} // verus!
