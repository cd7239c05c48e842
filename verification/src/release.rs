use crate::atomic::Packable;
use crate::semaphore::Semaphore;
use crate::state::{AcquireState, Permits, ReleaseState, WaiterPtr};
use crate::waiters::at;
use crate::waker::{Effect, WakerResult};
use vstd::pervasive::unreached;
use vstd::prelude::*;

verus! {

/// The state of a single call to release.
///
/// The methods are the steps of the call. Other calls may run between any two of them. The methods
/// that end in `_from` take as `seen` what was read of the semaphore, however long ago that was.
pub struct ReleaseAction {
    pub releasable: Permits,
}

impl ReleaseAction {
    /// Attempts to acquire the release lock. If it is locked, defers the release to its owner by
    /// leaving the permits in `release`.
    pub fn lock_or_else_defer_from(&mut self, sem: &mut Semaphore, seen: ReleaseState) -> (res: bool)
        requires
            old(sem).wf(),
            seen.canon() == seen,
        ensures
            final(sem).wf(),
            final(sem)@ == old(sem)@.lock_tried(old(self).releasable),
            res == (old(sem)@.release is Unlocked),
            final(self).releasable == match old(sem)@.release {
                ReleaseState::Unlocked(available) => old(self).releasable.plus(available),
                _ => old(self).releasable,
            },
    {
        proof {
            sem.lemma_inside();
        }
        let mut current = seen;
        loop
            invariant
                sem.inv(),
                sem.inside() == old(sem)@,
                self.releasable == old(self).releasable,
                current.canon() == current,
            decreases (if current == sem.release@ { 0int } else { 1 }),
        {
            match current {
                ReleaseState::Unlocked(available) => {
                    if sem.release.cmpxchg_weak_acqrel(&mut current, ReleaseState::Locked) {
                        self.releasable = self.releasable + available;
                        proof {
                            sem.lemma_inside();
                        }
                        return true;
                    }
                },
                ReleaseState::Locked => {
                    if sem.release.cmpxchg_weak_acqrel(
                        &mut current,
                        ReleaseState::LockedDirty(self.releasable),
                    ) {
                        proof {
                            sem.lemma_inside();
                        }
                        return false;
                    }
                },
                ReleaseState::LockedDirty(available) => {
                    if sem.release.cmpxchg_weak_acqrel(
                        &mut current,
                        ReleaseState::LockedDirty(available + self.releasable),
                    ) {
                        proof {
                            sem.lemma_inside();
                        }
                        return false;
                    }
                },
            }
        }
    }

    /// Attempts to acquire the release lock. If it is locked, defers the release to its owner by
    /// leaving the permits in `release`.
    pub fn lock_or_else_defer(&mut self, sem: &mut Semaphore) -> (res: bool)
        requires
            old(sem).wf(),
        ensures
            final(sem).wf(),
            final(sem)@ == old(sem)@.lock_tried(old(self).releasable),
            res == (old(sem)@.release is Unlocked),
            final(self).releasable == match old(sem)@.release {
                ReleaseState::Unlocked(available) => old(self).releasable.plus(available),
                _ => old(self).releasable,
            },
    {
        proof {
            sem.lemma_inside();
        }
        let seen = sem.release.load();
        self.lock_or_else_defer_from(sem, seen)
    }

    /// Takes all cancellations, so that they can be accepted. Returns the first one.
    pub fn take_cancels(&mut self, sem: &mut Semaphore) -> (res: WaiterPtr)
        requires
            old(sem).wf(),
            old(sem)@.locked(),
            old(sem)@.waiters.taken.len() == 0,
        ensures
            final(sem).wf(),
            final(sem)@ == old(sem)@.with_waiters(old(sem)@.waiters.cancels_taken()),
            res == at(old(sem)@.waiters.cancels, 0),
            final(self).releasable == old(self).releasable,
    {
        proof {
            sem.lemma_inside();
        }
        let next_cancel = sem.next_cancel.swap(WaiterPtr::null());
        sem.waiters.take_cancels();
        proof {
            sem.waiters.lemma_ok();
            sem.lemma_inside();
        }
        next_cancel
    }

    /// If the queue is empty, makes the permits available. Otherwise links the waiters that
    /// arrived last.
    pub fn flip_from(&mut self, sem: &mut Semaphore, seen: AcquireState)
        requires
            old(sem).wf(),
            old(sem)@.locked(),
            seen.fits(),
            seen.canon() == seen,
        ensures
            final(sem).wf(),
            seen == AcquireState::Queued(WaiterPtr(0)) && old(sem)@.waiters.queue.len() > 0
                ==> final(sem)@ == old(sem)@ && final(self).releasable == old(self).releasable,
            !(seen == AcquireState::Queued(WaiterPtr(0)) && old(sem)@.waiters.queue.len() > 0)
                ==> final(sem)@ == old(sem)@.flipped(old(self).releasable)
                && final(self).releasable == old(sem)@.flip_left(old(self).releasable),
    {
        proof {
            sem.lemma_inside();
        }
        let mut current = seen;
        loop
            invariant
                sem.inv(),
                sem.inside() == old(sem)@,
                old(sem).inv(),
                self.releasable == old(self).releasable,
                current.fits(),
                current.canon() == current,
                current == seen || current == sem.acquire@ && !(seen == AcquireState::Queued(
                    WaiterPtr(0),
                ) && sem.waiters@.queue.len() > 0),
            decreases (if current == sem.acquire@ { 0int } else { 1 }),
        {
            proof {
                sem.acquire.lemma_canonical();
                sem.waiters.lemma_ok();
                sem.inside().lemma_back();
            }
            match current {
                AcquireState::Available(available) => {
                    if sem.acquire.cmpxchg_weak_acqrel(
                        &mut current,
                        AcquireState::Available(available + self.releasable),
                    ) {
                        self.releasable = Permits::new(0);
                        proof {
                            sem.lemma_inside();
                        }
                        return;
                    }
                },
                AcquireState::Queued(back) => {
                    if back.is_null() && sem.waiters.front().is_null() {
                        if sem.acquire.cmpxchg_weak_acqrel(
                            &mut current,
                            AcquireState::Available(self.releasable),
                        ) {
                            self.releasable = Permits::new(0);
                            proof {
                                sem.lemma_inside();
                            }
                            return;
                        }
                    } else {
                        if back.is_null() {
                            proof {
                                sem.lemma_inside();
                                assert(sem.waiters@.queue + sem.waiters@.stack
                                    =~= sem.waiters@.queue || current != sem.acquire@);
                            }
                            return;
                        }
                        if sem.acquire.cmpxchg_weak_acqrel(
                            &mut current,
                            AcquireState::Queued(WaiterPtr::null()),
                        ) {
                            sem.waiters.link(back);
                            proof {
                                sem.waiters.lemma_ok();
                                sem.lemma_inside();
                            }
                            return;
                        }
                    }
                },
            }
        }
    }

    /// If the queue is empty, makes the permits available. Otherwise links the waiters that
    /// arrived last.
    pub fn flip(&mut self, sem: &mut Semaphore)
        requires
            old(sem).wf(),
            old(sem)@.locked(),
        ensures
            final(sem).wf(),
            final(sem)@ == old(sem)@.flipped(old(self).releasable),
            final(self).releasable == old(sem)@.flip_left(old(self).releasable),
    {
        proof {
            sem.lemma_inside();
            sem@.lemma_back();
        }
        let seen = sem.acquire.load();
        self.flip_from(sem, seen);
        proof {
            let w = old(sem)@.waiters;
            if seen == AcquireState::Queued(WaiterPtr(0)) && w.queue.len() > 0 {
                assert(w.queue + w.stack =~= w.queue);
                assert(w.all_linked() =~= w);
                assert(old(sem)@.flipped(old(self).releasable) =~= old(sem)@);
            }
        }
    }

    /// Accepts the cancellations that were taken, removing their waiters from the queue. They have
    /// to be linked.
    pub fn cancel(&mut self, sem: &mut Semaphore, next_cancel: WaiterPtr, effects: &mut Vec<Effect>)
        requires
            old(sem).wf(),
            old(sem)@.locked(),
            next_cancel == at(old(sem)@.waiters.taken, 0),
            forall|ptr: WaiterPtr| #[trigger]
                old(sem)@.waiters.taken.contains(ptr) ==> old(sem)@.waiters.queue.contains(ptr),
        ensures
            final(sem).wf(),
            final(sem)@ == old(sem)@.with_waiters(old(sem)@.waiters.all_cancelled()),
            final(effects)@ == old(effects)@ + old(sem)@.waiters.cancel_effects(),
            final(self).releasable == old(self).releasable,
    {
        proof {
            sem.lemma_inside();
        }
        let mut next_cancel = next_cancel;
        while !next_cancel.is_null()
            invariant
                sem.inv(),
                old(sem).inv(),
                next_cancel == at(sem.waiters@.taken, 0),
                forall|ptr: WaiterPtr| #[trigger]
                    sem.waiters@.taken.contains(ptr) ==> sem.waiters@.queue.contains(ptr),
                sem.inside() == old(sem).inside().with_waiters(sem.waiters@),
                sem.waiters@.all_cancelled() == old(sem).waiters@.all_cancelled(),
                effects@ + sem.waiters@.cancel_effects() == old(effects)@ + old(
                    sem,
                ).waiters@.cancel_effects(),
                self.releasable == old(self).releasable,
            decreases sem.waiters@.taken.len(),
        {
            let ghost w = sem.waiters@;
            proof {
                sem.waiters.lemma_ok();
                assert(w.taken.contains(w.taken[0]));
                w.lemma_all_cancelled();
                w.lemma_next_cancelled();
            }
            next_cancel = sem.waiters.cancel_next(next_cancel, effects);
            proof {
                let n = sem.waiters@;
                assert forall|ptr: WaiterPtr| #[trigger] n.taken.contains(ptr) implies n.queue.contains(
                    ptr,
                ) by {
                    let i = choose|i: int| 0 <= i < n.taken.len() && n.taken[i] == ptr;
                    assert(w.taken[i + 1] == ptr);
                    assert(w.taken.contains(ptr));
                    let c = w.taken + w.cancels;
                    assert(c[0] == w.taken[0] && c[i + 1] == ptr);
                }
            }
        }
        proof {
            sem.waiters.lemma_ok();
            sem.waiters@.lemma_null_taken();
            sem.waiters@.lemma_none_cancelled();
            sem.lemma_inside();
        }
    }

    /// Tries to finish the first waiter of the queue and to remove it.
    pub fn try_pop(&mut self, sem: &mut Semaphore, effects: &mut Vec<Effect>) -> (res: bool)
        requires
            old(sem).wf(),
            old(sem)@.locked(),
            old(sem)@.waiters.queue.len() > 0,
        ensures
            final(sem).wf(),
            res == old(sem)@.waiters.servable(old(self).releasable),
            ({
                let w = old(sem)@.waiters;
                let permits = old(self).releasable;
                if res {
                    &&& final(sem)@ == old(sem)@.with_waiters(w.popped(permits.poisoned()))
                    &&& final(self).releasable == w.after_first(permits)
                    &&& final(effects)@ == old(effects)@ + w.entries[w.queue[0]].waker.finish_effects()
                } else {
                    &&& final(sem)@ == old(sem)@
                    &&& final(self).releasable == permits
                    &&& final(effects)@ == old(effects)@
                }
            }),
    {
        proof {
            sem.lemma_inside();
            let w = sem.waiters@;
            assert(w.pending()[0] == w.queue[0]);
            assert(w.pending().contains(w.queue[0]));
            assert(w.may_pend(w.queue[0]));
        }
        let front = sem.waiters.front();
        let amount: usize = sem.waiters.amount(front);
        let releasable = self.releasable.into_usize();
        if let Some(releasable) = releasable {
            if releasable < amount {
                return false;
            }
        }
        match sem.waiters.finish_front(releasable.is_none(), effects) {
            WakerResult::Cancelling => {
                proof {
                    sem.lemma_inside();
                }
                false
            },
            WakerResult::Finished { .. } => {
                if let Some(releasable) = releasable {
                    self.releasable = Permits::new(releasable - amount);
                }
                proof {
                    sem.waiters.lemma_ok();
                    sem.lemma_inside();
                }
                true
            },
        }
    }

    /// Attempts to unlock the release lock. If a release was deferred in the meantime, keeps the
    /// lock in order to complete it.
    pub fn try_unlock_from(&mut self, sem: &mut Semaphore, seen: ReleaseState) -> (res: bool)
        requires
            old(sem).wf(),
            old(sem)@.locked(),
            old(sem)@.waiters.taken.len() == 0,
            seen.canon() == seen,
            !(seen is Unlocked),
        ensures
            final(sem).wf(),
            final(sem)@ == old(sem)@.unlock_tried(old(self).releasable),
            res == (old(sem)@.release is Locked),
            final(self).releasable == match old(sem)@.release {
                ReleaseState::LockedDirty(available) => old(self).releasable.plus(available),
                _ => old(self).releasable,
            },
    {
        proof {
            sem.lemma_inside();
        }
        let mut current = seen;
        loop
            invariant
                sem.inv(),
                sem.inside() == old(sem)@,
                sem.inside().locked(),
                sem.waiters@.taken.len() == 0,
                self.releasable == old(self).releasable,
                current.canon() == current,
                !(current is Unlocked),
            decreases (if current == sem.release@ { 0int } else { 1 }),
        {
            match current {
                ReleaseState::LockedDirty(available) => {
                    if sem.release.cmpxchg_weak_acqrel(&mut current, ReleaseState::Locked) {
                        self.releasable = self.releasable + available;
                        proof {
                            sem.lemma_inside();
                        }
                        return false;
                    }
                },
                ReleaseState::Unlocked(_) => unreached(),
                ReleaseState::Locked => {
                    if sem.release.cmpxchg_weak_acqrel(
                        &mut current,
                        ReleaseState::Unlocked(self.releasable),
                    ) {
                        proof {
                            sem.lemma_inside();
                        }
                        return true;
                    }
                },
            }
        }
    }

    /// Attempts to unlock the release lock. If a release was deferred in the meantime, keeps the
    /// lock in order to complete it.
    pub fn try_unlock(&mut self, sem: &mut Semaphore) -> (res: bool)
        requires
            old(sem).wf(),
            old(sem)@.locked(),
            old(sem)@.waiters.taken.len() == 0,
        ensures
            final(sem).wf(),
            final(sem)@ == old(sem)@.unlock_tried(old(self).releasable),
            res == (old(sem)@.release is Locked),
            final(self).releasable == match old(sem)@.release {
                ReleaseState::LockedDirty(available) => old(self).releasable.plus(available),
                _ => old(self).releasable,
            },
    {
        proof {
            sem.lemma_inside();
        }
        let seen = sem.release.load();
        self.try_unlock_from(sem, seen)
    }

    /// Finishes the first waiters of the queue until one cannot be.
    pub fn pop_all(&mut self, sem: &mut Semaphore, effects: &mut Vec<Effect>)
        requires
            old(sem).wf(),
            old(sem)@.locked(),
        ensures
            final(sem).wf(),
            final(sem)@ == old(sem)@.with_waiters(
                old(sem)@.waiters.served(old(self).releasable),
            ),
            final(self).releasable == old(sem)@.waiters.permits_left(old(self).releasable),
            final(effects)@ == old(effects)@ + old(sem)@.waiters.wakes(old(self).releasable),
    {
        loop
            invariant
                sem.wf(),
                sem@.locked(),
                sem@ == old(sem)@.with_waiters(sem@.waiters),
                sem@.waiters.served(self.releasable) == old(sem)@.waiters.served(
                    old(self).releasable,
                ),
                sem@.waiters.permits_left(self.releasable) == old(sem)@.waiters.permits_left(
                    old(self).releasable,
                ),
                effects@ + sem@.waiters.wakes(self.releasable) == old(effects)@ + old(
                    sem,
                )@.waiters.wakes(old(self).releasable),
            decreases sem@.waiters.queue.len(),
        {
            proof {
                sem.lemma_inside();
            }
            if sem.waiters.front().is_null() {
                return;
            }
            if !self.try_pop(sem, effects) {
                return;
            }
        }
    }

    /// Does with the permits what can be done: removes cancelled waiters, finishes the first
    /// waiters of the queue while the permits last, and makes the rest available if no waiter is
    /// left.
    pub fn serve(&mut self, sem: &mut Semaphore, effects: &mut Vec<Effect>)
        requires
            old(sem).wf(),
            old(sem)@.locked(),
            old(sem)@.waiters.taken.len() == 0,
        ensures
            final(sem).wf(),
            final(sem)@ == old(sem)@.rounded(old(self).releasable),
            final(self).releasable == old(sem)@.round_left(old(self).releasable),
            final(effects)@ == old(effects)@ + old(sem)@.round_effects(old(self).releasable),
            final(sem)@.release == old(sem)@.release,
            final(sem)@.waiters.taken.len() == 0,
    {
        let ghost w = sem@.waiters;
        proof {
            sem.lemma_inside();
            if w.pending().len() == 0 {
                w.lemma_nothing_to_clear();
            }
        }
        // Take the cancellations first to ensure that their waiters get linked.
        let next_cancel = self.take_cancels(sem);
        self.flip(sem);
        proof {
            sem.lemma_inside();
            let v = sem@.waiters;
            assert forall|ptr: WaiterPtr| #[trigger] v.taken.contains(ptr) implies v.queue.contains(
                ptr,
            ) by {
                v.lemma_taken(ptr);
                assert(v.pending() =~= v.queue);
            }
        }
        self.cancel(sem, next_cancel, effects);
        let ghost cleared = sem@.waiters;
        proof {
            sem.lemma_inside();
            cleared.lemma_served(self.releasable);
        }
        self.pop_all(sem, effects);
        proof {
            sem.lemma_inside();
        }
        if sem.waiters.front().is_null() {
            self.flip(sem);
        }
    }

    /// Serves until nothing is deferred to the owner of the lock any more, and gives it back.
    pub fn drain(&mut self, sem: &mut Semaphore, effects: &mut Vec<Effect>)
        requires
            old(sem).wf(),
            old(sem)@.locked(),
            old(sem)@.waiters.taken.len() == 0,
        ensures
            final(sem).wf(),
            final(sem)@ == old(sem)@.drained(old(self).releasable),
            final(self).releasable == old(sem)@.drain_left(old(self).releasable),
            final(effects)@ == old(effects)@ + old(sem)@.drain_effects(old(self).releasable),
    {
        loop
            invariant
                sem.wf(),
                sem@.locked(),
                sem@.waiters.taken.len() == 0,
                sem@.drained(self.releasable) == old(sem)@.drained(old(self).releasable),
                sem@.drain_left(self.releasable) == old(sem)@.drain_left(old(self).releasable),
                effects@ + sem@.drain_effects(self.releasable) == old(effects)@ + old(
                    sem,
                )@.drain_effects(old(self).releasable),
            decreases (if sem@.release is Locked { 0int } else { 1 }),
        {
            self.serve(sem, effects);
            if self.try_unlock(sem) {
                return;
            }
        }
    }

    /// Performs a release.
    pub fn release(&mut self, sem: &mut Semaphore, effects: &mut Vec<Effect>)
        requires
            old(sem).wf(),
        ensures
            final(sem).wf(),
            final(sem)@ == old(sem)@.released(old(self).releasable),
            final(self).releasable == old(sem)@.release_left(old(self).releasable),
            final(effects)@ == old(effects)@ + old(sem)@.release_effects(old(self).releasable),
    {
        proof {
            sem.lemma_inside();
        }
        if !self.lock_or_else_defer(sem) {
            return;
        }
        self.drain(sem, effects);
    }
}

} // verus!
