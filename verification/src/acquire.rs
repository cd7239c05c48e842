use crate::atomic::Packable;
use crate::errors::PoisonError;
use crate::guard::{SemaphoreGuard, SemaphoreGuardArc};
use crate::model::{entry, SemaphoreView};
use crate::release::ReleaseAction;
use crate::semaphore::Semaphore;
use crate::state::{AcquireState, AcquireStep, Permits, WaiterPtr};
use crate::waker::{next_seq, seqs, Effect, Poll, State, WakerParts, WakerResult};
use vstd::pervasive::unreached;
use vstd::prelude::*;

verus! {

/// Waits for permits. The state is in the waiter.
///
/// The methods that end in `_from` take as `seen` what was read of the semaphore, however long ago
/// that was.
pub struct AcquireFuture {
    pub waiter: WaiterPtr,
}

/// Waits for permits of a shared semaphore.
pub struct AcquireFutureArc {
    /// The address of the semaphore.
    pub arc: usize,
    pub inner: AcquireFuture,
}

/// How a future entered.
pub enum Entered {
    /// It got its result at once.
    Ready(Result<SemaphoreGuard, PoisonError>),
    /// It is pending. The permits that were available are now to be released. This is so even if
    /// there are none, to make sure that a release looks at the new waiter.
    Queued { available: usize },
}

impl AcquireFuture {
    /// The waiter of this future is one of the semaphore.
    pub open spec fn of(&self, sem: SemaphoreView) -> bool {
        sem.waiters.entries.contains_key(self.waiter)
    }

    pub open spec fn amount(&self, sem: SemaphoreView) -> usize {
        sem.waiters.entries[self.waiter].amount
    }

    pub open spec fn step(&self, sem: SemaphoreView) -> AcquireStep {
        sem.waiters.entries[self.waiter].step
    }

    pub open spec fn state(&self, sem: SemaphoreView) -> State {
        sem.waiters.entries[self.waiter].waker.state
    }

    /// This future has not been polled.
    pub open spec fn entering(&self, sem: SemaphoreView) -> bool {
        &&& self.of(sem)
        &&& self.step(sem) is Entering
        &&& self.state(sem) is Pending
    }

    /// This future has been polled and is neither being polled nor being dropped.
    pub open spec fn waiting(&self, sem: SemaphoreView) -> bool {
        &&& self.of(sem)
        &&& self.step(sem) is Waiting
        &&& sem.waiters.entries[self.waiter].waker.idle()
    }

    /// The result of the first poll.
    pub open spec fn ready(
        &self,
        sem: SemaphoreView,
        outcome: Result<(), PoisonError>,
        panicking: bool,
    ) -> Result<SemaphoreGuard, PoisonError> {
        match outcome {
            Ok(_) => Ok(
                SemaphoreGuard { semaphore: sem.address, amount: self.amount(sem), panicking },
            ),
            Err(error) => Err(error),
        }
    }

    /// Tries to acquire at once, or stores the waker and becomes pending.
    ///
    /// The waker is stored before it is known whether `seen` is still so, if `seen` makes the
    /// future wait.
    pub fn enter_from(
        &mut self,
        sem: &mut Semaphore,
        seen: AcquireState,
        waker: WakerParts,
        panicking: bool,
        effects: &mut Vec<Effect>,
    ) -> (res: Entered)
        requires
            old(sem).wf(),
            old(self).entering(old(sem)@),
            waker.vtable != 0,
            seen.fits(),
            seen.canon() == seen,
        ensures
            final(sem).wf(),
            final(self).waiter == old(self).waiter,
            ({
                let ptr = old(self).waiter;
                let amount = old(self).amount(old(sem)@);
                let poisoned = entry(seen, amount) == Some(Err::<(), PoisonError>(PoisonError));
                let outcome = if poisoned {
                    entry(seen, amount)
                } else {
                    entry(old(sem)@.acquire, amount)
                };
                let stored = entry(seen, amount) is None || outcome is None;
                let start = if stored {
                    old(sem)@.registered(ptr, waker)
                } else {
                    old(sem)@
                };
                &&& final(sem)@ == start.entered(ptr, outcome)
                &&& final(effects)@ == old(effects)@ + if stored {
                    old(sem)@.waiters.entries[ptr].waker.poll_effects(waker)
                } else {
                    seq![Effect::Drop(waker)]
                }
                &&& res == match outcome {
                    Some(result) => Entered::Ready(old(self).ready(old(sem)@, result, panicking)),
                    None => Entered::Queued { available: old(sem)@.available().0 },
                }
            }),
    {
        proof {
            sem.lemma_inside();
        }
        let ghost start = old(sem).inside();
        let ghost ptr = self.waiter;
        let amount: usize = sem.waiters.amount(self.waiter);
        let mut current = seen;
        let mut stored: bool = false;
        loop
            invariant
                sem.inv(),
                start == old(sem)@,
                start.ok(),
                self.waiter == ptr,
                ptr == old(self).waiter,
                old(self).entering(start),
                amount == start.waiters.entries[ptr].amount,
                waker.vtable != 0,
                sem.inside() == if stored {
                    start.registered(ptr, waker)
                } else {
                    start
                },
                effects@ == if stored {
                    old(effects)@ + start.waiters.entries[ptr].waker.poll_effects(waker)
                } else {
                    old(effects)@
                },
                current.fits(),
                current.canon() == current,
                current == seen && !stored || current == sem.acquire@ && entry(seen, amount) != Some(
                    Err::<(), PoisonError>(PoisonError),
                ) && (stored <==> entry(seen, amount) is None),
            decreases (if current == sem.acquire@ { 0int } else { 1 }),
        {
            proof {
                sem.acquire.lemma_canonical();
                sem.waiters.lemma_ok();
            }
            let available: usize;
            match current {
                AcquireState::Queued(_) => {
                    available = 0;
                },
                AcquireState::Available(permits) => {
                    match permits.into_usize() {
                        None => {
                            if !stored {
                                effects.push(Effect::Drop(waker));
                            }
                            sem.waiters.set_done(self.waiter);
                            proof {
                                sem.waiters.lemma_ok();
                                sem.lemma_inside();
                            }
                            return Entered::Ready(Err(PoisonError));
                        },
                        Some(permits) => {
                            available = permits;
                        },
                    }
                    if amount <= available {
                        if sem.acquire.cmpxchg_weak_acqrel(
                            &mut current,
                            AcquireState::Available(Permits::new(available - amount)),
                        ) {
                            if !stored {
                                effects.push(Effect::Drop(waker));
                            }
                            sem.waiters.set_done(self.waiter);
                            proof {
                                sem.waiters.lemma_ok();
                                sem.lemma_inside();
                            }
                            return Entered::Ready(
                                Ok(SemaphoreGuard { semaphore: sem.address, amount, panicking }),
                            );
                        }
                        continue;
                    }
                },
            }
            if !stored {
                proof {
                    start.waiters.lemma_with_waker(
                        ptr,
                        start.waiters.entries[ptr].waker.polled(waker),
                    );
                }
                let _ = sem.waiters.waker_mut(self.waiter).poll(waker, effects);
                stored = true;
            }
            if sem.acquire.cmpxchg_weak_acqrel(&mut current, AcquireState::Queued(self.waiter)) {
                let back = match current {
                    AcquireState::Queued(back) => back,
                    AcquireState::Available(_) => WaiterPtr::null(),
                };
                sem.waiters.push(self.waiter, back);
                proof {
                    sem.waiters.lemma_ok();
                    sem.lemma_inside();
                }
                return Entered::Queued { available };
            }
        }
    }

    /// The first poll: tries to acquire, or adds to the queue.
    pub fn poll_enter(
        &mut self,
        sem: &mut Semaphore,
        waker: WakerParts,
        panicking: bool,
        effects: &mut Vec<Effect>,
    ) -> (res: Poll<Result<SemaphoreGuard, PoisonError>>)
        requires
            old(sem).wf(),
            old(self).entering(old(sem)@),
            waker.vtable != 0,
        ensures
            final(sem).wf(),
            final(self).waiter == old(self).waiter,
            final(sem)@ == old(sem)@.poll_entered(old(self).waiter, waker),
            final(effects)@ == old(effects)@ + old(sem)@.poll_enter_effects(
                old(self).waiter,
                waker,
            ),
            res == match entry(old(sem)@.acquire, old(self).amount(old(sem)@)) {
                Some(result) => Poll::Ready(old(self).ready(old(sem)@, result, panicking)),
                None => Poll::Pending,
            },
    {
        let seen = sem.acquire_state();
        match self.enter_from(sem, seen, waker, panicking, effects) {
            Entered::Ready(result) => Poll::Ready(result),
            Entered::Queued { available } => {
                let mut action = ReleaseAction { releasable: Permits::new(available) };
                action.release(sem, effects);
                Poll::Pending
            },
        }
    }

    /// The result of a future whose waiter was finished, which ends it.
    pub fn end(&mut self, sem: &mut Semaphore, poisoned: bool, panicking: bool) -> (res: Result<
        SemaphoreGuard,
        PoisonError,
    >)
        requires
            old(sem).wf(),
            old(self).of(old(sem)@),
            old(self).state(old(sem)@) == (State::Finished { poisoned }),
        ensures
            final(sem).wf(),
            final(self).waiter == old(self).waiter,
            final(sem)@ == old(sem)@.with_waiters(
                old(sem)@.waiters.with_step(old(self).waiter, AcquireStep::Done),
            ),
            res == old(self).ready(
                old(sem)@,
                if poisoned {
                    Err(PoisonError)
                } else {
                    Ok(())
                },
                panicking,
            ),
    {
        proof {
            sem.lemma_inside();
        }
        sem.waiters.set_done(self.waiter);
        proof {
            sem.waiters.lemma_ok();
            sem.lemma_inside();
        }
        if poisoned {
            Err(PoisonError)
        } else {
            let amount: usize = sem.waiters.amount(self.waiter);
            Ok(SemaphoreGuard::new(sem, amount, panicking))
        }
    }

    /// The first part of a later poll: announces that a waker will be stored and returns the
    /// sequence number of the last one, or returns the poisoned bit if finished.
    pub fn begin_poll_from(&mut self, sem: &mut Semaphore, seen: State) -> (res: Result<
        usize,
        bool,
    >)
        requires
            old(sem).wf(),
            old(self).waiting(old(sem)@),
            seen.canon() == seen,
            seen is Pending || seen == old(self).state(old(sem)@),
        ensures
            final(sem).wf(),
            final(self).waiter == old(self).waiter,
            match old(self).state(old(sem)@) {
                State::Pending { seq } => {
                    &&& res == Ok::<usize, bool>(seq)
                    &&& final(sem)@ == old(sem)@.with_state(
                        old(self).waiter,
                        State::Storing { seq },
                    )
                },
                State::Finished { poisoned } => {
                    &&& res == Err::<usize, bool>(poisoned)
                    &&& final(sem)@ == old(sem)@
                },
                _ => false,
            },
            res matches Ok(seq) ==> seq < seqs(),
    {
        let ghost w = sem@.waiters;
        let ghost ptr = self.waiter;
        proof {
            sem.lemma_inside();
            w.lemma_idle(ptr);
            if let State::Pending { seq } = w.entries[ptr].waker.state {
                w.lemma_with_waker(ptr, w.entries[ptr].waker.with_state(State::Storing { seq }));
            }
        }
        let res = sem.waiters.waker_mut(self.waiter).begin_poll_from(seen);
        proof {
            if w.entries[ptr].waker.state is Finished {
                assert(sem.waiters@ =~= w);
            }
            sem.waiters.lemma_ok();
            sem.lemma_inside();
        }
        res
    }

    /// The second part of a later poll: stores the waker and gives up the one that was stored. The
    /// waiter may have been finished since the first part.
    pub fn store_waker(&mut self, sem: &mut Semaphore, waker: WakerParts, effects: &mut Vec<Effect>)
        requires
            old(sem).wf(),
            old(self).of(old(sem)@),
            old(self).state(old(sem)@) is Storing || old(self).state(old(sem)@) is Finished,
        ensures
            final(sem).wf(),
            final(self).waiter == old(self).waiter,
            final(sem)@ == old(sem)@.with_waiters(
                old(sem)@.waiters.with_waker(
                    old(self).waiter,
                    old(sem)@.waiters.entries[old(self).waiter].waker.with_parts(waker),
                ),
            ),
            final(effects)@ == old(effects)@
                + old(sem)@.waiters.entries[old(self).waiter].waker.dropped(),
    {
        let ghost w = sem@.waiters;
        let ghost ptr = self.waiter;
        proof {
            sem.lemma_inside();
            if (w.taken + w.cancels).contains(ptr) {
                assert(w.may_cancel(ptr));
            }
            if w.pending().contains(ptr) {
                assert(w.may_pend(ptr));
            }
            w.lemma_with_waker(ptr, w.entries[ptr].waker.with_parts(waker));
        }
        sem.waiters.waker_mut(self.waiter).store_waker(waker, effects);
        proof {
            sem.waiters.lemma_ok();
            sem.lemma_inside();
        }
    }

    /// The last part of a later poll: announces that the waker is stored, or ends with the result if
    /// the waiter was finished in the meantime.
    pub fn end_poll(
        &mut self,
        sem: &mut Semaphore,
        seq: usize,
        waker: WakerParts,
        panicking: bool,
        effects: &mut Vec<Effect>,
    ) -> (res: Poll<Result<SemaphoreGuard, PoisonError>>)
        requires
            old(sem).wf(),
            old(self).of(old(sem)@),
            old(self).state(old(sem)@) is Finished || old(self).state(old(sem)@)
                == (State::Storing { seq }),
            old(sem)@.waiters.entries[old(self).waiter].waker.vtable != 0,
            seq < seqs(),
        ensures
            final(sem).wf(),
            final(self).waiter == old(self).waiter,
            match old(self).state(old(sem)@) {
                State::Finished { poisoned } => {
                    &&& res == Poll::Ready(
                        old(self).ready(
                            old(sem)@,
                            if poisoned {
                                Err(PoisonError)
                            } else {
                                Ok(())
                            },
                            panicking,
                        ),
                    )
                    &&& final(sem)@ == old(sem)@.with_waiters(
                        old(sem)@.waiters.with_step(old(self).waiter, AcquireStep::Done),
                    )
                    &&& final(effects)@ == old(effects)@.push(Effect::Drop(waker))
                },
                _ => {
                    &&& res == Poll::<Result<SemaphoreGuard, PoisonError>>::Pending
                    &&& final(sem)@ == old(sem)@.with_state(
                        old(self).waiter,
                        State::Pending { seq: next_seq(seq) },
                    )
                    &&& final(effects)@ == old(effects)@
                },
            },
    {
        let ghost w = sem@.waiters;
        let ghost ptr = self.waiter;
        proof {
            sem.lemma_inside();
            if (w.taken + w.cancels).contains(ptr) {
                assert(w.may_cancel(ptr));
            }
            if w.pending().contains(ptr) {
                assert(w.may_pend(ptr));
            }
            if w.entries[ptr].waker.state is Storing {
                w.lemma_with_waker(
                    ptr,
                    w.entries[ptr].waker.with_state(State::Pending { seq: next_seq(seq) }),
                );
            }
        }
        match sem.waiters.waker_mut(self.waiter).end_poll(seq, waker, effects) {
            Poll::Pending => {
                proof {
                    sem.waiters.lemma_ok();
                    sem.lemma_inside();
                }
                Poll::Pending
            },
            Poll::Ready(poisoned) => {
                proof {
                    assert(sem.waiters@ =~= w);
                    sem.waiters.lemma_ok();
                    sem.lemma_inside();
                }
                Poll::Ready(self.end(sem, poisoned, panicking))
            },
        }
    }

    /// A later poll: stores the new waker, or ends with the result.
    pub fn poll_waiting(
        &mut self,
        sem: &mut Semaphore,
        waker: WakerParts,
        panicking: bool,
        effects: &mut Vec<Effect>,
    ) -> (res: Poll<Result<SemaphoreGuard, PoisonError>>)
        requires
            old(sem).wf(),
            old(self).waiting(old(sem)@),
            waker.vtable != 0,
        ensures
            final(sem).wf(),
            final(self).waiter == old(self).waiter,
            final(sem)@ == old(sem)@.poll_waited(old(self).waiter, waker),
            final(effects)@ == old(effects)@
                + old(sem)@.waiters.entries[old(self).waiter].waker.poll_effects(waker),
            res == match old(self).state(old(sem)@) {
                State::Finished { poisoned } => Poll::Ready(
                    old(self).ready(
                        old(sem)@,
                        if poisoned {
                            Err(PoisonError)
                        } else {
                            Ok(())
                        },
                        panicking,
                    ),
                ),
                _ => Poll::Pending,
            },
    {
        let ghost w = sem@.waiters;
        proof {
            sem.lemma_inside();
            w.lemma_idle(self.waiter);
            w.lemma_with_waker(self.waiter, w.entries[self.waiter].waker.polled(waker));
        }
        match sem.waiters.waker_mut(self.waiter).poll(waker, effects) {
            Poll::Pending => {
                proof {
                    sem.waiters.lemma_ok();
                    sem.lemma_inside();
                }
                Poll::Pending
            },
            Poll::Ready(poisoned) => {
                proof {
                    assert(sem.waiters@ =~= w);
                    sem.waiters.lemma_ok();
                    sem.lemma_inside();
                }
                Poll::Ready(self.end(sem, poisoned, panicking))
            },
        }
    }

    /// Polls the future. `panicking` tells that the thread is unwinding.
    pub fn poll(
        &mut self,
        sem: &mut Semaphore,
        waker: WakerParts,
        panicking: bool,
        effects: &mut Vec<Effect>,
    ) -> (res: Poll<Result<SemaphoreGuard, PoisonError>>)
        requires
            old(sem).wf(),
            old(self).entering(old(sem)@) || old(self).waiting(old(sem)@),
            waker.vtable != 0,
        ensures
            final(sem).wf(),
            final(self).waiter == old(self).waiter,
            final(sem)@ == old(sem)@.polled(old(self).waiter, waker),
            final(effects)@ == old(effects)@ + old(sem)@.poll_effects(old(self).waiter, waker),
            res == old(self).poll_result(old(sem)@, panicking),
            res is Ready ==> final(sem)@.waiters.entries[old(self).waiter].step is Done,
            res matches Poll::Ready(Ok(guard)) ==> guard.amount
                == old(sem)@.waiters.entries[old(self).waiter].amount && guard.semaphore == old(
                sem,
            )@.address,
            old(sem)@.waiters.entries[old(self).waiter].step is Waiting ==> match old(
                sem,
            )@.waiters.entries[old(self).waiter].waker.state {
                State::Finished { poisoned } => res is Ready && (res->Ready_0 is Err <==> poisoned),
                _ => res is Pending,
            },
    {
        proof {
            sem.lemma_inside();
        }
        match sem.waiters.step(self.waiter) {
            AcquireStep::Entering => self.poll_enter(sem, waker, panicking, effects),
            AcquireStep::Waiting => self.poll_waiting(sem, waker, panicking, effects),
            AcquireStep::Done => unreached(),
        }
    }

    /// What a poll returns.
    pub open spec fn poll_result(&self, sem: SemaphoreView, panicking: bool) -> Poll<
        Result<SemaphoreGuard, PoisonError>,
    > {
        let outcome = if self.step(sem) is Entering {
            entry(sem.acquire, self.amount(sem))
        } else {
            match self.state(sem) {
                State::Finished { poisoned: true } => Some(Err(PoisonError)),
                State::Finished { poisoned: false } => Some(Ok(())),
                _ => None,
            }
        };
        match outcome {
            Some(result) => Poll::Ready(self.ready(sem, result, panicking)),
            None => Poll::Pending,
        }
    }

    /// This future is neither being polled nor being dropped.
    pub open spec fn droppable(&self, sem: SemaphoreView) -> bool {
        &&& self.of(sem)
        &&& sem.waiters.entries[self.waiter].waker.idle()
        &&& self.step(sem) is Waiting && self.state(sem) is Pending
            ==> sem.waiters.pending().contains(self.waiter)
    }

    /// The first part of dropping a waiting future: decides whether finishing or cancelling wins if
    /// there is a race.
    pub fn start_cancel_from(&mut self, sem: &mut Semaphore, seen: State, thread: usize) -> (res:
        WakerResult)
        requires
            old(sem).wf(),
            old(self).waiting(old(sem)@),
            seen.canon() == seen,
            seen is Pending || seen == old(self).state(old(sem)@),
        ensures
            final(sem).wf(),
            final(self).waiter == old(self).waiter,
            final(sem)@ == old(sem)@.cancel_started(old(self).waiter, thread),
            res == match old(self).state(old(sem)@) {
                State::Finished { poisoned } => WakerResult::Finished { poisoned },
                _ => WakerResult::Cancelling,
            },
    {
        let ghost w = sem@.waiters;
        proof {
            sem.lemma_inside();
            w.lemma_idle(self.waiter);
            w.lemma_with_waker(self.waiter, w.entries[self.waiter].waker.cancel_started(thread));
        }
        let res = sem.waiters.waker_mut(self.waiter).start_cancel_from(seen, thread);
        proof {
            sem.waiters.lemma_ok();
            sem.lemma_inside();
        }
        res
    }

    /// The second part of dropping a waiting future that is being cancelled: puts its waiter on the
    /// stack of cancellations. A release of no permits has to follow, to make sure that the
    /// cancellation gets accepted.
    pub fn push_cancel_from(&mut self, sem: &mut Semaphore, seen: WaiterPtr)
        requires
            old(sem).wf(),
            old(sem)@.waiters.may_cancel(old(self).waiter),
            !(old(sem)@.waiters.taken + old(sem)@.waiters.cancels).contains(old(self).waiter),
        ensures
            final(sem).wf(),
            final(self).waiter == old(self).waiter,
            final(sem)@ == old(sem)@.cancel_pushed(old(self).waiter),
    {
        proof {
            sem.lemma_inside();
        }
        let mut current = seen;
        loop
            invariant
                sem.inv(),
                sem.inside() == old(sem)@,
                self.waiter == old(self).waiter,
                sem.waiters@.may_cancel(self.waiter),
                !(sem.waiters@.taken + sem.waiters@.cancels).contains(self.waiter),
            decreases (if current == sem.next_cancel@ { 0int } else { 1 }),
        {
            if sem.next_cancel.cmpxchg_weak_acqrel(&mut current, self.waiter) {
                sem.waiters.push_cancel(self.waiter, current);
                proof {
                    sem.waiters.lemma_ok();
                    sem.lemma_inside();
                }
                return;
            }
        }
    }

    /// Whether the cancellation has been accepted. The thread parks and asks again until it has.
    pub fn wait_cancel(&self, sem: &Semaphore) -> (res: bool)
        requires
            sem.wf(),
            self.of(sem@),
            self.state(sem@) is Cancelling || self.state(sem@) is Cancelled,
        ensures
            res == (self.state(sem@) is Cancelled),
    {
        proof {
            sem.lemma_inside();
        }
        sem.waiters.waker(self.waiter).wait_cancel()
    }

    /// The last part of dropping a future: removes its waiter, giving up the waker.
    pub fn remove(self, sem: &mut Semaphore, panicking: bool, effects: &mut Vec<Effect>)
        requires
            old(sem).wf(),
            self.of(old(sem)@),
            !old(sem)@.waiters.pending().contains(self.waiter),
            panicking || old(sem)@.waiters.entries[self.waiter].waker.idle() || self.state(
                old(sem)@,
            ) is Cancelled,
        ensures
            final(sem).wf(),
            final(sem)@ == old(sem)@.removed(self.waiter),
            final(effects)@ == old(effects)@
                + old(sem)@.waiters.entries[self.waiter].waker.leftover(),
    {
        proof {
            sem.lemma_inside();
        }
        sem.waiters.remove(self.waiter, panicking, effects);
        proof {
            sem.waiters.lemma_ok();
            sem.lemma_inside();
        }
    }

    /// Drops the future. If another release is in progress, the future is given back: the thread
    /// has to wait until `wait_cancel` and call `remove` then.
    pub fn drop(
        self,
        sem: &mut Semaphore,
        thread: usize,
        panicking: bool,
        effects: &mut Vec<Effect>,
    ) -> (res: Option<AcquireFuture>)
        requires
            old(sem).wf(),
            self.droppable(old(sem)@),
        ensures
            final(sem).wf(),
            final(sem)@ == old(sem)@.dropped(self.waiter, thread),
            final(effects)@ == old(effects)@ + old(sem)@.drop_effects(self.waiter, thread),
            res is Some <==> self.step(old(sem)@) is Waiting && self.state(old(sem)@) is Pending
                && old(sem)@.locked(),
            res matches Some(future) ==> future.waiter == self.waiter,
    {
        let ghost start = sem@;
        let ghost ptr = self.waiter;
        proof {
            sem.lemma_inside();
            start.waiters.lemma_idle(ptr);
            if start.waiters.pending().contains(ptr) {
                assert(start.waiters.may_pend(ptr));
            }
        }
        let mut this = self;
        match sem.waiters.step(this.waiter) {
            AcquireStep::Waiting => {
                let seen = sem.waiters.waker(this.waiter).state();
                match this.start_cancel_from(sem, seen, thread) {
                    WakerResult::Cancelling => {
                        proof {
                            sem.lemma_inside();
                            assert(sem@.waiters.pending() == start.waiters.pending());
                        }
                        let top = sem.next_cancel.load();
                        this.push_cancel_from(sem, top);
                        let ghost pushed = sem@;
                        proof {
                            sem.lemma_inside();
                            assert(pushed.waiters.cancels[0] == ptr);
                            assert(pushed.waiters.cancels.contains(ptr));
                            if !pushed.locked() {
                                pushed.lemma_release_cancels(Permits(0), ptr);
                            }
                            pushed.waiters.lemma_cancels(ptr);
                        }
                        let mut action = ReleaseAction { releasable: Permits::new(0) };
                        action.release(sem, effects);
                        if this.wait_cancel(sem) {
                            this.remove(sem, panicking, effects);
                            None
                        } else {
                            Some(this)
                        }
                    },
                    WakerResult::Finished { poisoned } => {
                        if !poisoned {
                            let ghost started = sem@;
                            proof {
                                sem.lemma_inside();
                                started.lemma_release_others(
                                    Permits(start.waiters.entries[ptr].amount),
                                    ptr,
                                );
                            }
                            let amount: usize = sem.waiters.amount(this.waiter);
                            let mut action = ReleaseAction { releasable: Permits::new(amount) };
                            action.release(sem, effects);
                        }
                        this.remove(sem, panicking, effects);
                        None
                    },
                }
            },
            AcquireStep::Entering => {
                this.remove(sem, panicking, effects);
                None
            },
            AcquireStep::Done => {
                this.remove(sem, panicking, effects);
                None
            },
        }
    }
}

impl AcquireFutureArc {
    /// Polls the future. `panicking` tells that the thread is unwinding.
    pub fn poll(
        &mut self,
        sem: &mut Semaphore,
        waker: WakerParts,
        panicking: bool,
        effects: &mut Vec<Effect>,
    ) -> (res: Poll<Result<SemaphoreGuardArc, PoisonError>>)
        requires
            old(sem).wf(),
            old(self).arc == old(sem)@.address,
            old(self).inner.entering(old(sem)@) || old(self).inner.waiting(old(sem)@),
            waker.vtable != 0,
        ensures
            final(sem).wf(),
            final(self).arc == old(self).arc,
            final(self).inner.waiter == old(self).inner.waiter,
            final(sem)@ == old(sem)@.polled(old(self).inner.waiter, waker),
            final(effects)@ == old(effects)@ + old(sem)@.poll_effects(
                old(self).inner.waiter,
                waker,
            ),
            res is Ready ==> final(sem)@.waiters.entries[old(self).inner.waiter].step is Done,
            res matches Poll::Ready(Ok(guard)) ==> guard.amount
                == old(sem)@.waiters.entries[old(self).inner.waiter].amount && guard.semaphore
                == Some(old(sem)@.address),
            res == match old(self).inner.poll_result(old(sem)@, panicking) {
                Poll::Ready(Ok(guard)) => Poll::Ready(
                    Ok(
                        SemaphoreGuardArc {
                            semaphore: Some(old(self).arc),
                            amount: guard.amount,
                            panicking,
                        },
                    ),
                ),
                Poll::Ready(Err(error)) => Poll::Ready(Err(error)),
                Poll::Pending => Poll::Pending,
            },
    {
        match self.inner.poll(sem, waker, panicking, effects) {
            Poll::Ready(Ok(guard)) => Poll::Ready(
                Ok(
                    SemaphoreGuardArc {
                        semaphore: Some(self.arc),
                        amount: guard.forget(),
                        panicking,
                    },
                ),
            ),
            Poll::Ready(Err(error)) => Poll::Ready(Err(error)),
            Poll::Pending => Poll::Pending,
        }
    }

    /// Drops the future. If another release is in progress, the future is given back: the thread
    /// has to wait until `wait_cancel` and call `remove` then.
    pub fn drop(
        self,
        sem: &mut Semaphore,
        thread: usize,
        panicking: bool,
        effects: &mut Vec<Effect>,
    ) -> (res: Option<AcquireFuture>)
        requires
            old(sem).wf(),
            self.inner.droppable(old(sem)@),
        ensures
            final(sem).wf(),
            final(sem)@ == old(sem)@.dropped(self.inner.waiter, thread),
            final(effects)@ == old(effects)@ + old(sem)@.drop_effects(self.inner.waiter, thread),
            res is Some <==> self.inner.step(old(sem)@) is Waiting && self.inner.state(
                old(sem)@,
            ) is Pending && old(sem)@.locked(),
            res matches Some(future) ==> future.waiter == self.inner.waiter,
    {
        self.inner.drop(sem, thread, panicking, effects)
    }
}

} // verus!
