use crate::atomic::Packable;
use crate::errors::{PoisonError, TryAcquireError};
use crate::state::{AcquireState, AcquireStep, Permits, ReleaseState, WaiterPtr};
use crate::waiters::{at, lemma_without_contains, WaiterView, WaitersView};
use crate::waker::{Effect, State, WakerParts};
use vstd::prelude::*;

verus! {

/// What a semaphore holds.
#[verifier::ext_equal]
pub struct SemaphoreView {
    pub address: usize,
    pub acquire: AcquireState,
    pub release: ReleaseState,
    pub waiters: WaitersView,
}

/// Why permits cannot be acquired at once where `acquire` is found.
pub open spec fn refusal(acquire: AcquireState, amount: usize) -> Option<TryAcquireError> {
    match acquire {
        AcquireState::Queued(_) => Some(TryAcquireError::WouldBlock),
        AcquireState::Available(available) => if available.poisoned() {
            Some(TryAcquireError::Poisoned)
        } else if amount > available.0 {
            Some(TryAcquireError::WouldBlock)
        } else {
            None
        },
    }
}

/// What an acquire gets at once where `acquire` is found, `None` if it has to wait.
pub open spec fn entry(acquire: AcquireState, amount: usize) -> Option<Result<(), PoisonError>> {
    match acquire {
        AcquireState::Queued(_) => None,
        AcquireState::Available(available) => if available.poisoned() {
            Some(Err(PoisonError))
        } else if amount <= available.0 {
            Some(Ok(()))
        } else {
            None
        },
    }
}

/// An attempt to acquire is refused where an acquire would wait or fail, and succeeds where an
/// acquire would get its permits at once.
pub proof fn law_attempt(acquire: AcquireState, amount: usize)
    ensures
        refusal(acquire, amount) == match entry(acquire, amount) {
            None => Some(TryAcquireError::WouldBlock),
            Some(Err(_)) => Some(TryAcquireError::Poisoned),
            Some(Ok(_)) => None,
        },
{
}

impl WaitersView {
    /// All pending waiters are linked and all cancellations are accepted.
    pub open spec fn cleared(self) -> WaitersView {
        self.cancels_taken().all_linked().all_cancelled()
    }

    /// The first waiter of the queue can have what it asked for.
    pub open spec fn servable(self, permits: Permits) -> bool {
        &&& self.queue.len() > 0
        &&& !(self.entries[self.queue[0]].waker.state is Cancelling)
        &&& permits.poisoned() || self.entries[self.queue[0]].amount <= permits.0
    }

    /// The permits that are left when the first waiter of the queue has been served.
    pub open spec fn after_first(self, permits: Permits) -> Permits {
        permits.less(self.entries[self.queue[0]].amount)
    }

    /// Waiters are served in the order of their arrival, until one cannot be.
    pub open spec fn served(self, permits: Permits) -> WaitersView
        decreases self.queue.len(),
    {
        if self.servable(permits) {
            self.popped(permits.poisoned()).served(self.after_first(permits))
        } else {
            self
        }
    }

    /// The permits that are left by `served`.
    pub open spec fn permits_left(self, permits: Permits) -> Permits
        decreases self.queue.len(),
    {
        if self.servable(permits) {
            self.popped(permits.poisoned()).permits_left(self.after_first(permits))
        } else {
            permits
        }
    }

    /// The wakers that are woken by `served`.
    pub open spec fn wakes(self, permits: Permits) -> Seq<Effect>
        decreases self.queue.len(),
    {
        if self.servable(permits) {
            self.entries[self.queue[0]].waker.finish_effects() + self.popped(
                permits.poisoned(),
            ).wakes(self.after_first(permits))
        } else {
            seq![]
        }
    }
}

impl WaitersView {
    /// Serving changes the queue and the wakers of those that leave it. It ends with a waiter that
    /// cannot be served, or with none.
    pub proof fn lemma_served(self, permits: Permits)
        requires
            self.ok(),
        ensures
            self.served(permits).ok(),
            self.served(permits).stack == self.stack,
            self.served(permits).cancels == self.cancels,
            self.served(permits).taken == self.taken,
            self.served(permits).entries.dom() == self.entries.dom(),
            !self.served(permits).servable(self.permits_left(permits)),
        decreases self.queue.len(),
    {
        if self.servable(permits) {
            let ptr = self.queue[0];
            assert(self.pending()[0] == ptr);
            assert(self.pending().contains(ptr));
            assert(self.may_pend(ptr));
            self.lemma_popped(permits.poisoned());
            self.popped(permits.poisoned()).lemma_served(self.after_first(permits));
            assert(self.popped(permits.poisoned()).entries.dom() =~= self.entries.dom());
        }
    }

    /// Serving does not touch a waiter that is not in the queue.
    pub proof fn lemma_not_served(self, permits: Permits, ptr: WaiterPtr)
        requires
            !self.queue.contains(ptr),
        ensures
            self.served(permits).entries.contains_key(ptr) == self.entries.contains_key(ptr),
            self.served(permits).entries[ptr] == self.entries[ptr],
            !self.served(permits).queue.contains(ptr),
            self.served(permits).stack == self.stack,
        decreases self.queue.len(),
    {
        if self.servable(permits) {
            let w = self.popped(permits.poisoned());
            assert(self.queue.contains(self.queue[0]));
            assert(!w.queue.contains(ptr)) by {
                if w.queue.contains(ptr) {
                    let i = choose|i: int| 0 <= i < w.queue.len() && w.queue[i] == ptr;
                    assert(self.queue[i + 1] == ptr);
                }
            }
            w.lemma_not_served(self.after_first(permits), ptr);
            if !self.entries.contains_key(ptr) {
                assert(w.entries.contains_key(ptr) == (ptr == self.queue[0]));
            }
        }
    }

    /// Cancellations that were taken are pending.
    pub proof fn lemma_taken(self, ptr: WaiterPtr)
        requires
            self.ok(),
            self.taken.contains(ptr),
        ensures
            self.may_cancel(ptr),
            self.may_pend(ptr),
    {
        let i = choose|i: int| 0 <= i < self.taken.len() && self.taken[i] == ptr;
        assert((self.taken + self.cancels)[i] == ptr);
        assert((self.taken + self.cancels).contains(ptr));
    }

    /// Cancellations are pending.
    pub proof fn lemma_cancels(self, ptr: WaiterPtr)
        requires
            self.ok(),
            self.cancels.contains(ptr),
        ensures
            self.may_cancel(ptr),
            self.may_pend(ptr),
    {
        let i = choose|i: int| 0 <= i < self.cancels.len() && self.cancels[i] == ptr;
        assert((self.taken + self.cancels)[self.taken.len() + i] == ptr);
        assert((self.taken + self.cancels).contains(ptr));
    }

    /// Without pending waiters there is nothing to clear.
    pub proof fn lemma_nothing_to_clear(self)
        requires
            self.ok(),
            self.taken.len() == 0,
            self.pending().len() == 0,
        ensures
            self.cancels_taken() == self,
            self.cleared() == self,
    {
        assert(self.cancels.len() == 0) by {
            if self.cancels.len() > 0 {
                assert(self.cancels.contains(self.cancels[0]));
                self.lemma_cancels(self.cancels[0]);
            }
        }
        assert(self.cancels_taken() =~= self);
        assert(self.all_linked() =~= self);
        self.lemma_none_cancelled();
    }

    /// A waiter that is neither being cancelled nor cancelled is no cancellation, and a finished
    /// one is not pending.
    pub proof fn lemma_idle(self, ptr: WaiterPtr)
        requires
            self.ok(),
            self.entries[ptr].waker.idle(),
        ensures
            !(self.taken + self.cancels).contains(ptr),
            self.entries[ptr].waker.state is Finished ==> !self.pending().contains(ptr),
    {
        if (self.taken + self.cancels).contains(ptr) {
            assert(self.may_cancel(ptr));
        }
        if self.pending().contains(ptr) {
            assert(self.may_pend(ptr));
        }
    }

    /// Null is no cancellation.
    pub proof fn lemma_null_taken(self)
        requires
            self.ok(),
        ensures
            at(self.taken, 0) == WaiterPtr(0) <==> self.taken.len() == 0,
    {
        if self.taken.len() > 0 {
            let c = self.taken + self.cancels;
            assert(c[0] == self.taken[0]);
            assert(c.contains(self.taken[0]));
            assert(self.may_cancel(self.taken[0]));
            assert(self.may_pend(self.taken[0]));
        }
    }
}

impl SemaphoreView {
    /// A new semaphore.
    pub open spec fn fresh(address: usize, initial: usize) -> SemaphoreView {
        SemaphoreView {
            address,
            acquire: AcquireState::Available(Permits(initial).norm()),
            release: ReleaseState::Unlocked(Permits(0)),
            waiters: WaitersView {
                queue: seq![],
                stack: seq![],
                cancels: seq![],
                taken: seq![],
                entries: Map::empty(),
            },
        }
    }

    /// Available permits are taken.
    pub open spec fn taken_at_once(self, amount: usize) -> SemaphoreView {
        SemaphoreView {
            acquire: AcquireState::Available(self.available().less(amount)),
            ..self
        }
    }

    pub open spec fn ok(self) -> bool {
        &&& self.waiters.ok()
        &&& self.release.canon() == self.release
        &&& self.release is Unlocked ==> self.waiters.taken.len() == 0
        &&& match self.acquire {
            AcquireState::Available(available) => self.waiters.pending().len() == 0
                && available.norm() == available,
            AcquireState::Queued(back) => back == at(
                self.waiters.stack,
                self.waiters.stack.len() - 1,
            ),
        }
    }

    /// Where waiters arrive, null means that none of them is left to be linked.
    pub proof fn lemma_back(self)
        requires
            self.ok(),
        ensures
            self.acquire matches AcquireState::Queued(back) ==> (back == WaiterPtr(0)
                <==> self.waiters.stack.len() == 0),
    {
        let w = self.waiters;
        if w.stack.len() > 0 {
            let last = w.stack.last();
            assert(w.pending()[w.pending().len() - 1] == last);
            assert(w.pending().contains(last));
            assert(w.may_pend(last));
        }
    }

    /// The permits that an acquire finds.
    pub open spec fn available(self) -> Permits {
        match self.acquire {
            AcquireState::Available(available) => available,
            AcquireState::Queued(_) => Permits(0),
        }
    }

    pub open spec fn locked(self) -> bool {
        !(self.release is Unlocked)
    }

    /// A future ends with what it gets at once, or its waiter becomes pending.
    pub open spec fn entered(
        self,
        ptr: WaiterPtr,
        outcome: Option<Result<(), PoisonError>>,
    ) -> SemaphoreView {
        let amount = self.waiters.entries[ptr].amount;
        let done = self.with_waiters(self.waiters.with_step(ptr, AcquireStep::Done));
        match outcome {
            Some(Ok(_)) => done.taken_at_once(amount),
            Some(Err(_)) => done,
            None => SemaphoreView {
                acquire: AcquireState::Queued(ptr),
                waiters: self.waiters.pushed(ptr),
                ..self
            },
        }
    }

    /// A waker is stored for a waiter.
    pub open spec fn registered(self, ptr: WaiterPtr, waker: WakerParts) -> SemaphoreView {
        self.with_waiters(
            self.waiters.with_waker(ptr, self.waiters.entries[ptr].waker.polled(waker)),
        )
    }

    /// What the first poll of a future leaves: if it has to wait, its waker is stored, it is
    /// pending, and the permits that were available are released to the pending waiters.
    pub open spec fn poll_entered(self, ptr: WaiterPtr, waker: WakerParts) -> SemaphoreView {
        let outcome = entry(self.acquire, self.waiters.entries[ptr].amount);
        if outcome is Some {
            self.entered(ptr, outcome)
        } else {
            self.registered(ptr, waker).entered(ptr, None).released(self.available())
        }
    }

    /// The effects of the first poll of a future.
    pub open spec fn poll_enter_effects(self, ptr: WaiterPtr, waker: WakerParts) -> Seq<Effect> {
        if entry(self.acquire, self.waiters.entries[ptr].amount) is Some {
            seq![Effect::Drop(waker)]
        } else {
            self.waiters.entries[ptr].waker.poll_effects(waker) + self.registered(
                ptr,
                waker,
            ).entered(ptr, None).release_effects(self.available())
        }
    }

    pub open spec fn with_state(self, ptr: WaiterPtr, state: State) -> SemaphoreView {
        self.with_waiters(
            self.waiters.with_waker(ptr, self.waiters.entries[ptr].waker.with_state(state)),
        )
    }

    /// What a later poll of a future leaves: the new waker is stored, or the future has ended.
    pub open spec fn poll_waited(self, ptr: WaiterPtr, waker: WakerParts) -> SemaphoreView {
        if self.waiters.entries[ptr].waker.state is Finished {
            self.with_waiters(self.waiters.with_step(ptr, AcquireStep::Done))
        } else {
            self.registered(ptr, waker)
        }
    }

    /// What a poll leaves.
    pub open spec fn polled(self, ptr: WaiterPtr, waker: WakerParts) -> SemaphoreView {
        if self.waiters.entries[ptr].step is Entering {
            self.poll_entered(ptr, waker)
        } else {
            self.poll_waited(ptr, waker)
        }
    }

    /// The effects of a poll.
    pub open spec fn poll_effects(self, ptr: WaiterPtr, waker: WakerParts) -> Seq<Effect> {
        if self.waiters.entries[ptr].step is Entering {
            self.poll_enter_effects(ptr, waker)
        } else {
            self.waiters.entries[ptr].waker.poll_effects(waker)
        }
    }

    /// A waiting future starts to be dropped: it is marked as being cancelled.
    pub open spec fn cancel_started(self, ptr: WaiterPtr, thread: usize) -> SemaphoreView {
        self.with_waiters(
            self.waiters.with_waker(ptr, self.waiters.entries[ptr].waker.cancel_started(thread)),
        )
    }

    pub open spec fn cancel_pushed(self, ptr: WaiterPtr) -> SemaphoreView {
        self.with_waiters(self.waiters.cancel_pushed(ptr))
    }

    pub open spec fn removed(self, ptr: WaiterPtr) -> SemaphoreView {
        self.with_waiters(self.waiters.removed(ptr))
    }

    /// What dropping a future leaves. If it waits, it is cancelled. If another release is in
    /// progress, its owner has to accept that before the waiter can be removed. If it was finished
    /// before that, its permits are released.
    pub open spec fn dropped(self, ptr: WaiterPtr, thread: usize) -> SemaphoreView {
        let waiter = self.waiters.entries[ptr];
        let started = self.cancel_started(ptr, thread);
        if waiter.step is Waiting {
            match waiter.waker.state {
                State::Finished { poisoned } => if poisoned {
                    self.removed(ptr)
                } else {
                    started.released(Permits(waiter.amount)).removed(ptr)
                },
                _ => if self.locked() {
                    started.cancel_pushed(ptr).released(Permits(0))
                } else {
                    started.cancel_pushed(ptr).released(Permits(0)).removed(ptr)
                },
            }
        } else {
            self.removed(ptr)
        }
    }

    /// The effects of dropping a future.
    pub open spec fn drop_effects(self, ptr: WaiterPtr, thread: usize) -> Seq<Effect> {
        let waiter = self.waiters.entries[ptr];
        let started = self.cancel_started(ptr, thread);
        if waiter.step is Waiting {
            match waiter.waker.state {
                State::Finished { poisoned } => if poisoned {
                    seq![]
                } else {
                    started.release_effects(Permits(waiter.amount))
                },
                _ => if self.locked() {
                    seq![]
                } else {
                    started.cancel_pushed(ptr).release_effects(Permits(0)) + waiter.waker.dropped()
                },
            }
        } else {
            waiter.waker.leftover()
        }
    }

    /// A release that gets the lock accepts the cancellations that it finds.
    pub proof fn lemma_release_cancels(self, releasable: Permits, ptr: WaiterPtr)
        requires
            self.ok(),
            !self.locked(),
            self.waiters.cancels.contains(ptr),
        ensures
            ({
                let w = self.released(releasable).waiters;
                &&& w.entries.contains_key(ptr)
                &&& w.entries[ptr] == (WaiterView {
                    waker: self.waiters.entries[ptr].waker.cancel_accepted(),
                    ..self.waiters.entries[ptr]
                })
                &&& !w.pending().contains(ptr)
            }),
    {
        let permits = releasable.plus(self.release->Unlocked_0);
        let w = self.waiters;
        let c = w.cleared();
        let v = w.cancels_taken().all_linked();
        w.lemma_cancels(ptr);
        assert(w.cancels_taken().pending() == w.pending());
        assert(v.taken == w.cancels);
        lemma_without_contains(v.queue, v.taken, ptr);
        assert(c.entries[ptr] == (WaiterView {
            waker: w.entries[ptr].waker.cancel_accepted(),
            ..w.entries[ptr]
        }));
        c.lemma_not_served(permits, ptr);
        assert(self.lock_tried(releasable).rounded(permits).waiters == c.served(permits));
        assert(self.released(releasable).waiters == c.served(permits));
        assert(c.served(permits).pending() =~= c.served(permits).queue);
    }

    /// A release keeps the waiters, and does not touch those that are not pending.
    pub proof fn lemma_release_others(self, releasable: Permits, ptr: WaiterPtr)
        requires
            self.ok(),
            !self.waiters.pending().contains(ptr),
        ensures
            self.released(releasable).waiters.entries.contains_key(ptr)
                == self.waiters.entries.contains_key(ptr),
            self.waiters.entries.contains_key(ptr)
                ==> self.released(releasable).waiters.entries[ptr] == self.waiters.entries[ptr],
            !self.released(releasable).waiters.pending().contains(ptr),
    {
        if !self.locked() {
            let permits = releasable.plus(self.release->Unlocked_0);
            let w = self.waiters;
            let c = w.cleared();
            let v = w.cancels_taken().all_linked();
            if w.pending().len() > 0 {
                assert(w.cancels_taken().pending() == w.pending());
                lemma_without_contains(v.queue, v.taken, ptr);
                if w.cancels.contains(ptr) {
                    w.lemma_cancels(ptr);
                }
                c.lemma_not_served(permits, ptr);
                assert(self.released(releasable).waiters == c.served(permits));
                assert(c.served(permits).pending() =~= c.served(permits).queue);
            } else {
                assert(self.released(releasable).waiters == w);
            }
        }
    }

    /// A release takes the lock, or leaves its permits to the owner.
    pub open spec fn lock_tried(self, releasable: Permits) -> SemaphoreView {
        SemaphoreView {
            release: match self.release {
                ReleaseState::Unlocked(_) => ReleaseState::Locked,
                ReleaseState::Locked => ReleaseState::LockedDirty(releasable.norm()),
                ReleaseState::LockedDirty(available) => ReleaseState::LockedDirty(
                    available.plus(releasable).norm(),
                ),
            },
            ..self
        }
    }

    /// The owner of the lock gives it back, or takes what was left to it.
    pub open spec fn unlock_tried(self, releasable: Permits) -> SemaphoreView {
        SemaphoreView {
            release: match self.release {
                ReleaseState::LockedDirty(_) => ReleaseState::Locked,
                _ => ReleaseState::Unlocked(releasable.norm()),
            },
            ..self
        }
    }

    /// If no acquire is pending, the permits become available. Otherwise the waiters that arrived
    /// last are linked.
    pub open spec fn flipped(self, releasable: Permits) -> SemaphoreView {
        if self.waiters.pending().len() == 0 {
            SemaphoreView {
                acquire: AcquireState::Available(self.available().plus(releasable).norm()),
                ..self
            }
        } else {
            SemaphoreView {
                acquire: AcquireState::Queued(WaiterPtr(0)),
                waiters: self.waiters.all_linked(),
                ..self
            }
        }
    }

    /// The permits that are left by `flipped`.
    pub open spec fn flip_left(self, releasable: Permits) -> Permits {
        if self.waiters.pending().len() == 0 {
            Permits(0)
        } else {
            releasable
        }
    }

    /// What the owner of the lock does with its permits: the cancelled waiters leave, the others
    /// are served in the order of their arrival, and if none is left, the rest of the permits
    /// becomes available.
    pub open spec fn rounded(self, releasable: Permits) -> SemaphoreView {
        let served = self.waiters.cleared().served(releasable);
        let left = self.waiters.cleared().permits_left(releasable);
        if self.waiters.pending().len() == 0 {
            self.flipped(releasable)
        } else if served.queue.len() == 0 {
            SemaphoreView {
                acquire: AcquireState::Available(left.norm()),
                waiters: served,
                ..self
            }
        } else {
            SemaphoreView {
                acquire: AcquireState::Queued(WaiterPtr(0)),
                waiters: served,
                ..self
            }
        }
    }

    /// The permits that are left by `rounded`.
    pub open spec fn round_left(self, releasable: Permits) -> Permits {
        if self.waiters.pending().len() == 0 || self.waiters.cleared().served(
            releasable,
        ).queue.len() == 0 {
            Permits(0)
        } else {
            self.waiters.cleared().permits_left(releasable)
        }
    }

    /// The threads that are unparked and the wakers that are woken by `rounded`.
    pub open spec fn round_effects(self, releasable: Permits) -> Seq<Effect> {
        self.waiters.cancels_taken().cancel_effects() + self.waiters.cleared().wakes(releasable)
    }

    /// What is left when the owner of the lock has given it back: what was deferred to it has been
    /// done too.
    pub open spec fn drained(self, releasable: Permits) -> SemaphoreView {
        let next = self.rounded(releasable);
        let left = self.round_left(releasable);
        match self.release {
            ReleaseState::LockedDirty(available) => next.unlock_tried(left).rounded(
                left.plus(available),
            ).unlock_tried(self.drain_left(releasable)),
            _ => next.unlock_tried(left),
        }
    }

    /// The permits that the owner of the lock gives back with it.
    pub open spec fn drain_left(self, releasable: Permits) -> Permits {
        let next = self.rounded(releasable);
        let left = self.round_left(releasable);
        match self.release {
            ReleaseState::LockedDirty(available) => next.unlock_tried(left).round_left(
                left.plus(available),
            ),
            _ => left,
        }
    }

    /// The effects of `drained`.
    pub open spec fn drain_effects(self, releasable: Permits) -> Seq<Effect> {
        let next = self.rounded(releasable);
        let left = self.round_left(releasable);
        match self.release {
            ReleaseState::LockedDirty(available) => self.round_effects(releasable)
                + next.unlock_tried(left).round_effects(left.plus(available)),
            _ => self.round_effects(releasable),
        }
    }

    /// What a release leaves. If another one is in progress, its owner does the work.
    pub open spec fn released(self, releasable: Permits) -> SemaphoreView {
        match self.release {
            ReleaseState::Unlocked(available) => self.lock_tried(releasable).drained(
                releasable.plus(available),
            ),
            _ => self.lock_tried(releasable),
        }
    }

    /// The permits that a release holds in the end: those that it gave back with the lock, or
    /// those that it left to the owner.
    pub open spec fn release_left(self, releasable: Permits) -> Permits {
        match self.release {
            ReleaseState::Unlocked(available) => self.lock_tried(releasable).drain_left(
                releasable.plus(available),
            ),
            _ => releasable,
        }
    }

    /// The effects of `released`.
    pub open spec fn release_effects(self, releasable: Permits) -> Seq<Effect> {
        match self.release {
            ReleaseState::Unlocked(available) => self.round_effects(releasable.plus(available)),
            _ => seq![],
        }
    }

    pub open spec fn with_waiters(self, waiters: WaitersView) -> SemaphoreView {
        SemaphoreView { waiters, ..self }
    }
}

} // verus!
