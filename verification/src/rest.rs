use crate::errors::{PoisonError, TryAcquireError};
use crate::guard::given_back;
use crate::model::{entry, refusal, SemaphoreView};
use crate::state::{AcquireState, AcquireStep, Permits, ReleaseState, WaiterPtr};
use crate::waiters::{at, lemma_distinct, lemma_without_one, without, WaiterView, WaitersView};
use crate::waker::{Effect, State, WakerParts};
use vstd::prelude::*;

verus! {

impl WaitersView {
    /// The permits that the first `n` waiters of the queue ask for.
    pub open spec fn demand(self, n: int) -> nat
        decreases n,
    {
        if n <= 0 {
            0
        } else {
            self.demand(n - 1) + self.entries[self.queue[n - 1]].amount as nat
        }
    }

    /// The number of waiters that `served` serves.
    pub open spec fn served_count(self, permits: Permits) -> nat
        decreases self.queue.len(),
    {
        if self.servable(permits) {
            1 + self.popped(permits.poisoned()).served_count(self.after_first(permits))
        } else {
            0
        }
    }

    /// No waiter of the queue is being polled or cancelled.
    pub open spec fn calm(self) -> bool {
        forall|i: int|
            0 <= i < self.queue.len() ==> self.entries[#[trigger] self.queue[i]].waker.state is Pending
    }

    /// The first waiter asks for what it asks for, and the others for the rest.
    proof fn lemma_demand_popped(self, n: int, poisoned: bool)
        requires
            self.ok(),
            0 <= n < self.queue.len(),
            !(self.entries[self.queue[0]].waker.state is Cancelling),
        ensures
            self.demand(n + 1) == self.entries[self.queue[0]].amount + self.popped(
                poisoned,
            ).demand(n),
        decreases n,
    {
        let w = self.popped(poisoned);
        if n > 0 {
            self.lemma_demand_popped(n - 1, poisoned);
            assert(w.queue[n - 1] == self.queue[n]);
            assert(self.pending()[0] == self.queue[0] && self.pending()[n] == self.queue[n]);
        } else {
            assert(self.demand(0) == 0);
        }
    }

    /// Serving with the permits that are left and some more is serving with all of them.
    proof fn lemma_served_twice(self, permits: Permits, more: Permits)
        requires
            !permits.plus(more).poisoned(),
        ensures
            self.served(permits).served(self.permits_left(permits).plus(more)) == self.served(
                permits.plus(more),
            ),
            self.served(permits).permits_left(self.permits_left(permits).plus(more))
                == self.permits_left(permits.plus(more)),
            self.wakes(permits) + self.served(permits).wakes(
                self.permits_left(permits).plus(more),
            ) == self.wakes(permits.plus(more)),
            !self.permits_left(permits).poisoned(),
        decreases self.queue.len(),
    {
        if self.servable(permits) {
            let rest = self.popped(false);
            let left = self.after_first(permits);
            assert(self.after_first(permits.plus(more)) == left.plus(more));
            rest.lemma_served_twice(left, more);
            let first = self.entries[self.queue[0]].waker.finish_effects();
            assert(self.wakes(permits) == first + rest.wakes(left));
            assert(self.wakes(permits.plus(more)) == first + rest.wakes(left.plus(more)));
            assert(first + rest.wakes(left) + rest.served(left).wakes(
                rest.permits_left(left).plus(more),
            ) =~= first + (rest.wakes(left) + rest.served(left).wakes(
                rest.permits_left(left).plus(more),
            )));
        } else {
            assert(Seq::<Effect>::empty() + self.wakes(permits.plus(more)) =~= self.wakes(
                permits.plus(more),
            ));
        }
    }

    /// Offering the cancellation of the waiter at `i` to the owner of the release lock, who takes it.
    proof fn lemma_cancel_offered(self, i: int, thread: usize)
        requires
            self.ok(),
            0 <= i < self.queue.len(),
            self.entries[self.queue[i]].waker.state is Pending,
            self.stack.len() == 0,
            self.cancels.len() == 0,
            self.taken.len() == 0,
        ensures
            ({
                let ptr = self.queue[i];
                let x = self.with_waker(
                    ptr,
                    self.entries[ptr].waker.cancel_started(thread),
                ).cancel_pushed(ptr);
                let y = x.cancels_taken().all_linked();
                &&& x.ok()
                &&& x.pending() == self.pending()
                &&& x.stack == self.stack
                &&& x.taken == self.taken
                &&& x.cancels.contains(ptr)
                &&& x.cancels_taken().cancel_effects() == seq![Effect::Unpark(thread)]
                &&& y.ok()
                &&& y.queue == self.queue
                &&& y.stack.len() == 0 && y.cancels.len() == 0
                &&& y.taken == seq![ptr]
                &&& forall|z: WaiterPtr| z != ptr ==> #[trigger] y.entries[z] == self.entries[z]
            }),
    {
        let ptr = self.queue[i];
        assert(self.pending()[i] == ptr);
        assert(self.pending().contains(ptr));
        assert(self.may_pend(ptr));
        let s = self.with_waker(ptr, self.entries[ptr].waker.cancel_started(thread));
        self.lemma_idle(ptr);
        self.lemma_with_waker(ptr, self.entries[ptr].waker.cancel_started(thread));
        assert(s.pending() == self.pending());
        s.lemma_cancel_pushed(ptr);
        let x = s.cancel_pushed(ptr);
        assert(x.cancels[0] == ptr);
        x.lemma_cancels_taken();
        let t = x.cancels_taken();
        assert(t.pending() == self.pending());
        t.lemma_all_linked();
        let y = t.all_linked();
        assert(y.taken =~= seq![ptr]);
        assert(y.queue =~= self.queue);
        assert(t.cancel_effects() =~= seq![Effect::Unpark(thread)]);
    }

    /// Accepting the cancellation of the waiter at `i`, the only one that was taken.
    proof fn lemma_only_cancelled(self, i: int)
        requires
            self.ok(),
            0 <= i < self.queue.len(),
            self.taken == seq![self.queue[i]],
        ensures
            ({
                let d = self.all_cancelled();
                &&& d.ok()
                &&& d.stack == self.stack
                &&& d.cancels == self.cancels
                &&& d.taken.len() == 0
                &&& d.queue == self.queue.remove(i)
                &&& d.queue == without(self.queue, seq![self.queue[i]])
                &&& forall|z: WaiterPtr|
                    z != self.queue[i] ==> #[trigger] d.entries[z] == self.entries[z]
            }),
    {
        let ptr = self.queue[i];
        assert(self.taken[0] == ptr);
        assert(self.queue.contains(ptr));
        self.lemma_next_cancelled();
        self.lemma_all_cancelled();
        self.next_cancelled().lemma_none_cancelled();
        lemma_distinct(self.queue, self.stack);
        assert(self.queue.index_of(ptr) == i);
        lemma_without_one(self.queue, i);
    }

    /// More waiters ask for no less.
    pub proof fn lemma_demand_grows(self, m: int, n: int)
        requires
            m <= n,
        ensures
            self.demand(m) <= self.demand(n),
        decreases n - m,
    {
        if m < n {
            self.lemma_demand_grows(m, n - 1);
        }
    }

    /// First come, first served: permits go to the first waiters, as many as they last for. Poison
    /// lasts for all. Those that are served are woken in the order of their arrival, and nothing
    /// happens to the others.
    pub proof fn law_served(self, permits: Permits)
        requires
            self.ok(),
            self.calm(),
        ensures
            ({
                let k = self.served_count(permits);
                let w = self.served(permits);
                let left = self.permits_left(permits);
                &&& k <= self.queue.len()
                &&& w.queue == self.queue.skip(k as int)
                &&& w.calm()
                &&& permits.poisoned() ==> k == self.queue.len() && left == permits
                &&& !permits.poisoned() ==> left.0 + self.demand(k as int) == permits.0
                &&& !permits.poisoned() && k < self.queue.len() ==> permits.0 < self.demand(k + 1int)
                &&& forall|i: int|
                    0 <= i < k ==> w.entries[#[trigger] self.queue[i]] == (WaiterView {
                        waker: self.entries[self.queue[i]].waker.finished(permits.poisoned()),
                        ..self.entries[self.queue[i]]
                    })
                &&& forall|ptr: WaiterPtr|
                    !self.queue.take(k as int).contains(ptr) ==> #[trigger] w.entries[ptr]
                        == self.entries[ptr]
                &&& self.wakes(permits) == self.queue.take(k as int).map_values(
                    |ptr: WaiterPtr| Effect::Wake(self.entries[ptr].waker.parts()),
                )
            }),
        decreases self.queue.len(),
    {
        let k = self.served_count(permits);
        let w = self.served(permits);
        let wakes = self.queue.take(k as int).map_values(
            |ptr: WaiterPtr| Effect::Wake(self.entries[ptr].waker.parts()),
        );
        if self.servable(permits) {
            let first = self.queue[0];
            let v = self.popped(permits.poisoned());
            let rest = self.after_first(permits);
            self.lemma_popped(permits.poisoned());
            assert forall|i: int| 0 <= i < v.queue.len() implies #[trigger] v.queue[i]
                == self.queue[i + 1] && v.queue[i] != first by {
                assert(self.pending()[0] == first);
                assert(self.pending()[i + 1] == self.queue[i + 1]);
            }
            v.law_served(rest);
            assert(v.served_count(rest) == k - 1);
            assert(w.queue =~= self.queue.skip(k as int));
            self.lemma_demand_popped(k - 1, permits.poisoned());
            if k < self.queue.len() {
                self.lemma_demand_popped(k as int, permits.poisoned());
            }
            assert(!v.queue.contains(first));
            let t = v.queue.take(k - 1);
            assert(!t.contains(first)) by {
                if t.contains(first) {
                    let i = choose|i: int| 0 <= i < t.len() && t[i] == first;
                    assert(v.queue[i] == first);
                }
            }
            assert(w.entries[first] == v.entries[first]);
            assert forall|i: int| 0 <= i < k implies w.entries[#[trigger] self.queue[i]] == (
            WaiterView {
                waker: self.entries[self.queue[i]].waker.finished(permits.poisoned()),
                ..self.entries[self.queue[i]]
            }) by {
                if i > 0 {
                    assert(v.queue[i - 1] == self.queue[i]);
                }
            }
            assert forall|ptr: WaiterPtr| !self.queue.take(k as int).contains(ptr) implies #[trigger]
                w.entries[ptr] == self.entries[ptr] by {
                assert(self.queue.take(k as int)[0] == first);
                assert(!t.contains(ptr)) by {
                    if t.contains(ptr) {
                        let i = choose|i: int| 0 <= i < t.len() && t[i] == ptr;
                        assert(self.queue.take(k as int)[i + 1] == ptr);
                    }
                }
            }
            assert(self.wakes(permits) =~= wakes);
        } else {
            assert(w.queue =~= self.queue.skip(0));
            assert(self.wakes(permits) =~= wakes);
            assert(self.demand(0) == 0);
            if self.queue.len() > 0 {
                assert(self.demand(1) == self.demand(0) + self.entries[self.queue[0]].amount);
            }
        }
    }
}

impl SemaphoreView {
    /// Nothing is in progress: no release holds the lock, and no future is being polled or
    /// dropped. Then waiters are pending only if the first one asks for more than there is, and
    /// permits are available if none is.
    pub open spec fn settled(self) -> bool {
        &&& self.ok()
        &&& !self.locked()
        &&& self.waiters.stack.len() == 0
        &&& self.waiters.cancels.len() == 0
        &&& self.waiters.calm()
        &&& self.waiters.queue.len() == 0 ==> self.acquire is Available && self.release
            == ReleaseState::Unlocked(Permits(0))
        &&& self.waiters.queue.len() > 0 ==> !self.permits().poisoned() && self.permits().0
            < self.waiters.entries[self.waiters.queue[0]].amount
    }

    /// The permits of a semaphore in which nothing is in progress.
    pub open spec fn permits(self) -> Permits {
        match self.acquire {
            AcquireState::Available(available) => available,
            AcquireState::Queued(_) => self.release->Unlocked_0,
        }
    }

    /// In a semaphore in which nothing is in progress there is nothing to clear.
    proof fn lemma_settled(self)
        requires
            self.settled(),
        ensures
            self.waiters.pending() == self.waiters.queue,
            self.waiters.cleared() == self.waiters,
            self.waiters.cancels_taken().cancel_effects() == Seq::<Effect>::empty(),
            self.waiters.queue.len() > 0 ==> self.acquire == AcquireState::Queued(WaiterPtr(0)),
            self.permits().norm() == self.permits(),
    {
        let w = self.waiters;
        assert(w.pending() =~= w.queue);
        assert(w.cancels_taken() =~= w);
        assert(w.all_linked() =~= w);
        w.lemma_none_cancelled();
    }

    /// A new semaphore is settled.
    pub proof fn law_new(address: usize, initial: usize)
        ensures
            SemaphoreView::fresh(address, initial).settled(),
            SemaphoreView::fresh(address, initial).permits() == Permits(initial).norm(),
            SemaphoreView::fresh(address, initial).waiters.pending().len() == 0,
    {
    }

    /// A release adds its permits to those that there are and serves the pending waiters with the
    /// sum, in the order of their arrival. What is left stays.
    pub proof fn law_release(self, releasable: Permits)
        requires
            self.settled(),
        ensures
            ({
                let total = releasable.plus(self.permits());
                let k = self.waiters.served_count(total);
                let after = self.released(releasable);
                &&& after.settled()
                &&& after.waiters == self.waiters.served(total)
                &&& after.waiters.pending() == self.waiters.pending().skip(k as int)
                &&& after.permits() == self.waiters.permits_left(total).norm()
                &&& self.release_effects(releasable) == self.waiters.wakes(total)
            }),
    {
        let total = releasable.plus(self.permits());
        let after = self.released(releasable);
        let w = self.waiters;
        self.lemma_settled();
        w.law_served(total);
        w.lemma_served(total);
        assert(after.waiters == w.served(total));
        assert(after.waiters.pending() =~= w.pending().skip(w.served_count(total) as int));
        assert(self.release_effects(releasable) =~= w.wakes(total));
    }

    /// An attempt to acquire fails if and only if the semaphore is poisoned, another acquire is
    /// pending, or there are not enough permits. If it succeeds, the permits are gone.
    pub proof fn law_try_acquire(self, amount: usize)
        requires
            self.settled(),
        ensures
            refusal(self.acquire, amount) == if self.permits().poisoned() {
                Some(TryAcquireError::Poisoned)
            } else if self.waiters.pending().len() > 0 || amount > self.permits().0 {
                Some(TryAcquireError::WouldBlock)
            } else {
                None
            },
            refusal(self.acquire, amount) is None ==> {
                &&& self.taken_at_once(amount).settled()
                &&& self.taken_at_once(amount).permits().0 + amount == self.permits().0
            },
    {
        self.lemma_settled();
    }

    /// Releasing what an attempt to acquire took undoes it.
    pub proof fn law_give_back(self, amount: usize)
        requires
            self.settled(),
            refusal(self.acquire, amount) is None,
        ensures
            self.taken_at_once(amount).released(Permits(amount)) == self,
            self.taken_at_once(amount).release_effects(Permits(amount)) == Seq::<Effect>::empty(),
    {
        let taken = self.taken_at_once(amount);
        self.law_try_acquire(amount);
        taken.law_release(Permits(amount));
        taken.lemma_settled();
        assert(taken.released(Permits(amount)) =~= self);
    }

    /// Whatever another release is doing, giving back what an attempt to acquire took leaves as many
    /// permits as there were, available or left to the owner of the lock, unless they would be
    /// poison together. The waiters stay as they are and nobody is woken.
    pub proof fn law_give_back_any_time(self, amount: usize)
        requires
            self.ok(),
            refusal(self.acquire, amount) is None,
            !self.available().plus(self.kept()).poisoned(),
        ensures
            ({
                let taken = self.taken_at_once(amount);
                let after = taken.released(Permits(amount));
                &&& after.available().0 + after.kept().0 == self.available().0 + self.kept().0
                &&& self.locked() ==> after.kept().0 == self.kept().0 + amount
                &&& !self.locked() ==> after.kept() == Permits(0)
                &&& after.waiters == self.waiters
                &&& taken.release_effects(Permits(amount)) == Seq::<Effect>::empty()
            }),
    {
        let w = self.waiters;
        let taken = self.taken_at_once(amount);
        assert(w.pending().len() == 0);
        if !self.locked() {
            w.lemma_nothing_to_clear();
            w.lemma_none_cancelled();
            assert(taken.release_effects(Permits(amount)) =~= seq![]);
        }
    }

    /// Releasing permits in two parts is releasing their sum, unless that poisons the semaphore.
    pub proof fn law_release_parts(self, first: Permits, second: Permits)
        requires
            self.settled(),
            !first.plus(second).plus(self.permits()).poisoned(),
        ensures
            self.released(first).released(second) == self.released(first.plus(second)),
            self.release_effects(first) + self.released(first).release_effects(second)
                == self.release_effects(first.plus(second)),
    {
        let w = self.waiters;
        let total = first.plus(self.permits());
        let between = self.released(first);
        self.law_release(first);
        between.law_release(second);
        self.law_release(first.plus(second));
        self.lemma_settled();
        w.lemma_served_twice(total, second);
        w.law_served(total);
        assert(first.plus(second).plus(self.permits()) == total.plus(second));
        assert(between.permits() == w.permits_left(total));
        assert(second.plus(between.permits()) == between.permits().plus(second));
        between.released(second).lemma_settled_alike(self.released(first.plus(second)));
    }

    /// A semaphore in which nothing is in progress is made up of its waiters and its permits.
    proof fn lemma_settled_alike(self, other: SemaphoreView)
        requires
            self.settled(),
            other.settled(),
            self.address == other.address,
            self.waiters == other.waiters,
            self.permits() == other.permits(),
        ensures
            self == other,
    {
        self.lemma_settled();
        other.lemma_settled();
    }

    /// Creating a future changes nothing for the others.
    pub proof fn law_acquire(self, ptr: WaiterPtr, amount: usize)
        requires
            self.settled(),
            !self.waiters.entries.contains_key(ptr),
            ptr != WaiterPtr(0),
            ptr.aligned(),
        ensures
            ({
                let after = self.with_waiters(self.waiters.inserted(ptr, self.address, amount));
                &&& after.settled()
                &&& after.permits() == self.permits()
                &&& after.waiters.pending() == self.waiters.pending()
            }),
    {
        let w = self.waiters;
        w.lemma_inserted(ptr, self.address, amount);
        assert forall|i: int| 0 <= i < w.queue.len() implies #[trigger] w.queue[i] != ptr by {
            assert(w.pending()[i] == w.queue[i]);
        }
    }

    /// A future that is never polled neither takes nor returns permits, in whatever state the
    /// semaphore is: creating it changes nothing but that its waiter is there, and dropping it
    /// leaves what there was before, with nobody woken.
    pub proof fn law_unpolled(self, ptr: WaiterPtr, amount: usize, thread: usize)
        requires
            !self.waiters.entries.contains_key(ptr),
        ensures
            ({
                let created = self.with_waiters(self.waiters.inserted(ptr, self.address, amount));
                &&& created.acquire == self.acquire
                &&& created.release == self.release
                &&& created.waiters.pending() == self.waiters.pending()
                &&& created.waiters.entries.remove(ptr) == self.waiters.entries
                &&& created.dropped(ptr, thread) == self
                &&& created.drop_effects(ptr, thread) == Seq::<Effect>::empty()
            }),
    {
        let created = self.with_waiters(self.waiters.inserted(ptr, self.address, amount));
        assert(created.waiters.entries.remove(ptr) =~= self.waiters.entries);
        assert(created.removed(ptr) =~= self);
    }

    /// The first poll of a future: it fails if the semaphore is poisoned. It gets its permits if no
    /// other acquire is pending and there are enough. Otherwise it is pending, after all others,
    /// even if there are enough permits for it alone. Nobody is woken.
    pub proof fn law_first_poll(self, ptr: WaiterPtr, waker: WakerParts)
        requires
            self.settled(),
            self.waiters.entries.contains_key(ptr),
            self.waiters.entries[ptr].step is Entering,
            self.waiters.entries[ptr].waker.state is Pending,
            waker.vtable != 0,
        ensures
            ({
                let amount = self.waiters.entries[ptr].amount;
                let outcome = entry(self.acquire, amount);
                let after = self.poll_entered(ptr, waker);
                &&& after.settled()
                &&& if self.permits().poisoned() {
                    &&& outcome == Some(Err::<(), PoisonError>(PoisonError))
                    &&& after.permits() == self.permits()
                    &&& after.waiters.pending() == self.waiters.pending()
                    &&& self.poll_enter_effects(ptr, waker) == seq![Effect::Drop(waker)]
                } else if self.waiters.pending().len() == 0 && amount <= self.permits().0 {
                    &&& outcome == Some(Ok::<(), PoisonError>(()))
                    &&& after.permits().0 + amount == self.permits().0
                    &&& after.waiters.pending() == self.waiters.pending()
                    &&& self.poll_enter_effects(ptr, waker) == seq![Effect::Drop(waker)]
                } else {
                    &&& outcome is None
                    &&& after.permits() == self.permits()
                    &&& after.waiters.pending() == self.waiters.pending().push(ptr)
                    &&& after.waiters.entries[ptr].amount == amount
                    &&& after.waiters.entries[ptr].step is Waiting
                    &&& after.waiters.entries[ptr].waker.state is Pending
                    &&& after.waiters.entries[ptr].waker.parts() == waker
                    &&& self.poll_enter_effects(ptr, waker)
                        == self.waiters.entries[ptr].waker.poll_effects(waker)
                }
            }),
    {
        let w = self.waiters;
        let amount = w.entries[ptr].amount;
        let after = self.poll_entered(ptr, waker);
        self.lemma_settled();
        if entry(self.acquire, amount) is Some {
            self.lemma_not_queued(ptr);
            w.lemma_with_step(ptr, AcquireStep::Done);
            assert(w.with_step(ptr, AcquireStep::Done).pending() == w.pending());
        } else {
            self.lemma_first_poll_waits(ptr, waker);
        }
    }

    proof fn lemma_not_queued(self, ptr: WaiterPtr)
        requires
            self.settled(),
            self.waiters.entries[ptr].step is Entering,
        ensures
            !self.waiters.pending().contains(ptr),
            forall|i: int|
                0 <= i < self.waiters.queue.len() ==> #[trigger] self.waiters.queue[i] != ptr,
    {
        let w = self.waiters;
        if w.pending().contains(ptr) {
            assert(w.may_pend(ptr));
        }
        assert forall|i: int| 0 <= i < w.queue.len() implies #[trigger] w.queue[i] != ptr by {
            assert(w.pending()[i] == w.queue[i]);
        }
    }

    /// A release with which no waiter can be served keeps the permits for the first one.
    proof fn lemma_release_stuck(self, releasable: Permits)
        requires
            self.ok(),
            !self.locked(),
            self.waiters.cancels.len() == 0,
            self.waiters.pending().len() > 0,
            !self.waiters.all_linked().servable(releasable.plus(self.release->Unlocked_0)),
        ensures
            self.released(releasable) == (SemaphoreView {
                acquire: AcquireState::Queued(WaiterPtr(0)),
                release: ReleaseState::Unlocked(releasable.plus(self.release->Unlocked_0).norm()),
                waiters: self.waiters.all_linked(),
                ..self
            }),
            self.release_effects(releasable) == Seq::<Effect>::empty(),
    {
        let w = self.waiters;
        let c = w.all_linked();
        assert(w.cancels_taken() =~= w);
        c.lemma_none_cancelled();
        w.lemma_none_cancelled();
        assert(w.cleared() == c);
        assert(c.served(releasable.plus(self.release->Unlocked_0)) == c);
        assert(self.release_effects(releasable) =~= seq![]);
    }

    /// What becomes of a future that has to wait.
    proof fn lemma_entered(self, ptr: WaiterPtr, waker: WakerParts)
        requires
            self.settled(),
            self.waiters.entries.contains_key(ptr),
            self.waiters.entries[ptr].step is Entering,
            self.waiters.entries[ptr].waker.state is Pending,
            waker.vtable != 0,
        ensures
            ({
                let entered = self.registered(ptr, waker).entered(ptr, None);
                &&& entered.ok()
                &&& entered.waiters.pending() == self.waiters.queue.push(ptr)
                &&& entered.waiters.calm()
                &&& entered.waiters.all_linked().calm()
                &&& entered.waiters.all_linked().ok()
                &&& entered.waiters.entries[ptr].amount == self.waiters.entries[ptr].amount
                &&& forall|i: int|
                    0 <= i < self.waiters.queue.len()
                        ==> entered.waiters.entries[#[trigger] self.waiters.queue[i]]
                        == self.waiters.entries[self.waiters.queue[i]]
            }),
    {
        let w = self.waiters;
        let registered = self.registered(ptr, waker);
        let r = registered.waiters;
        let e = registered.entered(ptr, None).waiters;
        self.lemma_settled();
        self.lemma_not_queued(ptr);
        w.lemma_with_waker(ptr, w.entries[ptr].waker.polled(waker));
        assert(r.pending() == w.pending());
        r.lemma_pushed(ptr);
        e.lemma_all_linked();
        let c = e.all_linked();
        assert forall|i: int| 0 <= i < c.queue.len() implies c.entries[#[trigger] c.queue[i]].waker.state is Pending by {
            if i < w.queue.len() {
                assert(c.queue[i] == w.queue[i]);
            }
        }
    }

    /// Once a waiter has joined the queue, the first one still asks for more than there is.
    proof fn lemma_joined(self, c: WaitersView, ptr: WaiterPtr)
        requires
            self.settled(),
            c.ok(),
            c.calm(),
            c.cancels.len() == 0,
            c.taken.len() == 0,
            c.stack.len() == 0,
            c.queue == self.waiters.queue.push(ptr),
            forall|i: int|
                0 <= i < self.waiters.queue.len() ==> c.entries[#[trigger] self.waiters.queue[i]]
                    == self.waiters.entries[self.waiters.queue[i]],
            self.waiters.queue.len() == 0 ==> self.permits().0 < c.entries[ptr].amount
                && !self.permits().poisoned(),
        ensures
            !c.servable(self.permits()),
            c.pending() == c.queue,
            (SemaphoreView {
                acquire: AcquireState::Queued(WaiterPtr(0)),
                release: ReleaseState::Unlocked(self.permits().norm()),
                waiters: c,
                ..self
            }).settled(),
    {
        let w = self.waiters;
        assert(c.queue[0] == if w.queue.len() > 0 {
            w.queue[0]
        } else {
            ptr
        });
        assert(c.pending() =~= c.queue);
    }

    /// Releasing the permits that a new waiter has found serves nobody, and settles the semaphore.
    proof fn lemma_joined_released(self, entered: SemaphoreView, ptr: WaiterPtr)
        requires
            self.settled(),
            entered.ok(),
            entered.address == self.address,
            entered.release == self.release,
            entered.waiters.pending() == self.waiters.queue.push(ptr),
            entered.waiters.cancels.len() == 0,
            entered.waiters.taken.len() == 0,
            entered.waiters.all_linked().ok(),
            entered.waiters.all_linked().calm(),
            forall|i: int|
                0 <= i < self.waiters.queue.len()
                    ==> entered.waiters.entries[#[trigger] self.waiters.queue[i]]
                    == self.waiters.entries[self.waiters.queue[i]],
            self.waiters.queue.len() == 0 ==> self.permits().0 < entered.waiters.entries[ptr].amount
                && !self.permits().poisoned(),
        ensures
            entered.released(self.available()).settled(),
            entered.released(self.available()).permits() == self.permits(),
            entered.released(self.available()).waiters.pending() == self.waiters.queue.push(ptr),
            entered.released(self.available()).waiters.entries == entered.waiters.entries,
            entered.release_effects(self.available()) == Seq::<Effect>::empty(),
    {
        let after = SemaphoreView {
            acquire: AcquireState::Queued(WaiterPtr(0)),
            release: ReleaseState::Unlocked(self.permits().norm()),
            waiters: entered.waiters.all_linked(),
            ..self
        };
        self.lemma_settled();
        self.lemma_joined(entered.waiters.all_linked(), ptr);
        assert(self.available().plus(self.release->Unlocked_0) == self.permits());
        entered.lemma_release_stuck(self.available());
        assert(entered.released(self.available()) == after);
        assert(after.permits() == self.permits());
    }

    /// A future that has to wait joins the queue, where nothing else happens.
    proof fn lemma_first_poll_waits(self, ptr: WaiterPtr, waker: WakerParts)
        requires
            self.settled(),
            self.waiters.entries.contains_key(ptr),
            self.waiters.entries[ptr].step is Entering,
            self.waiters.entries[ptr].waker.state is Pending,
            waker.vtable != 0,
            entry(self.acquire, self.waiters.entries[ptr].amount) is None,
        ensures
            ({
                let after = self.poll_entered(ptr, waker);
                &&& after.settled()
                &&& after.permits() == self.permits()
                &&& after.waiters.pending() == self.waiters.pending().push(ptr)
                &&& after.waiters.entries == self.registered(ptr, waker).entered(
                    ptr,
                    None,
                ).waiters.entries
                &&& self.poll_enter_effects(ptr, waker)
                    == self.waiters.entries[ptr].waker.poll_effects(waker)
            }),
    {
        let w = self.waiters;
        let entered = self.registered(ptr, waker).entered(ptr, None);
        self.lemma_settled();
        self.lemma_entered(ptr, waker);
        self.lemma_joined_released(entered, ptr);
        assert(self.poll_entered(ptr, waker) == entered.released(self.available()));
        let effects = w.entries[ptr].waker.poll_effects(waker);
        assert(self.poll_enter_effects(ptr, waker) == effects + entered.release_effects(
            self.available(),
        ));
        assert(effects + Seq::<Effect>::empty() =~= effects);
    }

    /// A later poll of a future changes nothing for the others.
    pub proof fn law_later_poll(self, ptr: WaiterPtr, waker: WakerParts)
        requires
            self.settled(),
            self.waiters.entries.contains_key(ptr),
            self.waiters.entries[ptr].step is Waiting,
            self.waiters.entries[ptr].waker.idle(),
            waker.vtable != 0,
        ensures
            self.poll_waited(ptr, waker).settled(),
            self.poll_waited(ptr, waker).permits() == self.permits(),
            self.poll_waited(ptr, waker).waiters.pending() == self.waiters.pending(),
    {
        let w = self.waiters;
        self.lemma_settled();
        w.lemma_idle(ptr);
        if w.entries[ptr].waker.state is Finished {
            w.lemma_with_step(ptr, AcquireStep::Done);
            assert(w.with_step(ptr, AcquireStep::Done).pending() == w.pending());
        } else {
            w.lemma_with_waker(ptr, w.entries[ptr].waker.polled(waker));
            assert(w.with_waker(ptr, w.entries[ptr].waker.polled(waker)).pending() == w.pending());
        }
    }

    /// Poison is permanent: a poisoned semaphore has no pending acquires, all acquires fail, and a
    /// release does nothing.
    pub proof fn law_poisoned(self, releasable: Permits, amount: usize)
        requires
            self.settled(),
            self.permits().poisoned(),
        ensures
            self.waiters.pending().len() == 0,
            self.released(releasable) == self,
            self.release_effects(releasable) == Seq::<Effect>::empty(),
            entry(self.acquire, amount) == Some(Err::<(), PoisonError>(PoisonError)),
            refusal(self.acquire, amount) == Some(TryAcquireError::Poisoned),
    {
        self.lemma_settled();
        self.law_release(releasable);
        self.waiters.law_served(releasable.plus(self.permits()));
        assert(self.released(releasable) =~= self);
    }

    /// Too many permits poison the semaphore, as poison does: all pending acquires fail and are
    /// woken.
    pub proof fn law_poison(self, releasable: Permits)
        requires
            self.settled(),
            releasable.plus(self.permits()).poisoned(),
        ensures
            ({
                let after = self.released(releasable);
                &&& after.settled()
                &&& after.permits().poisoned()
                &&& after.waiters.pending().len() == 0
                &&& forall|ptr: WaiterPtr| #[trigger]
                    self.waiters.pending().contains(ptr)
                        ==> after.waiters.entries[ptr].waker.state == (State::Finished {
                        poisoned: true,
                    })
                &&& self.release_effects(releasable) == self.waiters.pending().map_values(
                    |ptr: WaiterPtr| Effect::Wake(self.waiters.entries[ptr].waker.parts()),
                )
            }),
    {
        let w = self.waiters;
        let total = releasable.plus(self.permits());
        self.lemma_settled();
        self.law_release(releasable);
        w.law_served(total);
        assert(w.queue.take(w.queue.len() as int) =~= w.queue);
        assert forall|ptr: WaiterPtr| #[trigger]
            w.pending().contains(ptr) implies self.released(releasable).waiters.entries[ptr].waker.state == (
        State::Finished { poisoned: true }) by {
            let i = choose|i: int| 0 <= i < w.pending().len() && w.pending()[i] == ptr;
            assert(w.queue[i] == ptr);
        }
    }

    /// Dropping a guard while unwinding poisons the semaphore, whatever the guard holds.
    pub proof fn law_unwinding(self, amount: usize)
        requires
            self.settled(),
        ensures
            ({
                let after = self.released(given_back(amount, true));
                &&& after.settled()
                &&& after.permits().poisoned()
                &&& after.waiters.pending().len() == 0
            }),
    {
        self.law_poison(given_back(amount, true));
    }

    /// Removing a waiter that is not pending changes nothing for the others.
    proof fn lemma_removed(self, ptr: WaiterPtr)
        requires
            self.settled(),
            !self.waiters.pending().contains(ptr),
        ensures
            self.removed(ptr).settled(),
            self.removed(ptr).permits() == self.permits(),
            self.removed(ptr).waiters.pending() == self.waiters.pending(),
    {
        let w = self.waiters;
        w.lemma_removed(ptr);
        assert forall|i: int| 0 <= i < w.queue.len() implies #[trigger] w.queue[i] != ptr by {
            assert(w.pending()[i] == w.queue[i]);
        }
    }

    /// Dropping a future that was not polled, that has ended, or that has failed without having
    /// been told so, changes nothing for the others, and wakes nobody.
    pub proof fn law_drop_ended(self, ptr: WaiterPtr, thread: usize)
        requires
            self.settled(),
            self.waiters.entries.contains_key(ptr),
            self.waiters.entries[ptr].step is Waiting ==> self.waiters.entries[ptr].waker.state == (
            State::Finished { poisoned: true }),
        ensures
            self.dropped(ptr, thread) == self.removed(ptr),
            self.drop_effects(ptr, thread) == self.waiters.entries[ptr].waker.leftover(),
            self.removed(ptr).settled(),
            self.removed(ptr).permits() == self.permits(),
            self.removed(ptr).waiters.pending() == self.waiters.pending(),
    {
        if self.waiters.pending().contains(ptr) {
            assert(self.waiters.may_pend(ptr));
        }
        self.lemma_removed(ptr);
    }

    /// Dropping a future that has got its permits without having been told so releases them, and
    /// wakes those that are served with them.
    pub proof fn law_drop_finished(self, ptr: WaiterPtr, thread: usize)
        requires
            self.settled(),
            self.waiters.entries.contains_key(ptr),
            self.waiters.entries[ptr].step is Waiting,
            self.waiters.entries[ptr].waker.state == (State::Finished { poisoned: false }),
        ensures
            ({
                let amount = self.waiters.entries[ptr].amount;
                let total = Permits(amount).plus(self.permits());
                let k = self.waiters.served_count(total);
                let after = self.dropped(ptr, thread);
                &&& after.settled()
                &&& after.waiters.pending() == self.waiters.pending().skip(k as int)
                &&& after.permits() == self.waiters.permits_left(total).norm()
                &&& self.drop_effects(ptr, thread) == self.waiters.wakes(total)
            }),
    {
        let w = self.waiters;
        let amount = w.entries[ptr].amount;
        let total = Permits(amount).plus(self.permits());
        let started = self.cancel_started(ptr, thread);
        let s = started.waiters;
        w.lemma_idle(ptr);
        w.lemma_with_waker(ptr, w.entries[ptr].waker.cancel_started(thread));
        assert(s.pending() == w.pending());
        assert forall|i: int| 0 <= i < w.queue.len() implies #[trigger] w.queue[i] != ptr by {
            assert(w.pending()[i] == w.queue[i]);
        }
        lemma_served_alike(w, s, total);
        started.law_release(Permits(amount));
        started.lemma_release_others(Permits(amount), ptr);
        started.released(Permits(amount)).lemma_removed(ptr);
    }

    /// A release settles a semaphore in which no future is being polled, or cancelled without
    /// having said so.
    proof fn lemma_release_settles(self, releasable: Permits)
        requires
            self.ok(),
            !self.locked(),
            self.waiters.pending().len() > 0,
            self.waiters.cleared().ok(),
            self.waiters.cleared().calm(),
            self.waiters.cleared().stack.len() == 0,
            self.waiters.cleared().cancels.len() == 0,
            self.waiters.cleared().taken.len() == 0,
        ensures
            ({
                let total = releasable.plus(self.release->Unlocked_0);
                let d = self.waiters.cleared();
                let after = self.released(releasable);
                &&& after.settled()
                &&& after.waiters == d.served(total)
                &&& after.waiters.pending() == d.queue.skip(d.served_count(total) as int)
                &&& after.permits() == d.permits_left(total).norm()
            }),
    {
        let total = releasable.plus(self.release->Unlocked_0);
        let d = self.waiters.cleared();
        d.law_served(total);
        d.lemma_served(total);
        assert(self.released(releasable).waiters == d.served(total));
        assert(d.served(total).pending() =~= d.served(total).queue);
    }

    /// What is left of the queue when the waiter at `i` is cancelled.
    proof fn lemma_cancelled_at(self, i: int, thread: usize)
        requires
            self.settled(),
            0 <= i < self.waiters.queue.len(),
        ensures
            ({
                let ptr = self.waiters.queue[i];
                let x = self.cancel_started(ptr, thread).cancel_pushed(ptr);
                let d = x.waiters.cleared();
                &&& x.ok()
                &&& x.waiters.pending() == self.waiters.pending()
                &&& x.waiters.cancels.contains(ptr)
                &&& x.waiters.cancels_taken().cancel_effects() == seq![Effect::Unpark(thread)]
                &&& d.ok()
                &&& d.stack.len() == 0 && d.cancels.len() == 0 && d.taken.len() == 0
                &&& d.queue == self.waiters.queue.remove(i)
                &&& d.queue == without(self.waiters.queue, seq![ptr])
                &&& forall|z: WaiterPtr| z != ptr ==> #[trigger] d.entries[z] == self.waiters.entries[z]
            }),
    {
        let w = self.waiters;
        self.lemma_settled();
        assert(w.pending()[i] == w.queue[i]);
        assert(w.pending().contains(w.queue[i]));
        assert(w.may_pend(w.queue[i]));
        w.lemma_cancel_offered(i, thread);
        let x = self.cancel_started(w.queue[i], thread).cancel_pushed(w.queue[i]).waiters;
        x.cancels_taken().all_linked().lemma_only_cancelled(i);
    }

    /// What is left of the queue when one waiter is cancelled.
    proof fn lemma_cancelled(self, ptr: WaiterPtr, thread: usize)
        requires
            self.settled(),
            self.waiters.pending().contains(ptr),
        ensures
            ({
                let x = self.cancel_started(ptr, thread).cancel_pushed(ptr);
                let d = x.waiters.cleared();
                let others = self.others(ptr);
                &&& x.ok()
                &&& x.waiters.pending() == self.waiters.pending()
                &&& x.waiters.cancels.contains(ptr)
                &&& x.waiters.cancels_taken().cancel_effects() == seq![Effect::Unpark(thread)]
                &&& d.ok()
                &&& d.calm()
                &&& d.stack.len() == 0 && d.cancels.len() == 0 && d.taken.len() == 0
                &&& d.queue == others.queue
                &&& others.ok()
                &&& others.calm()
                &&& forall|i: int|
                    0 <= i < d.queue.len() ==> d.entries[#[trigger] d.queue[i]]
                        == others.entries[d.queue[i]]
                &&& self.waiters.queue[0] != ptr ==> others.queue.len() > 0 && others.queue[0]
                    == self.waiters.queue[0]
            }),
    {
        let w = self.waiters;
        self.lemma_settled();
        let i = choose|i: int| 0 <= i < w.queue.len() && w.queue[i] == ptr;
        self.lemma_cancelled_at(i, thread);
        let d = self.cancel_started(ptr, thread).cancel_pushed(ptr).waiters.cleared();
        self.lemma_others(d, i);
    }

    proof fn lemma_others(self, d: WaitersView, i: int)
        requires
            self.settled(),
            0 <= i < self.waiters.queue.len(),
            d.ok(),
            d.stack.len() == 0,
            d.queue == self.waiters.queue.remove(i),
            d.queue == self.others(self.waiters.queue[i]).queue,
            forall|z: WaiterPtr|
                z != self.waiters.queue[i] ==> #[trigger] d.entries[z] == self.waiters.entries[z],
        ensures
            ({
                let others = self.others(self.waiters.queue[i]);
                &&& d.calm()
                &&& others.ok()
                &&& others.calm()
                &&& forall|j: int|
                    0 <= j < d.queue.len() ==> d.entries[#[trigger] d.queue[j]]
                        == others.entries[d.queue[j]]
                &&& i != 0 ==> others.queue.len() > 0 && others.queue[0] == self.waiters.queue[0]
            }),
    {
        let w = self.waiters;
        let ptr = w.queue[i];
        let others = self.others(ptr);
        self.lemma_settled();
        assert(d.pending() =~= d.queue);
        assert(others.pending() =~= d.queue);
        assert forall|j: int| 0 <= j < d.queue.len() implies #[trigger] d.queue[j] != ptr
            && w.entries[d.queue[j]].waker.state is Pending && w.may_pend(d.queue[j]) by {
            let l = if j < i {
                j
            } else {
                j + 1
            };
            assert(d.queue[j] == w.queue[l]);
            assert(w.pending()[l] == w.queue[l]);
            assert(w.pending()[i] == ptr);
            assert(w.pending().contains(w.queue[l]));
        }
        assert forall|z: WaiterPtr| #[trigger] others.pending().contains(z) implies others.may_pend(
            z,
        ) by {
            let j = choose|j: int| 0 <= j < d.queue.len() && d.queue[j] == z;
            assert(w.may_pend(d.queue[j]));
        }
        assert(others.taken + others.cancels =~= w.taken + w.cancels);
    }

    /// The waiters other than `ptr`.
    pub open spec fn others(self, ptr: WaiterPtr) -> WaitersView {
        WaitersView { queue: without(self.waiters.queue, seq![ptr]), ..self.waiters }
    }

    /// Dropping a pending future cancels it: it leaves the queue. If it was the first one, those
    /// after it may be served with the permits that there are, and these are woken. No permits are
    /// lost.
    pub proof fn law_cancel(self, ptr: WaiterPtr, thread: usize)
        requires
            self.settled(),
            self.waiters.pending().contains(ptr),
        ensures
            ({
                let others = self.others(ptr);
                let k = others.served_count(self.permits());
                let after = self.dropped(ptr, thread);
                &&& after.settled()
                &&& after.waiters.pending() == without(self.waiters.pending(), seq![ptr]).skip(
                    k as int,
                )
                &&& after.permits().0 + others.demand(k as int) == self.permits().0
                &&& self.waiters.pending()[0] != ptr ==> k == 0
                &&& !after.waiters.entries.contains_key(ptr)
                &&& self.drop_effects(ptr, thread) == seq![Effect::Unpark(thread)] + others.wakes(
                    self.permits(),
                ) + seq![Effect::Drop(self.waiters.entries[ptr].waker.parts())]
            }),
    {
        let w = self.waiters;
        let x = self.cancel_started(ptr, thread).cancel_pushed(ptr);
        let d = x.waiters.cleared();
        let u = self.permits();
        self.lemma_settled();
        self.lemma_cancelled(ptr, thread);
        x.lemma_release_settles(Permits(0));
        x.lemma_release_cancels(Permits(0), ptr);
        x.released(Permits(0)).lemma_removed(ptr);
        lemma_served_alike(self.others(ptr), d, u);
        self.others(ptr).law_served(u);
        assert(w.may_pend(ptr));
        w.lemma_idle(ptr);
        assert(self.dropped(ptr, thread) == x.released(Permits(0)).removed(ptr));
        assert(x.release_effects(Permits(0)) == seq![Effect::Unpark(thread)] + d.wakes(u));
        assert(w.entries[ptr].waker.dropped() == seq![
            Effect::Drop(w.entries[ptr].waker.parts()),
        ]);
    }
}

/// How many are served, and who is woken, depends only on the waiters of the queue.
proof fn lemma_served_alike(v: WaitersView, w: WaitersView, permits: Permits)
    requires
        v.ok(),
        w.ok(),
        v.queue == w.queue,
        forall|i: int|
            0 <= i < v.queue.len() ==> v.entries[#[trigger] v.queue[i]] == w.entries[v.queue[i]],
    ensures
        v.served_count(permits) == w.served_count(permits),
        v.permits_left(permits) == w.permits_left(permits),
        v.wakes(permits) == w.wakes(permits),
    decreases v.queue.len(),
{
    if v.queue.len() > 0 {
        assert(v.entries[v.queue[0]] == w.entries[v.queue[0]]);
    }
    if v.servable(permits) {
        let x = v.popped(permits.poisoned());
        let y = w.popped(permits.poisoned());
        v.lemma_popped(permits.poisoned());
        w.lemma_popped(permits.poisoned());
        assert forall|i: int| 0 <= i < x.queue.len() implies x.entries[#[trigger] x.queue[i]]
            == y.entries[x.queue[i]] by {
            assert(x.queue[i] == v.queue[i + 1]);
        }
        lemma_served_alike(x, y, v.after_first(permits));
    }
}

} // verus!
