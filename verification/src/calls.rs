use crate::acquire::AcquireFuture;
use crate::errors::PoisonError;
use crate::guard::{given_back, SemaphoreGuard};
use crate::model::{refusal, SemaphoreView};
use crate::protocol::{Step, System};
use crate::state::{Permits, WaiterPtr};
use crate::waker::{Effect, Poll, State, WakerParts};
use vstd::prelude::*;

verus! {

impl SemaphoreView {
    /// A future asks for just what `acquire` was called with: its first poll succeeds if and only if
    /// nobody is pending and there are that many permits. Then its guard holds that many, and there
    /// are that many less. It fails if and only if there is poison. Otherwise it waits for that
    /// many, after all others, with the waker that it was handed.
    pub proof fn law_acquire_poll(
        self,
        ptr: WaiterPtr,
        amount: usize,
        waker: WakerParts,
        panicking: bool,
    )
        requires
            self.settled(),
            !self.waiters.entries.contains_key(ptr),
            ptr.0 != 0 && ptr.0 % 2 == 0,
            waker.vtable != 0,
        ensures
            ({
                let created = self.with_waiters(self.waiters.inserted(ptr, self.address, amount));
                let result = (AcquireFuture { waiter: ptr }).poll_result(created, panicking);
                let after = created.polled(ptr, waker);
                let waiter = after.waiters.entries[ptr];
                let poisoned = self.permits().0 > usize::MAX / 8;
                let enough = self.waiters.pending().len() == 0 && amount <= self.permits().0;
                &&& after.settled()
                &&& poisoned ==> result == Poll::Ready(
                    Err::<SemaphoreGuard, PoisonError>(PoisonError),
                )
                &&& !poisoned && enough ==> {
                    &&& result == Poll::Ready(
                        Ok::<SemaphoreGuard, PoisonError>(
                            SemaphoreGuard { semaphore: self.address, amount, panicking },
                        ),
                    )
                    &&& after.permits().0 + amount == self.permits().0
                }
                &&& !poisoned && !enough ==> {
                    &&& result is Pending
                    &&& after.waiters.pending() == self.waiters.pending().push(ptr)
                    &&& after.permits() == self.permits()
                    &&& waiter.amount == amount
                    &&& waiter.step is Waiting && waiter.waker.state is Pending
                    &&& waiter.waker.data == waker.data && waiter.waker.vtable == waker.vtable
                }
            }),
    {
        let created = self.with_waiters(self.waiters.inserted(ptr, self.address, amount));
        self.law_acquire(ptr, amount);
        created.law_first_poll(ptr, waker);
    }

    /// What a future has taken comes back when its guard is dropped while not unwinding: after a
    /// first poll that succeeds and the drop of its guard, there are as many permits as before.
    pub proof fn law_guard_returns(self, ptr: WaiterPtr, waker: WakerParts, guard: SemaphoreGuard)
        requires
            self.settled(),
            (AcquireFuture { waiter: ptr }).entering(self),
            waker.vtable != 0,
            (AcquireFuture { waiter: ptr }).poll_result(self, guard.panicking) == Poll::Ready(
                Ok::<SemaphoreGuard, PoisonError>(guard),
            ),
        ensures
            ({
                let back = self.polled(ptr, waker).released(given_back(guard.amount, false));
                &&& back.settled()
                &&& back.permits() == self.permits()
                &&& back.waiters.pending() == self.waiters.pending()
                &&& self.polled(ptr, waker).release_effects(
                    given_back(guard.amount, false),
                ).len() == 0
            }),
    {
        let polled = self.polled(ptr, waker);
        self.law_first_poll(ptr, waker);
        polled.law_release(Permits(guard.amount));
        polled.waiters.law_serve_next(Permits(guard.amount).plus(polled.permits()));
    }

    /// A poll that returns a result ends the future.
    pub proof fn law_ready_ends(self, ptr: WaiterPtr, waker: WakerParts, panicking: bool)
        requires
            (AcquireFuture { waiter: ptr }).entering(self) || (AcquireFuture {
                waiter: ptr,
            }).waiting(self),
            (AcquireFuture { waiter: ptr }).poll_result(self, panicking) is Ready,
        ensures
            self.polled(ptr, waker).waiters.entries[ptr].step is Done,
            self.polled(ptr, waker).waiters.entries[ptr].amount == self.waiters.entries[ptr].amount,
            self.polled(ptr, waker).waiters.queue == self.waiters.queue,
            self.polled(ptr, waker).waiters.stack == self.waiters.stack,
    {
    }

    /// Permits are not given back twice: dropping a future after a poll has returned its result
    /// changes nothing for the others, and wakes nobody. The guard alone holds the permits.
    pub proof fn law_ready_then_drop(
        self,
        ptr: WaiterPtr,
        waker: WakerParts,
        panicking: bool,
        thread: usize,
        i: int,
    )
        requires
            self.settled(),
            (AcquireFuture { waiter: ptr }).entering(self) || (AcquireFuture {
                waiter: ptr,
            }).waiting(self),
            waker.vtable != 0,
            (AcquireFuture { waiter: ptr }).poll_result(self, panicking) is Ready,
        ensures
            ({
                let polled = self.polled(ptr, waker);
                let after = polled.dropped(ptr, thread);
                let effects = polled.drop_effects(ptr, thread);
                &&& after.settled()
                &&& after.permits() == polled.permits()
                &&& after.waiters.pending() == polled.waiters.pending()
                &&& 0 <= i < effects.len() ==> effects[i] is Drop
            }),
    {
        let polled = self.polled(ptr, waker);
        if self.waiters.entries[ptr].step is Entering {
            self.law_first_poll(ptr, waker);
        } else {
            self.law_later_poll(ptr, waker);
        }
        polled.law_drop_ended(ptr, thread);
    }

    /// What becomes of a pending future when permits are released: it fails if there is poison, it
    /// gets a guard for what it asked for if it is among the first whose demands the permits last
    /// for, and it is still pending otherwise.
    pub proof fn law_release_poll(self, releasable: Permits, i: int, panicking: bool)
        requires
            self.settled(),
            0 <= i < self.waiters.pending().len(),
        ensures
            ({
                let ptr = self.waiters.pending()[i];
                let total = releasable.0 + self.permits().0;
                let result = (AcquireFuture { waiter: ptr }).poll_result(
                    self.released(releasable),
                    panicking,
                );
                &&& total > usize::MAX / 8 ==> result == Poll::Ready(
                    Err::<SemaphoreGuard, PoisonError>(PoisonError),
                )
                &&& total <= usize::MAX / 8 && self.waiters.demand(i + 1) <= total ==> result
                    == Poll::Ready(
                    Ok::<SemaphoreGuard, PoisonError>(
                        SemaphoreGuard {
                            semaphore: self.address,
                            amount: self.waiters.entries[ptr].amount,
                            panicking,
                        },
                    ),
                )
                &&& total <= usize::MAX / 8 && self.waiters.demand(i + 1) > total
                    ==> result is Pending
            }),
    {
        let w = self.waiters;
        let ptr = w.pending()[i];
        let total = releasable.plus(self.permits());
        let k = w.served_count(total);
        assert(w.pending() =~= w.queue);
        assert(w.pending().contains(ptr));
        assert(w.may_pend(ptr));
        self.law_release(releasable);
        w.law_served(total);
        if i < k {
            w.lemma_demand_grows(i + 1, k as int);
        } else {
            w.lemma_demand_grows(k + 1int, i + 1);
            let t = w.queue.take(k as int);
            if t.contains(ptr) {
                let j = choose|j: int| 0 <= j < t.len() && t[j] == ptr;
                assert(w.pending()[j] == ptr);
            }
        }
    }

    /// The task that polled last is the one that is woken: if a release serves a future that waits,
    /// the waker that its last poll was handed is among those that are woken.
    pub proof fn law_last_waker_woken(self, ptr: WaiterPtr, waker: WakerParts, releasable: Permits)
        requires
            self.settled(),
            (AcquireFuture { waiter: ptr }).entering(self) || (AcquireFuture {
                waiter: ptr,
            }).waiting(self),
            waker.vtable != 0,
            (AcquireFuture { waiter: ptr }).poll_result(self, false) is Pending,
        ensures
            ({
                let polled = self.polled(ptr, waker);
                let served = polled.released(releasable).waiters.entries[ptr].waker.state;
                let effects = polled.release_effects(releasable);
                &&& polled.waiters.entries[ptr].waker.data == waker.data
                &&& polled.waiters.entries[ptr].waker.vtable == waker.vtable
                &&& served is Finished ==> exists|i: int|
                    0 <= i < effects.len() && #[trigger] effects[i] == Effect::Wake(waker)
            }),
    {
        self.lemma_poll_stores(ptr, waker);
        self.polled(ptr, waker).lemma_served_woken(ptr, releasable);
    }

    /// A poll of a future that waits stores the waker.
    proof fn lemma_poll_stores(self, ptr: WaiterPtr, waker: WakerParts)
        requires
            self.settled(),
            (AcquireFuture { waiter: ptr }).entering(self) || (AcquireFuture {
                waiter: ptr,
            }).waiting(self),
            waker.vtable != 0,
            (AcquireFuture { waiter: ptr }).poll_result(self, false) is Pending,
        ensures
            ({
                let polled = self.polled(ptr, waker);
                &&& polled.settled()
                &&& polled.waiters.entries[ptr].waker.state is Pending
                &&& polled.waiters.entries[ptr].waker.parts() == waker
            }),
    {
        if self.waiters.entries[ptr].step is Entering {
            self.law_first_poll(ptr, waker);
        } else {
            self.law_later_poll(ptr, waker);
        }
    }

    /// A release wakes the stored waker of each waiter that it serves.
    proof fn lemma_served_woken(self, ptr: WaiterPtr, releasable: Permits)
        requires
            self.settled(),
            self.waiters.entries[ptr].waker.state is Pending,
        ensures
            self.released(releasable).waiters.entries[ptr].waker.state is Finished ==> exists|
                i: int,
            |
                0 <= i < self.release_effects(releasable).len() && #[trigger] self.release_effects(
                    releasable,
                )[i] == Effect::Wake(self.waiters.entries[ptr].waker.parts()),
    {
        let w = self.waiters;
        let total = releasable.plus(self.permits());
        let k = w.served_count(total);
        let t = w.queue.take(k as int);
        self.law_release(releasable);
        w.law_served(total);
        if self.released(releasable).waiters.entries[ptr].waker.state is Finished {
            assert(t.contains(ptr));
            let i = choose|i: int| 0 <= i < t.len() && t[i] == ptr;
            assert(self.release_effects(releasable)[i] == Effect::Wake(
                w.entries[t[i]].waker.parts(),
            ));
        }
    }
}

/// The sum of all values.
pub open spec fn sum_of(amounts: Map<WaiterPtr, int>) -> int
    decreases amounts.dom().len(),
{
    if amounts.dom().finite() && amounts.dom().len() > 0 {
        let ptr = amounts.dom().choose();
        sum_of(amounts.remove(ptr)) + amounts[ptr]
    } else {
        0
    }
}

/// A sum is what is left of it without one value, and that value.
proof fn lemma_sum_of_remove(amounts: Map<WaiterPtr, int>, ptr: WaiterPtr)
    requires
        amounts.dom().finite(),
        amounts.contains_key(ptr),
    ensures
        sum_of(amounts) == sum_of(amounts.remove(ptr)) + amounts[ptr],
    decreases amounts.dom().len(),
{
    let first = amounts.dom().choose();
    assert(amounts.dom().contains(ptr));
    assert(amounts.dom().len() > 0) by {
        if amounts.dom().len() == 0 {
            assert(amounts.dom() =~= Set::empty());
        }
    }
    if first != ptr {
        let a = amounts.remove(first);
        let b = amounts.remove(ptr);
        assert(a.dom().contains(ptr));
        assert(b.dom().contains(first));
        lemma_sum_of_remove(a, ptr);
        lemma_sum_of_remove(b, first);
        assert(a.remove(ptr) =~= b.remove(first));
    }
}

/// A sum in which one value is another one.
proof fn lemma_sum_of_update(
    before: Map<WaiterPtr, int>,
    after: Map<WaiterPtr, int>,
    ptr: WaiterPtr,
)
    requires
        before.dom().finite(),
        before.contains_key(ptr),
        after =~= before.insert(ptr, after[ptr]),
    ensures
        sum_of(after) - after[ptr] == sum_of(before) - before[ptr],
{
    assert(after.dom() =~= before.dom());
    lemma_sum_of_remove(before, ptr);
    lemma_sum_of_remove(after, ptr);
    assert(after.remove(ptr) =~= before.remove(ptr));
}

impl System {
    /// The permits that a waiter has got and no poll has returned yet.
    pub open spec fn due(self, ptr: WaiterPtr) -> int {
        let waiter = self.sem.waiters.entries[ptr];
        if waiter.step is Waiting && waiter.waker.state == (State::Finished { poisoned: false })
            && !(self.futures[ptr] is Removing) {
            waiter.amount as int
        } else {
            0
        }
    }

    pub open spec fn due_each(self) -> Map<WaiterPtr, int> {
        Map::new(|ptr: WaiterPtr| self.futures.contains_key(ptr), |ptr: WaiterPtr| self.due(ptr))
    }

    /// The permits that waiters have got and no poll has returned yet.
    pub open spec fn all_due(self) -> int {
        sum_of(self.due_each())
    }

    /// The permits of the guard that the poll of a future returns.
    pub open spec fn guard_of_poll(self, ptr: WaiterPtr) -> int {
        match (AcquireFuture { waiter: ptr }).poll_result(self.sem, false) {
            Poll::Ready(Ok(guard)) => guard.amount as int,
            _ => 0,
        }
    }

    /// The permits of the guard that the call of a step returns.
    pub open spec fn returned(self, step: Step) -> int {
        match step {
            Step::TryAcquire { amount } => if refusal(self.sem.acquire, amount) is None {
                amount as int
            } else {
                0
            },
            Step::Enter { ptr, .. } | Step::EndPoll { ptr } | Step::EndFinished { ptr } =>
                self.guard_of_poll(ptr),
            _ => 0,
        }
    }

    proof fn lemma_due_changed(self, next: System, ptr: WaiterPtr)
        requires
            self.futures_ok(),
            self.futures.contains_key(ptr),
            next.futures.dom() =~= self.futures.dom(),
            forall|x: WaiterPtr| #[trigger]
                self.futures.contains_key(x) && x != ptr ==> next.due(x) == self.due(x),
        ensures
            next.all_due() - next.due(ptr) == self.all_due() - self.due(ptr),
    {
        let m = self.due_each();
        let n = next.due_each();
        assert(m.dom() =~= self.futures.dom());
        assert(n =~= m.insert(ptr, n[ptr]));
        lemma_sum_of_update(m, n, ptr);
    }

    /// Each permit that is handed out gets into one guard: what a step hands out is what the guard
    /// holds that its call returns, and what waiters have got and no poll has returned.
    pub proof fn law_returned(self, step: Step)
        requires
            self.inv(),
            self.enabled(step),
        ensures
            self.next(step).granted - self.granted == self.returned(step) + self.next(
                step,
            ).all_due() - self.all_due(),
    {
        let w = self.sem.waiters;
        let n = self.next(step);
        self.law_step(step);
        match step {
            Step::Enter { ptr, .. }
            | Step::BeginPoll { ptr }
            | Step::StoreWaker { ptr, .. }
            | Step::EndPoll { ptr }
            | Step::EndFinished { ptr }
            | Step::StartCancel { ptr, .. }
            | Step::PushCancel { ptr } => {
                assert(w.fits_phase(ptr, self.futures[ptr]));
                self.lemma_due_changed(n, ptr);
            },
            Step::Acquire { ptr, .. } => {
                let k = n.due_each();
                assert(k.dom() =~= n.futures.dom());
                assert(k.remove(ptr) =~= self.due_each());
                lemma_sum_of_remove(k, ptr);
            },
            Step::CancelNext => {
                let ptr = w.taken[0];
                assert(w.taken.contains(ptr));
                w.lemma_taken(ptr);
                assert(w.fits_phase(ptr, self.futures[ptr]));
                self.lemma_due_changed(n, ptr);
            },
            Step::Pop => {
                let ptr = w.queue[0];
                assert(w.pending()[0] == ptr);
                assert(w.is_pending(ptr));
                assert(w.may_pend(ptr));
                assert(w.fits_phase(ptr, self.futures[ptr]));
                self.lemma_due_changed(n, ptr);
            },
            Step::Remove { ptr } => {
                let m = self.due_each();
                assert(w.fits_phase(ptr, self.futures[ptr]));
                assert(m.dom() =~= self.futures.dom());
                assert(n.due_each() =~= m.remove(ptr));
                lemma_sum_of_remove(m, ptr);
            },
            _ => {
                assert(n.due_each() =~= self.due_each());
            },
        }
    }

    /// The permits of all guards that the calls of a sequence of steps return.
    pub open spec fn all_returned(self, steps: Seq<Step>) -> int
        decreases steps.len(),
    {
        if steps.len() == 0 {
            0
        } else {
            self.all_returned(steps.drop_last()) + self.run(steps.drop_last()).returned(
                steps.last(),
            )
        }
    }

    /// From the beginning: the permits that there are, those of all guards that were returned, and
    /// those that polls have yet to return, are at most those that were put in. Unless there is
    /// poison, they are just those.
    pub proof fn law_all_returned(address: usize, initial: usize, steps: Seq<Step>)
        requires
            System::start(address, initial).can_run(steps),
        ensures
            ({
                let start = System::start(address, initial);
                let after = start.run(steps);
                let known = after.stock() + start.all_returned(steps) + after.all_due();
                &&& after.granted == start.all_returned(steps) + after.all_due()
                &&& known <= after.supply
                &&& !after.poisoned() ==> known == after.supply
            }),
        decreases steps.len(),
    {
        let start = System::start(address, initial);
        System::law_start(address, initial);
        start.law_run(steps);
        if steps.len() > 0 {
            System::law_all_returned(address, initial, steps.drop_last());
            start.law_run(steps.drop_last());
            start.run(steps.drop_last()).law_returned(steps.last());
        } else {
            assert(start.due_each().dom() =~= Set::empty());
        }
    }
}

} // verus!
