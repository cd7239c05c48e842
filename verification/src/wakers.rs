use crate::acquire::AcquireFuture;
use crate::model::{entry, SemaphoreView};
use crate::protocol::{Step, System};
use crate::state::{Permits, WaiterPtr};
use crate::waiters::{WaiterView, WaitersView};
use crate::waker::{given_up, lemma_given_up_sum, Effect, State, WakerParts};
use vstd::multiset::Multiset;
use vstd::prelude::*;

verus! {

/// The sum of all values.
pub open spec fn sum(held: Map<WaiterPtr, Multiset<WakerParts>>) -> Multiset<WakerParts>
    decreases held.dom().len(),
{
    if held.dom().finite() && held.dom().len() > 0 {
        let ptr = held.dom().choose();
        sum(held.remove(ptr)).add(held[ptr])
    } else {
        Multiset::empty()
    }
}

/// A sum is what is left of it without one value, and that value.
proof fn lemma_sum_remove(held: Map<WaiterPtr, Multiset<WakerParts>>, ptr: WaiterPtr)
    requires
        held.dom().finite(),
        held.contains_key(ptr),
    ensures
        sum(held) == sum(held.remove(ptr)).add(held[ptr]),
    decreases held.dom().len(),
{
    let first = held.dom().choose();
    assert(held.dom().contains(ptr));
    assert(held.dom().len() > 0) by {
        if held.dom().len() == 0 {
            assert(held.dom() =~= Set::empty());
        }
    }
    if first != ptr {
        let a = held.remove(first);
        let b = held.remove(ptr);
        assert(a.dom().contains(ptr));
        assert(b.dom().contains(first));
        lemma_sum_remove(a, ptr);
        lemma_sum_remove(b, first);
        assert(a.remove(ptr) =~= b.remove(first));
        assert(sum(held) =~= sum(b).add(held[ptr]));
    }
}

/// A sum in which one value is another one.
proof fn lemma_sum_update(
    before: Map<WaiterPtr, Multiset<WakerParts>>,
    after: Map<WaiterPtr, Multiset<WakerParts>>,
    ptr: WaiterPtr,
)
    requires
        before.dom().finite(),
        before.contains_key(ptr),
        after =~= before.insert(ptr, after[ptr]),
    ensures
        sum(after).add(before[ptr]) == sum(before).add(after[ptr]),
{
    assert(after.dom() =~= before.dom());
    lemma_sum_remove(before, ptr);
    lemma_sum_remove(after, ptr);
    assert(after.remove(ptr) =~= before.remove(ptr));
    assert(sum(after).add(before[ptr]) =~= sum(before).add(after[ptr]));
}

/// Where one of those who hold wakers is handed some and gives some up, all of them together are
/// handed these and give these up.
proof fn lemma_balance(
    before: Multiset<WakerParts>,
    after: Multiset<WakerParts>,
    old: Multiset<WakerParts>,
    new: Multiset<WakerParts>,
    handed: Multiset<WakerParts>,
    given: Multiset<WakerParts>,
)
    requires
        after.add(old) == before.add(new),
        old.add(handed) == new.add(given),
    ensures
        before.add(handed) == after.add(given),
{
    assert forall|waker: WakerParts| #[trigger]
        before.add(handed).count(waker) == after.add(given).count(waker) by {
        assert(after.add(old).count(waker) == after.count(waker) + old.count(waker));
        assert(before.add(new).count(waker) == before.count(waker) + new.count(waker));
        assert(old.add(handed).count(waker) == old.count(waker) + handed.count(waker));
        assert(new.add(given).count(waker) == new.count(waker) + given.count(waker));
    }
    assert(before.add(handed) =~= after.add(given));
}

/// Unparking threads gives up no wakers.
proof fn lemma_unparks(effects: Seq<Effect>)
    requires
        forall|i: int| 0 <= i < effects.len() ==> #[trigger] effects[i] is Unpark,
    ensures
        given_up(effects) == Multiset::<WakerParts>::empty(),
    decreases effects.len(),
{
    if effects.len() > 0 {
        assert(effects.last() == effects[effects.len() - 1]);
        lemma_unparks(effects.drop_last());
    }
}

impl WaitersView {
    /// The wakers that each waiter holds.
    pub open spec fn held_each(self) -> Map<WaiterPtr, Multiset<WakerParts>> {
        self.entries.map_values(|waiter: WaiterView| waiter.waker.held())
    }

    /// The wakers that the waiters hold, which are still to be woken or dropped.
    pub open spec fn held(self) -> Multiset<WakerParts> {
        sum(self.held_each())
    }

    /// No poll is in progress.
    pub open spec fn none_polled(self) -> bool {
        forall|ptr: WaiterPtr| #[trigger]
            self.entries.contains_key(ptr) ==> !(self.entries[ptr].waker.state is Storing)
    }

    /// The waiters can be counted, and none of them is being polled.
    pub open spec fn countable(self) -> bool {
        self.entries.dom().finite() && self.none_polled()
    }

    proof fn lemma_held_alike(self, other: WaitersView)
        requires
            self.entries.dom() == other.entries.dom(),
            forall|ptr: WaiterPtr| #[trigger]
                self.entries.contains_key(ptr) ==> self.entries[ptr].waker.held()
                    == other.entries[ptr].waker.held(),
        ensures
            self.held() == other.held(),
    {
        assert(self.held_each() =~= other.held_each());
    }

    /// The wakers that are held when one waiter holds another one.
    proof fn lemma_held_update(self, other: WaitersView, ptr: WaiterPtr)
        requires
            self.entries.dom().finite(),
            self.entries.contains_key(ptr),
            other.entries =~= self.entries.insert(ptr, other.entries[ptr]),
        ensures
            other.held().add(self.entries[ptr].waker.held()) == self.held().add(
                other.entries[ptr].waker.held(),
            ),
            other.entries.dom() == self.entries.dom(),
    {
        assert(other.entries.dom() =~= self.entries.dom());
        assert(self.held_each().dom() =~= self.entries.dom());
        assert(other.held_each() =~= self.held_each().insert(ptr, other.held_each()[ptr]));
        lemma_sum_update(self.held_each(), other.held_each(), ptr);
    }

    /// Serving wakes the wakers of those that are served.
    proof fn lemma_served_accounts(self, permits: Permits)
        requires
            self.ok(),
            self.countable(),
        ensures
            self.held() == self.served(permits).held().add(given_up(self.wakes(permits))),
            self.served(permits).countable(),
            self.served(permits).entries.dom() == self.entries.dom(),
        decreases self.queue.len(),
    {
        if self.servable(permits) {
            let ptr = self.queue[0];
            let poisoned = permits.poisoned();
            let rest = self.popped(poisoned);
            let left = self.after_first(permits);
            let waker = self.entries[ptr].waker;
            assert(self.pending()[0] == ptr);
            assert(self.pending().contains(ptr));
            assert(self.may_pend(ptr));
            self.lemma_popped(poisoned);
            self.lemma_held_update(rest, ptr);
            waker.law_finish_accounts(poisoned);
            rest.lemma_served_accounts(left);
            lemma_given_up_sum(waker.finish_effects(), rest.wakes(left));
            assert(self.wakes(permits) == waker.finish_effects() + rest.wakes(left));
            let given = given_up(waker.finish_effects());
            assert(waker.held().add(Multiset::empty()) =~= waker.held());
            lemma_balance(
                self.held(),
                rest.held(),
                waker.held(),
                waker.finished(poisoned).held(),
                Multiset::empty(),
                given,
            );
            assert(self.held() =~= self.held().add(Multiset::empty()));
            assert(self.held() =~= self.served(permits).held().add(given_up(self.wakes(permits))));
        } else {
            assert(self.held() =~= self.held().add(given_up(seq![])));
        }
    }
}

impl SemaphoreView {
    /// A release wakes or drops each waker that is not held afterwards, and those are all that it
    /// wakes or drops.
    pub proof fn law_release_wakers(self, releasable: Permits)
        requires
            self.ok(),
            self.waiters.countable(),
        ensures
            ({
                let after = self.released(releasable).waiters;
                &&& self.waiters.held() == after.held().add(
                    given_up(self.release_effects(releasable)),
                )
                &&& after.countable()
                &&& after.entries.dom() == self.waiters.entries.dom()
            }),
    {
        let w = self.waiters;
        if self.locked() {
            assert(w.held() =~= w.held().add(given_up(seq![])));
        } else {
            let permits = releasable.plus(self.release->Unlocked_0);
            self.lemma_round(permits);
            assert(self.release_effects(releasable) == self.round_effects(permits));
            assert(self.released(releasable).waiters == w.cleared().served(permits));
        }
    }

    /// What the owner of the lock does with its permits wakes those that it serves.
    proof fn lemma_round(self, permits: Permits)
        requires
            self.ok(),
            !self.locked(),
            self.waiters.countable(),
        ensures
            ({
                let after = self.waiters.cleared().served(permits);
                &&& self.waiters.held() == after.held().add(given_up(self.round_effects(permits)))
                &&& after.countable()
                &&& after.entries.dom() == self.waiters.entries.dom()
                &&& self.waiters.pending().len() == 0 ==> after == self.waiters
            }),
    {
        let w = self.waiters;
        let t = w.cancels_taken();
        let c = w.cleared();
        if w.pending().len() == 0 {
            w.lemma_nothing_to_clear();
        }
        self.lemma_cleared();
        c.lemma_served_accounts(permits);
        lemma_unparks(t.cancel_effects());
        lemma_given_up_sum(t.cancel_effects(), c.wakes(permits));
        assert(given_up(self.round_effects(permits)) =~= given_up(c.wakes(permits)));
    }

    /// Clearing keeps the waiters and their wakers.
    proof fn lemma_cleared(self)
        requires
            self.ok(),
            !self.locked(),
            self.waiters.countable(),
        ensures
            self.waiters.cleared().ok(),
            self.waiters.cleared().countable(),
            self.waiters.cleared().held() == self.waiters.held(),
            self.waiters.cleared().entries.dom() == self.waiters.entries.dom(),
    {
        let w = self.waiters;
        let c = w.cleared();
        assert(c.entries.dom() =~= w.entries.dom());
        w.lemma_held_alike(c);
        w.lemma_cancels_taken();
        w.cancels_taken().lemma_all_linked();
        w.cancels_taken().all_linked().lemma_all_cancelled_ok();
    }
}

impl WaitersView {
    /// Accepting cancellations one by one.
    pub proof fn lemma_all_cancelled_ok(self)
        requires
            self.ok(),
            self.stack.len() == 0,
        ensures
            self.all_cancelled().ok(),
        decreases self.taken.len(),
    {
        if self.taken.len() > 0 {
            assert(self.taken.contains(self.taken[0]));
            self.lemma_taken(self.taken[0]);
            assert(self.pending() =~= self.queue);
            self.lemma_next_cancelled();
            self.lemma_all_cancelled();
            self.next_cancelled().lemma_all_cancelled_ok();
        } else {
            self.lemma_none_cancelled();
        }
    }
}

impl SemaphoreView {
    /// The wakers that are held when one waiter changes, is handed wakers and gives some up.
    proof fn lemma_changed(
        self,
        after: SemaphoreView,
        ptr: WaiterPtr,
        handed: Multiset<WakerParts>,
        given: Multiset<WakerParts>,
    )
        requires
            self.waiters.entries.dom().finite(),
            self.waiters.entries.contains_key(ptr),
            after.waiters.entries =~= self.waiters.entries.insert(ptr, after.waiters.entries[ptr]),
            self.waiters.entries[ptr].waker.held().add(handed)
                == after.waiters.entries[ptr].waker.held().add(given),
        ensures
            self.waiters.held().add(handed) == after.waiters.held().add(given),
            after.waiters.entries.dom() == self.waiters.entries.dom(),
    {
        let w = self.waiters;
        let v = after.waiters;
        w.lemma_held_update(v, ptr);
        lemma_balance(
            w.held(),
            v.held(),
            w.entries[ptr].waker.held(),
            v.entries[ptr].waker.held(),
            handed,
            given,
        );
    }

    /// Removing a waiter drops the waker that it holds.
    pub proof fn law_remove_wakers(self, ptr: WaiterPtr)
        requires
            self.waiters.entries.dom().finite(),
            self.waiters.entries.contains_key(ptr),
            self.waiters.entries[ptr].waker.idle()
                || self.waiters.entries[ptr].waker.state is Cancelled,
        ensures
            self.waiters.held() == self.removed(ptr).waiters.held().add(
                given_up(self.waiters.entries[ptr].waker.leftover()),
            ),
    {
        let w = self.waiters;
        let v = self.removed(ptr).waiters;
        assert(w.held_each().dom() =~= w.entries.dom());
        assert(v.held_each() =~= w.held_each().remove(ptr));
        lemma_sum_remove(w.held_each(), ptr);
        w.entries[ptr].waker.law_cancel_accounts(0);
    }

    /// A future that has to wait holds its waker.
    proof fn lemma_enter_wakers(self, ptr: WaiterPtr, waker: WakerParts)
        requires
            self.ok(),
            self.waiters.countable(),
            (AcquireFuture { waiter: ptr }).entering(self),
            waker.vtable != 0,
        ensures
            ({
                let entered = self.registered(ptr, waker).entered(ptr, None);
                &&& entered.ok()
                &&& entered.waiters.countable()
                &&& self.waiters.held().add(Multiset::singleton(waker))
                    == entered.waiters.held().add(
                    given_up(self.waiters.entries[ptr].waker.poll_effects(waker)),
                )
            }),
    {
        let w = self.waiters;
        let registered = self.registered(ptr, waker);
        let entered = registered.entered(ptr, None);
        let held = w.entries[ptr].waker;
        w.lemma_idle(ptr);
        w.lemma_with_waker(ptr, held.polled(waker));
        assert(registered.waiters.pending() == w.pending());
        registered.waiters.lemma_pushed(ptr);
        held.law_poll_accounts(waker);
        self.lemma_changed(
            entered,
            ptr,
            Multiset::singleton(waker),
            given_up(held.poll_effects(waker)),
        );
    }

    /// A poll gives up all wakers that were held, and the one that is handed in, but for those that
    /// are held afterwards.
    pub proof fn law_poll_wakers(self, ptr: WaiterPtr, waker: WakerParts)
        requires
            self.ok(),
            self.waiters.countable(),
            (AcquireFuture { waiter: ptr }).entering(self) || (AcquireFuture {
                waiter: ptr,
            }).waiting(self),
            waker.vtable != 0,
        ensures
            self.waiters.held().add(Multiset::singleton(waker)) == self.polled(
                ptr,
                waker,
            ).waiters.held().add(given_up(self.poll_effects(ptr, waker))),
    {
        let w = self.waiters;
        let held = w.entries[ptr].waker;
        let handed = Multiset::singleton(waker);
        held.law_poll_accounts(waker);
        if w.entries[ptr].step is Entering {
            if entry(self.acquire, w.entries[ptr].amount) is None {
                let entered = self.registered(ptr, waker).entered(ptr, None);
                let stored = held.poll_effects(waker);
                let woken = entered.release_effects(self.available());
                self.lemma_enter_wakers(ptr, waker);
                entered.law_release_wakers(self.available());
                lemma_given_up_sum(stored, woken);
                let after = self.polled(ptr, waker).waiters;
                assert(after == entered.released(self.available()).waiters);
                assert(w.held().add(handed) =~= after.held().add(given_up(stored + woken)));
            } else {
                lemma_one_dropped(waker);
                self.lemma_changed(self.polled(ptr, waker), ptr, handed, handed);
            }
        } else {
            self.lemma_changed(
                self.polled(ptr, waker),
                ptr,
                handed,
                given_up(held.poll_effects(waker)),
            );
        }
    }

    /// Dropping a future wakes or drops each waker that is not held afterwards, and those are all
    /// that it wakes or drops.
    pub proof fn law_drop_wakers(self, ptr: WaiterPtr, thread: usize)
        requires
            self.ok(),
            self.waiters.countable(),
            (AcquireFuture { waiter: ptr }).droppable(self),
        ensures
            self.waiters.held() == self.dropped(ptr, thread).waiters.held().add(
                given_up(self.drop_effects(ptr, thread)),
            ),
    {
        let w = self.waiters;
        let waiter = w.entries[ptr];
        let started = self.cancel_started(ptr, thread);
        let none = Multiset::<WakerParts>::empty();
        w.lemma_idle(ptr);
        if !(waiter.step is Waiting) {
            self.law_remove_wakers(ptr);
        } else if waiter.waker.state == (State::Finished { poisoned: true }) {
            self.law_remove_wakers(ptr);
        } else {
            w.lemma_with_waker(ptr, waiter.waker.cancel_started(thread));
            waiter.waker.law_cancel_accounts(thread);
            self.lemma_changed(started, ptr, none, none);
            assert(w.held() =~= w.held().add(none));
            assert(started.waiters.held() =~= started.waiters.held().add(none));
            assert(started.waiters.pending() == w.pending());
            if waiter.waker.state is Finished {
                started.lemma_finished_removed(ptr, Permits(waiter.amount));
            } else {
                assert(w.may_pend(ptr));
                let pushed = started.cancel_pushed(ptr);
                started.waiters.lemma_cancel_pushed(ptr);
                assert(pushed.waiters.cancels[0] == ptr);
                assert(pushed.waiters.cancels.contains(ptr));
                pushed.law_release_wakers(Permits(0));
                started.waiters.lemma_held_alike(pushed.waiters);
                if !self.locked() {
                    let released = pushed.released(Permits(0));
                    pushed.lemma_release_cancels(Permits(0), ptr);
                    released.law_remove_wakers(ptr);
                    lemma_given_up_sum(
                        pushed.release_effects(Permits(0)),
                        waiter.waker.dropped(),
                    );
                    assert(released.waiters.entries[ptr].waker.leftover()
                        == waiter.waker.dropped());
                    assert(w.held() =~= self.dropped(ptr, thread).waiters.held().add(
                        given_up(self.drop_effects(ptr, thread)),
                    ));
                }
            }
        }
    }

    /// A release, and then the removal of a waiter that is finished.
    proof fn lemma_finished_removed(self, ptr: WaiterPtr, permits: Permits)
        requires
            self.ok(),
            self.waiters.countable(),
            self.waiters.entries.contains_key(ptr),
            self.waiters.entries[ptr].waker.state is Finished,
        ensures
            self.waiters.held() == self.released(permits).removed(ptr).waiters.held().add(
                given_up(self.release_effects(permits)),
            ),
    {
        let released = self.released(permits);
        self.waiters.lemma_idle(ptr);
        self.law_release_wakers(permits);
        self.lemma_release_others(permits, ptr);
        released.law_remove_wakers(ptr);
        assert(released.waiters.held() =~= released.removed(ptr).waiters.held());
    }
}

/// Dropping one waker gives up that one.
proof fn lemma_one_dropped(waker: WakerParts)
    ensures
        given_up(seq![Effect::Drop(waker)]) == Multiset::singleton(waker),
{
    reveal_with_fuel(given_up, 2);
    assert(seq![Effect::Drop(waker)].drop_last() =~= seq![]);
}

impl System {
    /// The wakers that a future holds. A poll that has announced to store a waker is answerable for
    /// the one that is stored, even if the waiter has been finished since.
    pub open spec fn held_by(self, ptr: WaiterPtr) -> Multiset<WakerParts> {
        let waker = self.sem.waiters.entries[ptr].waker;
        if self.futures[ptr] is Storing {
            if waker.vtable == 0 {
                Multiset::empty()
            } else {
                Multiset::singleton(waker.parts())
            }
        } else {
            waker.held()
        }
    }

    pub open spec fn held_each(self) -> Map<WaiterPtr, Multiset<WakerParts>> {
        Map::new(|ptr: WaiterPtr| self.futures.contains_key(ptr), |ptr: WaiterPtr| self.held_by(ptr))
    }

    /// The wakers that the futures hold, which are still to be woken or dropped.
    pub open spec fn held(self) -> Multiset<WakerParts> {
        sum(self.held_each())
    }

    /// The wakers that a step is handed.
    pub open spec fn handed_in(step: Step) -> Multiset<WakerParts> {
        match step {
            Step::Enter { waker, .. } | Step::StoreWaker { waker, .. } => Multiset::singleton(
                waker,
            ),
            _ => Multiset::empty(),
        }
    }

    /// The effects of a step. A poll ends with the waker that it has stored.
    pub open spec fn effects(self, step: Step) -> Seq<Effect> {
        let w = self.sem.waiters;
        match step {
            Step::Enter { ptr, waker, stored } => if stored {
                w.entries[ptr].waker.poll_effects(waker)
            } else {
                seq![Effect::Drop(waker)]
            },
            Step::CancelNext => seq![Effect::Unpark(w.entries[w.taken[0]].waker.thread->0)],
            Step::Pop => w.entries[w.queue[0]].waker.finish_effects(),
            Step::StoreWaker { ptr, .. } => w.entries[ptr].waker.dropped(),
            Step::EndPoll { ptr } => if w.entries[ptr].waker.state is Finished {
                seq![Effect::Drop(w.entries[ptr].waker.parts())]
            } else {
                seq![]
            },
            Step::Remove { ptr } => w.entries[ptr].waker.leftover(),
            _ => seq![],
        }
    }

    /// A step that changes what one future holds.
    proof fn lemma_one_changed(
        self,
        next: System,
        ptr: WaiterPtr,
        handed: Multiset<WakerParts>,
        given: Multiset<WakerParts>,
    )
        requires
            self.futures_ok(),
            next.futures_ok(),
            self.futures.contains_key(ptr),
            next.futures.dom() =~= self.futures.dom(),
            forall|x: WaiterPtr| #[trigger]
                self.futures.contains_key(x) && x != ptr ==> next.held_by(x) == self.held_by(x),
            self.held_by(ptr).add(handed) == next.held_by(ptr).add(given),
        ensures
            self.held().add(handed) == next.held().add(given),
    {
        let m = self.held_each();
        let n = next.held_each();
        assert(m.dom() =~= self.futures.dom());
        assert(n =~= m.insert(ptr, n[ptr]));
        lemma_sum_update(m, n, ptr);
        lemma_balance(sum(m), sum(n), m[ptr], n[ptr], handed, given);
    }

    /// A step that changes nothing of what futures hold.
    proof fn lemma_none_changed(self, next: System)
        requires
            next.futures.dom() =~= self.futures.dom(),
            forall|x: WaiterPtr| #[trigger]
                self.futures.contains_key(x) ==> next.held_by(x) == self.held_by(x),
        ensures
            self.held() == next.held(),
    {
        assert(next.held_each() =~= self.held_each());
    }

    /// In every interleaving, each waker that is handed in is woken or dropped exactly once: the
    /// wakers that are held, and the one that a step is handed, are those that are held after it
    /// and those that it wakes or drops.
    pub proof fn law_wakers(self, step: Step)
        requires
            self.inv(),
            self.enabled(step),
        ensures
            self.held().add(System::handed_in(step)) == self.next(step).held().add(
                given_up(self.effects(step)),
            ),
    {
        let w = self.sem.waiters;
        let n = self.next(step);
        let handed = System::handed_in(step);
        let given = given_up(self.effects(step));
        self.law_step(step);
        match step {
            Step::Enter { ptr, waker, .. } => {
                let held = w.entries[ptr].waker;
                assert(w.fits_phase(ptr, self.futures[ptr]));
                held.law_poll_accounts(waker);
                lemma_one_dropped(waker);
                self.lemma_one_changed(n, ptr, handed, given);
            },
            Step::Acquire { ptr, .. } => {
                let m = self.held_each();
                let k = n.held_each();
                assert(k.dom() =~= n.futures.dom());
                assert(k.remove(ptr) =~= m);
                lemma_sum_remove(k, ptr);
                assert(self.held().add(handed) =~= n.held().add(given));
            },
            Step::CancelNext => {
                let ptr = w.taken[0];
                assert(w.taken.contains(ptr));
                w.lemma_taken(ptr);
                assert(w.fits_phase(ptr, self.futures[ptr]));
                lemma_unparks(self.effects(step));
                self.lemma_one_changed(n, ptr, handed, given);
            },
            Step::Pop => {
                let ptr = w.queue[0];
                assert(w.pending()[0] == ptr);
                assert(w.is_pending(ptr));
                assert(w.may_pend(ptr));
                assert(w.fits_phase(ptr, self.futures[ptr]));
                let held = w.entries[ptr].waker;
                if !(held.state is Storing) {
                    held.law_finish_accounts(self.carried().poisoned());
                    assert(held.held().add(handed) =~= held.held());
                }
                self.lemma_one_changed(n, ptr, handed, given);
            },
            Step::StoreWaker { ptr, waker } => {
                lemma_one_dropped(w.entries[ptr].waker.parts());
                assert(self.held_by(ptr).add(handed) =~= n.held_by(ptr).add(given));
                self.lemma_one_changed(n, ptr, handed, given);
            },
            Step::EndPoll { ptr } => {
                assert(w.fits_phase(ptr, self.futures[ptr]));
                lemma_one_dropped(w.entries[ptr].waker.parts());
                assert(self.held_by(ptr).add(handed) =~= n.held_by(ptr).add(given));
                self.lemma_one_changed(n, ptr, handed, given);
            },
            Step::BeginPoll { ptr }
            | Step::EndFinished { ptr }
            | Step::StartCancel { ptr, .. }
            | Step::PushCancel { ptr } => {
                assert(w.fits_phase(ptr, self.futures[ptr]));
                self.lemma_one_changed(n, ptr, handed, given);
            },
            Step::Remove { ptr } => {
                let m = self.held_each();
                assert(w.fits_phase(ptr, self.futures[ptr]));
                assert(m.dom() =~= self.futures.dom());
                assert(n.held_each() =~= m.remove(ptr));
                lemma_sum_remove(m, ptr);
                w.entries[ptr].waker.law_cancel_accounts(0);
                assert(self.held().add(handed) =~= n.held().add(given));
            },
            _ => {
                self.lemma_none_changed(n);
            },
        }
    }

    /// The wakers that a sequence of steps is handed.
    pub open spec fn all_handed_in(steps: Seq<Step>) -> Multiset<WakerParts>
        decreases steps.len(),
    {
        if steps.len() == 0 {
            Multiset::empty()
        } else {
            System::all_handed_in(steps.drop_last()).add(System::handed_in(steps.last()))
        }
    }

    /// The effects of a sequence of steps.
    pub open spec fn all_effects(self, steps: Seq<Step>) -> Seq<Effect>
        decreases steps.len(),
    {
        if steps.len() == 0 {
            seq![]
        } else {
            self.all_effects(steps.drop_last()) + self.run(steps.drop_last()).effects(steps.last())
        }
    }

    /// From the beginning, the wakers that were ever handed in are those that are still held, and
    /// those that were woken or dropped. When the last future is gone, all of them were.
    pub proof fn law_all_wakers(address: usize, initial: usize, steps: Seq<Step>)
        requires
            System::start(address, initial).can_run(steps),
        ensures
            ({
                let start = System::start(address, initial);
                let given = given_up(start.all_effects(steps));
                &&& System::all_handed_in(steps) == start.run(steps).held().add(given)
                &&& start.run(steps).futures.dom().len() == 0 ==> System::all_handed_in(steps)
                    == given
            }),
        decreases steps.len(),
    {
        let start = System::start(address, initial);
        let given = given_up(start.all_effects(steps));
        System::law_start(address, initial);
        start.law_run(steps);
        if steps.len() > 0 {
            let before = start.run(steps.drop_last());
            start.law_run(steps.drop_last());
            System::law_all_wakers(address, initial, steps.drop_last());
            before.law_wakers(steps.last());
            lemma_given_up_sum(
                start.all_effects(steps.drop_last()),
                before.effects(steps.last()),
            );
            let a = System::all_handed_in(steps.drop_last());
            let b = System::handed_in(steps.last());
            let e = given_up(start.all_effects(steps.drop_last()));
            let f = given_up(before.effects(steps.last()));
            let h = before.held();
            let k = start.run(steps).held();
            assert forall|waker: WakerParts| #[trigger]
                a.add(b).count(waker) == k.add(e.add(f)).count(waker) by {
                assert(h.add(b).count(waker) == h.count(waker) + b.count(waker));
                assert(k.add(f).count(waker) == k.count(waker) + f.count(waker));
                assert(h.add(e).count(waker) == h.count(waker) + e.count(waker));
            }
            assert(a.add(b) =~= k.add(e.add(f)));
        } else {
            assert(start.held_each().dom() =~= Set::empty());
            assert(start.held().add(given) =~= Multiset::empty());
        }
        let last = start.run(steps);
        if last.futures.dom().len() == 0 {
            assert(last.held_each().dom() =~= last.futures.dom());
            assert(last.held().add(given) =~= given);
        }
    }
}

} // verus!
