use crate::acquire::AcquireFuture;
use crate::atomic::Packable;
use crate::errors::{PoisonError, TryAcquireError};
use crate::guard::{given_back, SemaphoreGuard, SemaphoreGuardArc};
use crate::model::{entry, refusal, SemaphoreView};
use crate::semaphore::Semaphore;
use crate::state::{AcquireState, AcquireStep, Permits, ReleaseState, WaiterPtr, MAX_AVAILABLE};
use crate::table::Waiter;
use crate::text::{address_text, digits, DebugPtr};
use crate::waiters::{at, WaitersView};
use crate::waker::{next_seq, seqs, Effect, Poll, State, WakerParts, WakerView};
use vstd::arithmetic::div_mod::{lemma_mod_bound, lemma_mod_self_0, lemma_small_mod};
use vstd::prelude::*;

verus! {

impl Permits {
    /// Permits are numbers: poison is what is above an eighth of the largest number, sums are sums
    /// as long as they fit, and differences are differences.
    pub proof fn law_numbers(self, other: Permits, amount: usize)
        ensures
            MAX_AVAILABLE == usize::MAX / 8,
            Semaphore::MAX_AVAILABLE == usize::MAX / 8,
            self.poisoned() <==> self.0 > usize::MAX / 8,
            self.0 <= usize::MAX / 8 ==> self.count() == Some(self.0 as nat) && self.norm() == self,
            self.0 > usize::MAX / 8 ==> self.count() is None && self.norm().0 == usize::MAX,
            self.0 + other.0 <= usize::MAX ==> self.plus(other).0 == self.0 + other.0,
            self.0 + other.0 > usize::MAX ==> self.plus(other).0 == usize::MAX,
            amount <= self.0 <= usize::MAX / 8 ==> self.less(amount).0 + amount == self.0,
            self.0 > usize::MAX / 8 ==> self.less(amount) == self,
    {
    }
}

/// Storing a state and loading it keeps the number of permits, and that there is poison.
pub proof fn law_release_state_kept(permits: Permits)
    ensures
        ReleaseState::Locked.canon() == ReleaseState::Locked,
        permits.0 <= usize::MAX / 8 ==> {
            &&& ReleaseState::Unlocked(permits).canon() == ReleaseState::Unlocked(permits)
            &&& ReleaseState::LockedDirty(permits).canon() == ReleaseState::LockedDirty(permits)
        },
        permits.0 > usize::MAX / 8 ==> {
            &&& ReleaseState::Unlocked(permits).canon() == ReleaseState::Unlocked(
                Permits(usize::MAX),
            )
            &&& ReleaseState::LockedDirty(permits).canon() == ReleaseState::LockedDirty(
                Permits(usize::MAX),
            )
        },
        ReleaseState::Unlocked(permits).fits(),
        ReleaseState::LockedDirty(permits).fits(),
        ReleaseState::Locked.fits(),
{
}

/// Storing a state and loading it keeps the waiter, the number of permits, and that there is
/// poison.
pub proof fn law_acquire_state_kept(permits: Permits, back: WaiterPtr)
    ensures
        AcquireState::Queued(back).canon() == AcquireState::Queued(back),
        AcquireState::Queued(back).fits() <==> back.0 % 2 == 0,
        AcquireState::Available(permits).fits(),
        permits.0 <= usize::MAX / 8 ==> AcquireState::Available(permits).canon()
            == AcquireState::Available(permits),
        permits.0 > usize::MAX / 8 ==> AcquireState::Available(permits).canon()
            == AcquireState::Available(Permits(usize::MAX)),
        back.canon() == back && back.fits(),
        back.aligned() <==> back.0 % 2 == 0,
{
}

/// Storing a state and loading it keeps it, as long as its sequence number is not too large.
pub proof fn law_waker_state_kept(seq: usize, poisoned: bool, word: usize)
    ensures
        seq <= usize::MAX / 8 ==> {
            &&& (State::Pending { seq }).canon() == (State::Pending { seq })
            &&& (State::Storing { seq }).canon() == (State::Storing { seq })
        },
        (State::Finished { poisoned }).canon() == (State::Finished { poisoned }),
        State::Cancelling.canon() == State::Cancelling,
        State::Cancelled.canon() == State::Cancelled,
        (State::Pending { seq }).canon() is Pending,
        (State::Storing { seq }).canon() is Storing,
        word.canon() == word && word.fits() && word.word() == word,
        (State::Pending { seq }).fits() && (State::Storing { seq }).fits(),
        (State::Finished { poisoned }).fits() && State::Cancelling.fits() && State::Cancelled.fits(),
{
    if seq <= usize::MAX / 8 {
        lemma_small_mod(seq as nat, seqs() as nat);
    }
}

/// The words of the states: the lowest bits tell which state it is, the others hold its number.
pub proof fn law_words(permits: Permits, back: WaiterPtr, seq: usize)
    ensures
        ReleaseState::Locked.word() == 0,
        permits.0 <= usize::MAX / 8 ==> {
            &&& ReleaseState::Unlocked(permits).word() == 8 * permits.0 + 2
            &&& ReleaseState::LockedDirty(permits).word() == 8 * permits.0 + 4
            &&& AcquireState::Available(permits).word() == 2 * permits.0 + 1
        },
        permits.0 > usize::MAX / 8 ==> {
            &&& ReleaseState::Unlocked(permits).word() == 1
            &&& ReleaseState::LockedDirty(permits).word() == 3
            &&& AcquireState::Available(permits).word() == usize::MAX
        },
        AcquireState::Queued(back).word() == back.0,
        back.word() == back.0,
        seq <= usize::MAX / 8 ==> {
            &&& (State::Pending { seq }).word() == 8 * seq
            &&& (State::Storing { seq }).word() == 8 * seq + 1
        },
        (State::Finished { poisoned: false }).word() == 2,
        (State::Finished { poisoned: true }).word() == 3,
        State::Cancelling.word() == 4,
        State::Cancelled.word() == 5,
{
    if seq <= usize::MAX / 8 {
        lemma_small_mod(seq as nat, seqs() as nat);
    }
}

/// What a word holds, whatever its other bits are: the lowest bits tell which state it is.
pub proof fn law_unpacked(word: usize, n: usize)
    ensures
        ReleaseState::unpacks(word) <==> word % 8 <= 4,
        State::unpacks(word) <==> word % 8 <= 5,
        AcquireState::unpacks(word) && WaiterPtr::unpacks(word) && usize::unpacks(word),
        word == 8 * n ==> ReleaseState::of_word(word) is Locked && State::of_word(word) == (
        State::Pending { seq: n }),
        word == 8 * n + 1 ==> ReleaseState::of_word(word) == ReleaseState::Unlocked(
            Permits(usize::MAX),
        ) && State::of_word(word) == (State::Storing { seq: n }),
        word == 8 * n + 2 ==> ReleaseState::of_word(word) == ReleaseState::Unlocked(Permits(n))
            && State::of_word(word) == (State::Finished { poisoned: false }),
        word == 8 * n + 3 ==> ReleaseState::of_word(word) == ReleaseState::LockedDirty(
            Permits(usize::MAX),
        ) && State::of_word(word) == (State::Finished { poisoned: true }),
        word == 8 * n + 4 ==> ReleaseState::of_word(word) == ReleaseState::LockedDirty(Permits(n))
            && State::of_word(word) is Cancelling,
        word == 8 * n + 5 ==> State::of_word(word) is Cancelled,
        word == 2 * n ==> AcquireState::of_word(word) == AcquireState::Queued(WaiterPtr(word)),
        word == 2 * n + 1 && word < usize::MAX ==> AcquireState::of_word(word)
            == AcquireState::Available(Permits(n)),
        word == usize::MAX ==> AcquireState::of_word(word) == AcquireState::Available(
            Permits(usize::MAX),
        ),
        WaiterPtr::of_word(word) == WaiterPtr(word),
        usize::of_word(word) == word,
{
}

impl WakerView {
    /// A poll of a pending future stores the waker that it is handed, however many were stored
    /// before, and gives up just the one that was stored. A poll of any other changes nothing and
    /// gives up the waker that it is handed.
    pub proof fn law_latest_waker(self, waker: WakerParts)
        ensures
            self.state is Pending ==> {
                let after = self.polled(waker);
                &&& after.data == waker.data && after.vtable == waker.vtable
                &&& after.state is Pending
                &&& after.thread == self.thread
                &&& self.vtable == 0 ==> self.poll_effects(waker).len() == 0
                &&& self.vtable != 0 ==> self.poll_effects(waker) == seq![
                    Effect::Drop(WakerParts { data: self.data, vtable: self.vtable }),
                ]
            },
            !(self.state is Pending) ==> self.polled(waker) == self && self.poll_effects(waker)
                == seq![Effect::Drop(waker)],
    {
    }

    /// Each stored waker is counted, until the count starts over.
    pub proof fn law_counted(self, waker: WakerParts, seq: usize)
        requires
            self.state == (State::Pending { seq }),
        ensures
            seq < usize::MAX / 8 ==> self.polled(waker).state == (State::Pending {
                seq: (seq + 1) as usize,
            }),
            seq < usize::MAX / 8 ==> next_seq(seq) == seq + 1,
            next_seq(usize::MAX / 8) == 0,
    {
        if seq < usize::MAX / 8 {
            lemma_small_mod(
                (seq + 1) as nat,
                seqs() as nat,
            );
        }
        lemma_mod_self_0(seqs());
    }

    /// The waker that a poll stored last is the one that finishing wakes, and finishing tells
    /// whether there is poison.
    pub proof fn law_poll_then_finish(self, waker: WakerParts, poisoned: bool)
        requires
            self.state is Pending,
        ensures
            self.polled(waker).finish_effects() == seq![Effect::Wake(waker)],
            self.polled(waker).finished(poisoned).state == (State::Finished { poisoned }),
    {
    }

    /// Finishing wakes the stored waker if no poll is in progress. It changes nothing but the
    /// state, and nothing at all if the future is being cancelled.
    pub proof fn law_finish(self, poisoned: bool)
        ensures
            self.state is Cancelling ==> self.finished(poisoned) == self
                && self.finish_effects().len() == 0,
            !(self.state is Cancelling) ==> {
                let after = self.finished(poisoned);
                &&& after.state == (State::Finished { poisoned })
                &&& after.data == self.data && after.vtable == self.vtable && after.thread
                    == self.thread
            },
            self.state is Pending ==> self.finish_effects() == seq![
                Effect::Wake(WakerParts { data: self.data, vtable: self.vtable }),
            ],
            self.state is Storing ==> self.finish_effects().len() == 0,
    {
    }

    /// Starting a cancellation leaves the thread that is to be unparked, and the cancellation wins
    /// unless the future is finished. Accepting it takes the thread.
    pub proof fn law_cancel(self, thread: usize)
        ensures
            ({
                let started = self.cancel_started(thread);
                let accepted = self.cancel_accepted();
                &&& started.thread == Some(thread)
                &&& started.data == self.data && started.vtable == self.vtable
                &&& self.state is Pending ==> started.state is Cancelling
                &&& !(self.state is Pending) ==> started.state == self.state
                &&& accepted.state is Cancelled && accepted.thread is None
                &&& accepted.data == self.data && accepted.vtable == self.vtable
            }),
    {
    }

    /// Dropping gives up the waker that is stored, unless finishing has used it up.
    pub proof fn law_drop(self)
        ensures
            self.state is Finished ==> self.leftover().len() == 0,
            self.vtable == 0 ==> self.leftover().len() == 0 && self.dropped().len() == 0,
            self.vtable != 0 ==> self.dropped() == seq![
                Effect::Drop(WakerParts { data: self.data, vtable: self.vtable }),
            ],
            self.vtable != 0 && (self.state is Pending || self.state is Cancelled)
                ==> self.leftover() == seq![
                Effect::Drop(WakerParts { data: self.data, vtable: self.vtable }),
            ],
            self.state is Storing || self.state is Cancelling ==> self.leftover().len() == 0,
    {
    }

    /// What is stored and what the state is are two things.
    pub proof fn law_parts(self, waker: WakerParts, state: State)
        ensures
            ({
                let stored = self.with_parts(waker);
                let moved = self.with_state(state);
                &&& self.parts().data == self.data && self.parts().vtable == self.vtable
                &&& stored.data == waker.data && stored.vtable == waker.vtable
                &&& stored.state == self.state && stored.thread == self.thread
                &&& moved.state == state
                &&& moved.data == self.data && moved.vtable == self.vtable && moved.thread
                    == self.thread
            }),
            self.idle() <==> self.state is Pending || self.state is Finished,
            self.unfinished() <==> self.state is Pending && self.vtable != 0
                || self.state is Storing || self.state is Cancelling && self.thread is Some,
    {
    }
}

impl WaitersView {
    /// The waiters that are pending, the linked ones first.
    pub proof fn law_pending(self, i: int)
        ensures
            self.pending().len() == self.queue.len() + self.stack.len(),
            0 <= i < self.queue.len() ==> self.pending()[i] == self.queue[i],
            0 <= i < self.stack.len() ==> self.pending()[self.queue.len() + i] == self.stack[i],
            at(self.queue, i) == if 0 <= i < self.queue.len() {
                self.queue[i]
            } else {
                WaiterPtr(0)
            },
    {
    }

    /// A new waiter asks for the permits that it was made for, has not been polled and has no waker.
    /// Nothing else changes.
    pub proof fn law_inserted(self, ptr: WaiterPtr, semaphore: usize, amount: usize, other: WaiterPtr)
        ensures
            ({
                let after = self.inserted(ptr, semaphore, amount);
                let waiter = after.entries[ptr];
                &&& after.entries.dom() == self.entries.dom().insert(ptr)
                &&& waiter.amount == amount
                &&& waiter.semaphore == semaphore
                &&& waiter.step is Entering
                &&& waiter.waker.state == (State::Pending { seq: 0 })
                &&& waiter.waker.vtable == 0 && waiter.waker.data == 0
                &&& waiter.waker.thread is None
                &&& other != ptr ==> after.entries[other] == self.entries[other]
                &&& after.queue == self.queue && after.stack == self.stack
                &&& after.cancels == self.cancels && after.taken == self.taken
            }),
    {
        assert(self.inserted(ptr, semaphore, amount).entries.dom() =~= self.entries.dom().insert(
            ptr,
        ));
    }

    /// A waiter that is removed is gone, and nothing else changes.
    pub proof fn law_removed(self, ptr: WaiterPtr, other: WaiterPtr)
        ensures
            ({
                let after = self.removed(ptr);
                &&& after.entries.dom() == self.entries.dom().remove(ptr)
                &&& other != ptr && self.entries.contains_key(other) ==> after.entries[other]
                    == self.entries[other]
                &&& after.queue == self.queue && after.stack == self.stack
                &&& after.cancels == self.cancels && after.taken == self.taken
            }),
    {
        assert(self.removed(ptr).entries.dom() =~= self.entries.dom().remove(ptr));
    }

    /// What a waiter asks for, whose it is, and what is not named, stays when its waker or its step
    /// changes.
    pub proof fn law_changed(
        self,
        ptr: WaiterPtr,
        waker: WakerView,
        step: AcquireStep,
        other: WaiterPtr,
    )
        ensures
            ({
                let woken = self.with_waker(ptr, waker);
                let moved = self.with_step(ptr, step);
                &&& woken.entries[ptr].waker == waker
                &&& woken.entries[ptr].step == self.entries[ptr].step
                &&& moved.entries[ptr].step == step
                &&& moved.entries[ptr].waker == self.entries[ptr].waker
                &&& woken.entries[ptr].amount == self.entries[ptr].amount
                &&& moved.entries[ptr].amount == self.entries[ptr].amount
                &&& woken.entries[ptr].semaphore == self.entries[ptr].semaphore
                &&& moved.entries[ptr].semaphore == self.entries[ptr].semaphore
                &&& other != ptr ==> woken.entries[other] == self.entries[other]
                    && moved.entries[other] == self.entries[other]
                &&& woken.queue == self.queue && woken.stack == self.stack
                &&& woken.cancels == self.cancels && woken.taken == self.taken
                &&& moved.queue == self.queue && moved.stack == self.stack
                &&& moved.cancels == self.cancels && moved.taken == self.taken
            }),
    {
    }

    /// A waiter that becomes pending comes after all others, and keeps what it asks for and its
    /// waker. Nothing else changes.
    pub proof fn law_pushed(self, ptr: WaiterPtr, other: WaiterPtr)
        ensures
            ({
                let after = self.pushed(ptr);
                &&& after.queue == self.queue
                &&& after.stack == self.stack.push(ptr)
                &&& after.entries[ptr].step is Waiting
                &&& after.entries[ptr].amount == self.entries[ptr].amount
                &&& after.entries[ptr].semaphore == self.entries[ptr].semaphore
                &&& after.entries[ptr].waker == self.entries[ptr].waker
                &&& other != ptr ==> after.entries[other] == self.entries[other]
                &&& after.cancels == self.cancels && after.taken == self.taken
            }),
    {
    }

    /// Linking and handing over cancellations moves waiters between the lists, keeps their order,
    /// and changes no waiter.
    pub proof fn law_moved(self, ptr: WaiterPtr)
        ensures
            ({
                let linked = self.all_linked();
                let taken = self.cancels_taken();
                let pushed = self.cancel_pushed(ptr);
                &&& linked.queue == self.queue + self.stack
                &&& linked.stack.len() == 0
                &&& linked.cancels == self.cancels && linked.taken == self.taken
                &&& linked.entries == self.entries
                &&& taken.taken == self.cancels
                &&& taken.cancels.len() == 0
                &&& taken.queue == self.queue && taken.stack == self.stack
                &&& taken.entries == self.entries
                &&& pushed.cancels == seq![ptr] + self.cancels
                &&& pushed.taken == self.taken
                &&& pushed.queue == self.queue && pushed.stack == self.stack
                &&& pushed.entries == self.entries
            }),
    {
    }

    /// Accepting the cancellations that were taken removes just their waiters from the queue,
    /// keeping the order of the others, marks just these as cancelled, and unparks their threads in
    /// that order.
    pub proof fn law_all_cancelled(self, ptr: WaiterPtr, i: int)
        requires
            self.entries.contains_key(ptr),
        ensures
            ({
                let after = self.all_cancelled();
                &&& after.queue == self.queue.filter(|x: WaiterPtr| !self.taken.contains(x))
                &&& after.taken.len() == 0
                &&& after.stack == self.stack && after.cancels == self.cancels
                &&& after.entries.dom() == self.entries.dom()
                &&& !self.taken.contains(ptr) ==> after.entries[ptr] == self.entries[ptr]
                &&& self.taken.contains(ptr) ==> {
                    &&& after.entries[ptr].waker.state is Cancelled
                    &&& after.entries[ptr].waker.thread is None
                    &&& after.entries[ptr].waker.data == self.entries[ptr].waker.data
                    &&& after.entries[ptr].waker.vtable == self.entries[ptr].waker.vtable
                    &&& after.entries[ptr].amount == self.entries[ptr].amount
                    &&& after.entries[ptr].step == self.entries[ptr].step
                    &&& after.entries[ptr].semaphore == self.entries[ptr].semaphore
                }
                &&& self.cancel_effects().len() == self.taken.len()
                &&& 0 <= i < self.taken.len() ==> self.cancel_effects()[i] == Effect::Unpark(
                    self.entries[self.taken[i]].waker.thread->0,
                )
            }),
    {
        assert(self.all_cancelled().entries.dom() =~= self.entries.dom());
        assert(self.all_cancelled().queue == self.queue.filter(
            |x: WaiterPtr| !self.taken.contains(x),
        ));
    }

    /// Accepting the first cancellation that was taken.
    pub proof fn law_next_cancelled(self, other: WaiterPtr)
        requires
            self.taken.len() > 0,
        ensures
            ({
                let ptr = self.taken[0];
                let after = self.next_cancelled();
                &&& after.queue == self.queue.filter(|x: WaiterPtr| !seq![ptr].contains(x))
                &&& after.taken == self.taken.skip(1)
                &&& after.stack == self.stack && after.cancels == self.cancels
                &&& after.entries[ptr].waker.state is Cancelled
                &&& after.entries[ptr].waker.thread is None
                &&& after.entries[ptr].waker.data == self.entries[ptr].waker.data
                &&& after.entries[ptr].waker.vtable == self.entries[ptr].waker.vtable
                &&& after.entries[ptr].amount == self.entries[ptr].amount
                &&& after.entries[ptr].step == self.entries[ptr].step
                &&& after.entries[ptr].semaphore == self.entries[ptr].semaphore
                &&& other != ptr ==> after.entries[other] == self.entries[other]
            }),
    {
        assert(self.next_cancelled().queue == self.queue.filter(
            |x: WaiterPtr| !seq![self.taken[0]].contains(x),
        ));
    }

    /// The first waiter leaves the queue when it is finished, and is told whether there is poison.
    /// What it asked for stays, and so does all else.
    pub proof fn law_popped(self, poisoned: bool, other: WaiterPtr)
        requires
            self.queue.len() > 0,
            !(self.entries[self.queue[0]].waker.state is Cancelling),
        ensures
            ({
                let ptr = self.queue[0];
                let after = self.popped(poisoned);
                &&& after.queue == self.queue.skip(1)
                &&& after.stack == self.stack
                &&& after.cancels == self.cancels && after.taken == self.taken
                &&& after.entries[ptr].waker.state == (State::Finished { poisoned })
                &&& after.entries[ptr].waker.data == self.entries[ptr].waker.data
                &&& after.entries[ptr].waker.vtable == self.entries[ptr].waker.vtable
                &&& after.entries[ptr].waker.thread == self.entries[ptr].waker.thread
                &&& after.entries[ptr].amount == self.entries[ptr].amount
                &&& after.entries[ptr].step == self.entries[ptr].step
                &&& after.entries[ptr].semaphore == self.entries[ptr].semaphore
                &&& other != ptr ==> after.entries[other] == self.entries[other]
            }),
    {
    }

    /// Whether the first waiter can be served: it is there, is not being cancelled, and asks for no
    /// more than there is, or there is poison.
    pub proof fn law_servable(self, permits: Permits)
        ensures
            self.servable(permits) <==> self.queue.len() > 0 && !(
            self.entries[self.queue[0]].waker.state is Cancelling) && (permits.0 > usize::MAX / 8
                || self.entries[self.queue[0]].amount <= permits.0),
    {
    }

    /// Serving one waiter after the other: each takes what it asked for, and poison is not used up.
    /// It stops at the first one that cannot be served.
    pub proof fn law_serve_next(self, permits: Permits)
        ensures
            !self.servable(permits) ==> {
                &&& self.served(permits) == self
                &&& self.permits_left(permits) == permits
                &&& self.wakes(permits).len() == 0
            },
            self.servable(permits) ==> {
                let first = self.entries[self.queue[0]];
                let poisoned = permits.0 > usize::MAX / 8;
                let left = if poisoned {
                    permits
                } else {
                    Permits((permits.0 - first.amount) as usize)
                };
                let rest = self.popped(poisoned);
                &&& self.served(permits) == rest.served(left)
                &&& self.permits_left(permits) == rest.permits_left(left)
                &&& first.waker.state is Storing ==> self.wakes(permits) == rest.wakes(left)
                &&& first.waker.state is Pending ==> self.wakes(permits) == seq![
                    Effect::Wake(
                        WakerParts { data: first.waker.data, vtable: first.waker.vtable },
                    ),
                ] + rest.wakes(left)
            },
    {
        if self.servable(permits) && self.entries[self.queue[0]].waker.state is Storing {
            let rest = self.popped(permits.poisoned()).wakes(self.after_first(permits));
            assert(Seq::<Effect>::empty() + rest =~= rest);
        }
    }
}

/// An attempt to acquire is refused if others are pending, if there is poison, or if there are fewer
/// permits. An acquire fails if there is poison, gets its permits if there are enough, and waits
/// otherwise.
pub proof fn law_outcomes(permits: Permits, back: WaiterPtr, amount: usize)
    ensures
        refusal(AcquireState::Queued(back), amount) == Some(TryAcquireError::WouldBlock),
        entry(AcquireState::Queued(back), amount) is None,
        permits.0 > usize::MAX / 8 ==> {
            &&& refusal(AcquireState::Available(permits), amount) == Some(TryAcquireError::Poisoned)
            &&& entry(AcquireState::Available(permits), amount) == Some(
                Err::<(), PoisonError>(PoisonError),
            )
        },
        permits.0 <= usize::MAX / 8 && amount <= permits.0 ==> {
            &&& refusal(AcquireState::Available(permits), amount) is None
            &&& entry(AcquireState::Available(permits), amount) == Some(Ok::<(), PoisonError>(()))
        },
        permits.0 <= usize::MAX / 8 && amount > permits.0 ==> {
            &&& refusal(AcquireState::Available(permits), amount) == Some(
                TryAcquireError::WouldBlock,
            )
            &&& entry(AcquireState::Available(permits), amount) is None
        },
{
}

impl SemaphoreView {
    /// A new semaphore holds the permits that it was made with, and nobody waits.
    pub proof fn law_fresh(address: usize, initial: usize)
        ensures
            ({
                let sem = SemaphoreView::fresh(address, initial);
                &&& sem.address == address
                &&& initial <= usize::MAX / 8 ==> sem.acquire == AcquireState::Available(
                    Permits(initial),
                )
                &&& initial > usize::MAX / 8 ==> sem.acquire == AcquireState::Available(
                    Permits(usize::MAX),
                )
                &&& sem.release == ReleaseState::Unlocked(Permits(0))
                &&& sem.waiters.queue.len() == 0 && sem.waiters.stack.len() == 0
                &&& sem.waiters.cancels.len() == 0 && sem.waiters.taken.len() == 0
                &&& sem.waiters.entries.dom() == Set::<WaiterPtr>::empty()
            }),
    {
        assert(SemaphoreView::fresh(address, initial).waiters.entries.dom() =~= Set::empty());
    }

    /// Permits that are taken at once are gone, and nothing else changes.
    pub proof fn law_taken(self, permits: Permits, amount: usize)
        requires
            self.acquire == AcquireState::Available(permits),
            amount <= permits.0 <= usize::MAX / 8,
        ensures
            ({
                let after = self.taken_at_once(amount);
                &&& after.acquire == AcquireState::Available(Permits((permits.0 - amount) as usize))
                &&& after.release == self.release
                &&& after.waiters == self.waiters
                &&& after.address == self.address
            }),
    {
    }

    /// What parts of a semaphore are.
    pub proof fn law_fields(self, permits: Permits, back: WaiterPtr, waiters: WaitersView)
        ensures
            self.acquire == AcquireState::Available(permits) ==> self.available() == permits,
            self.acquire == AcquireState::Queued(back) ==> self.available() == Permits(0),
            self.locked() <==> self.release is Locked || self.release is LockedDirty,
            ({
                let after = self.with_waiters(waiters);
                &&& after.waiters == waiters
                &&& after.acquire == self.acquire && after.release == self.release
                    && after.address == self.address
            }),
    {
    }

    /// A release that finds the lock free takes it, with the permits that were kept in it. One that
    /// does not leaves all its permits, added to those that others left. Nothing else changes.
    pub proof fn law_lock(self, releasable: Permits, kept: Permits)
        ensures
            ({
                let after = self.lock_tried(releasable);
                &&& after.acquire == self.acquire && after.waiters == self.waiters
                    && after.address == self.address
                &&& self.release is Unlocked ==> after.release is Locked
                &&& self.release is Locked && releasable.0 <= usize::MAX / 8 ==> after.release
                    == ReleaseState::LockedDirty(releasable)
                &&& self.release is Locked && releasable.0 > usize::MAX / 8 ==> after.release
                    == ReleaseState::LockedDirty(Permits(usize::MAX))
                &&& self.release == ReleaseState::LockedDirty(kept) ==> {
                    &&& kept.0 + releasable.0 <= usize::MAX / 8 ==> after.release
                        == ReleaseState::LockedDirty(Permits((kept.0 + releasable.0) as usize))
                    &&& kept.0 + releasable.0 > usize::MAX / 8 ==> after.release
                        == ReleaseState::LockedDirty(Permits(usize::MAX))
                }
            }),
    {
    }

    /// Giving the lock back keeps the permits in it, unless others have left some: then the lock is
    /// kept. Nothing else changes.
    pub proof fn law_unlock(self, releasable: Permits)
        ensures
            ({
                let after = self.unlock_tried(releasable);
                &&& after.acquire == self.acquire && after.waiters == self.waiters
                    && after.address == self.address
                &&& self.release is LockedDirty ==> after.release is Locked
                &&& !(self.release is LockedDirty) && releasable.0 <= usize::MAX / 8
                    ==> after.release == ReleaseState::Unlocked(releasable)
                &&& !(self.release is LockedDirty) && releasable.0 > usize::MAX / 8
                    ==> after.release == ReleaseState::Unlocked(Permits(usize::MAX))
            }),
    {
    }

    /// If nobody is pending, a flip makes all permits available. Otherwise it keeps them, and links
    /// the pending waiters in the order of their arrival.
    pub proof fn law_flip(self, releasable: Permits)
        ensures
            ({
                let after = self.flipped(releasable);
                let left = self.flip_left(releasable);
                let found = match self.acquire {
                    AcquireState::Available(available) => available.0,
                    AcquireState::Queued(_) => 0,
                };
                &&& after.release == self.release && after.address == self.address
                &&& self.waiters.queue.len() + self.waiters.stack.len() == 0 ==> {
                    &&& after.waiters == self.waiters
                    &&& left == Permits(0)
                    &&& found + releasable.0 <= usize::MAX / 8 ==> after.acquire
                        == AcquireState::Available(Permits((found + releasable.0) as usize))
                    &&& found + releasable.0 > usize::MAX / 8 ==> after.acquire
                        == AcquireState::Available(Permits(usize::MAX))
                }
                &&& self.waiters.queue.len() + self.waiters.stack.len() > 0 ==> {
                    &&& after.acquire == AcquireState::Queued(WaiterPtr(0))
                    &&& after.waiters.queue == self.waiters.queue + self.waiters.stack
                    &&& after.waiters.stack.len() == 0
                    &&& after.waiters.entries == self.waiters.entries
                    &&& after.waiters.cancels == self.waiters.cancels
                    &&& after.waiters.taken == self.waiters.taken
                    &&& left == releasable
                }
            }),
    {
    }

    /// A round of the owner of the lock is what its steps are, one after the other: it takes the
    /// cancellations, flips, accepts them, serves, and flips again if nobody is left.
    pub proof fn law_round(self, releasable: Permits)
        requires
            self.ok(),
            self.waiters.taken.len() == 0,
        ensures
            ({
                let taken = self.with_waiters(self.waiters.cancels_taken());
                let flipped = taken.flipped(releasable);
                let left = taken.flip_left(releasable);
                let accepted = flipped.with_waiters(flipped.waiters.all_cancelled());
                let served = accepted.with_waiters(accepted.waiters.served(left));
                let rest = accepted.waiters.permits_left(left);
                &&& served.waiters.queue.len() > 0 ==> self.rounded(releasable) == served
                    && self.round_left(releasable) == rest
                &&& served.waiters.queue.len() == 0 ==> self.rounded(releasable) == served.flipped(
                    rest,
                ) && self.round_left(releasable) == served.flip_left(rest)
                &&& self.round_effects(releasable) == flipped.waiters.cancel_effects()
                    + accepted.waiters.wakes(left)
            }),
    {
        let w = self.waiters;
        let taken = self.with_waiters(w.cancels_taken());
        assert(taken.waiters.pending() == w.pending());
        if w.pending().len() == 0 {
            w.lemma_nothing_to_clear();
            w.lemma_none_cancelled();
            let flipped = taken.flipped(releasable);
            assert(flipped.waiters == w);
            assert(w.served(Permits(0)) == w);
            let accepted = flipped.with_waiters(flipped.waiters.all_cancelled());
            assert(accepted == flipped);
            assert(self.round_effects(releasable) =~= flipped.waiters.cancel_effects()
                + accepted.waiters.wakes(Permits(0)));
        } else {
            let flipped = taken.flipped(releasable);
            assert(flipped.waiters.all_cancelled() == w.cleared());
            w.lemma_cleared_ok();
            w.cleared().lemma_served(releasable);
        }
    }

    /// A release takes the lock, does rounds until nothing is left to it, and gives the lock back.
    /// While another one holds the lock, it leaves its permits to that one and does nothing else.
    pub proof fn law_release_is_rounds(self, releasable: Permits, kept: Permits)
        ensures
            self.locked() ==> {
                &&& self.released(releasable) == self.lock_tried(releasable)
                &&& self.release_left(releasable) == releasable
                &&& self.release_effects(releasable).len() == 0
            },
            self.release == ReleaseState::Unlocked(kept) ==> {
                let locked = self.lock_tried(releasable);
                let total = releasable.plus(kept);
                &&& self.released(releasable) == locked.drained(total)
                &&& self.release_left(releasable) == locked.drain_left(total)
                &&& self.release_effects(releasable) == locked.drain_effects(total)
            },
            self.release is Locked ==> {
                let left = self.round_left(releasable);
                &&& self.drained(releasable) == self.rounded(releasable).unlock_tried(left)
                &&& self.drain_left(releasable) == left
                &&& self.drain_effects(releasable) == self.round_effects(releasable)
            },
            self.release == ReleaseState::LockedDirty(kept) ==> {
                let left = self.round_left(releasable);
                let again = self.rounded(releasable).unlock_tried(left);
                let more = left.plus(kept);
                let last = again.round_left(more);
                &&& self.drained(releasable) == again.rounded(more).unlock_tried(last)
                &&& self.drain_left(releasable) == last
                &&& self.drain_effects(releasable) == self.round_effects(releasable)
                    + again.round_effects(more)
            },
    {
    }

    /// A waker is stored for a waiter as a poll of that waiter stores it.
    pub proof fn law_registered(self, ptr: WaiterPtr, waker: WakerParts, state: State, other: WaiterPtr)
        ensures
            ({
                let after = self.registered(ptr, waker);
                let moved = self.with_state(ptr, state);
                let old = self.waiters.entries[ptr];
                let new = after.waiters.entries[ptr];
                &&& old.waker.state is Pending ==> new.waker.data == waker.data
                    && new.waker.vtable == waker.vtable && new.waker.state is Pending
                &&& new.amount == old.amount && new.step == old.step && new.semaphore
                    == old.semaphore
                &&& new.waker.thread == old.waker.thread
                &&& !(old.waker.state is Pending) ==> new.waker == old.waker
                &&& moved.waiters.entries[ptr].waker.thread == old.waker.thread
                &&& moved.waiters.entries[ptr].semaphore == old.semaphore
                &&& after.waiters.cancels == self.waiters.cancels && after.waiters.taken
                    == self.waiters.taken
                &&& moved.waiters.cancels == self.waiters.cancels && moved.waiters.taken
                    == self.waiters.taken
                &&& moved.waiters.entries[ptr].waker.state == state
                &&& moved.waiters.entries[ptr].waker.data == old.waker.data
                &&& moved.waiters.entries[ptr].waker.vtable == old.waker.vtable
                &&& moved.waiters.entries[ptr].amount == old.amount
                &&& moved.waiters.entries[ptr].step == old.step
                &&& other != ptr ==> after.waiters.entries[other] == self.waiters.entries[other]
                    && moved.waiters.entries[other] == self.waiters.entries[other]
                &&& after.acquire == self.acquire && after.release == self.release
                    && after.address == self.address
                &&& moved.acquire == self.acquire && moved.release == self.release
                    && moved.address == self.address
                &&& after.waiters.queue == self.waiters.queue && after.waiters.stack
                    == self.waiters.stack
                &&& moved.waiters.queue == self.waiters.queue && moved.waiters.stack
                    == self.waiters.stack
            }),
    {
    }

    /// A future that gets its result at once has ended, with its permits taken if it succeeds. One
    /// that waits comes last, and will ask for what it asked for.
    pub proof fn law_entered(self, ptr: WaiterPtr, permits: Permits, other: WaiterPtr)
        ensures
            ({
                let failed = self.entered(ptr, Some(Err(PoisonError)));
                let waits = self.entered(ptr, None);
                &&& failed.waiters.entries[ptr].step is Done
                &&& failed.waiters.entries[ptr].amount == self.waiters.entries[ptr].amount
                &&& failed.waiters.entries[ptr].waker == self.waiters.entries[ptr].waker
                &&& failed.acquire == self.acquire && failed.release == self.release
                    && failed.address == self.address
                &&& failed.waiters.queue == self.waiters.queue && failed.waiters.stack
                    == self.waiters.stack
                &&& waits.waiters.entries[ptr].step is Waiting
                &&& waits.acquire == AcquireState::Queued(ptr)
                &&& waits.release == self.release && waits.address == self.address
                &&& waits.waiters.queue == self.waiters.queue && waits.waiters.stack
                    == self.waiters.stack.push(ptr)
                &&& waits.waiters.entries[ptr].amount == self.waiters.entries[ptr].amount
                &&& waits.waiters.entries[ptr].waker == self.waiters.entries[ptr].waker
                &&& waits.waiters.entries[ptr].semaphore == self.waiters.entries[ptr].semaphore
                &&& waits.waiters.cancels == self.waiters.cancels && waits.waiters.taken
                    == self.waiters.taken
                &&& failed.waiters.cancels == self.waiters.cancels && failed.waiters.taken
                    == self.waiters.taken
                &&& other != ptr ==> failed.waiters.entries[other] == self.waiters.entries[other]
                    && waits.waiters.entries[other] == self.waiters.entries[other]
            }),
            self.acquire == AcquireState::Available(permits) && self.waiters.entries[ptr].amount
                <= permits.0 <= usize::MAX / 8 ==> {
                let gets = self.entered(ptr, Some(Ok(())));
                &&& gets.waiters.entries[ptr].step is Done
                &&& gets.waiters.entries[ptr].amount == self.waiters.entries[ptr].amount
                &&& gets.waiters.entries[ptr].waker == self.waiters.entries[ptr].waker
                &&& gets.acquire == AcquireState::Available(
                    Permits((permits.0 - self.waiters.entries[ptr].amount) as usize),
                )
                &&& gets.release == self.release && gets.address == self.address
                &&& gets.waiters.queue == self.waiters.queue && gets.waiters.stack
                    == self.waiters.stack
                &&& gets.waiters.cancels == self.waiters.cancels && gets.waiters.taken
                    == self.waiters.taken
                &&& other != ptr ==> gets.waiters.entries[other] == self.waiters.entries[other]
            },
    {
    }

    /// A first poll that waits stores its waker, comes last, and then releases what it found
    /// available. One that does not wait gives up the waker that it is handed.
    pub proof fn law_first_poll_is(self, ptr: WaiterPtr, waker: WakerParts, permits: Permits)
        requires
            self.waiters.entries[ptr].step is Entering,
        ensures
            ({
                let amount = self.waiters.entries[ptr].amount;
                let after = self.polled(ptr, waker);
                let effects = self.poll_effects(ptr, waker);
                let waits = self.registered(ptr, waker).entered(ptr, None);
                let stored = self.waiters.entries[ptr].waker.poll_effects(waker);
                &&& self.acquire is Queued ==> {
                    &&& after == waits.released(Permits(0))
                    &&& effects == stored + waits.release_effects(Permits(0))
                }
                &&& self.acquire == AcquireState::Available(permits) ==> {
                    &&& permits.0 > usize::MAX / 8 ==> after == self.entered(
                        ptr,
                        Some(Err(PoisonError)),
                    ) && effects == seq![Effect::Drop(waker)]
                    &&& amount <= permits.0 <= usize::MAX / 8 ==> after == self.entered(
                        ptr,
                        Some(Ok(())),
                    ) && effects == seq![Effect::Drop(waker)]
                    &&& permits.0 <= usize::MAX / 8 && amount > permits.0 ==> after
                        == waits.released(permits) && effects == stored + waits.release_effects(
                        permits,
                    )
                }
            }),
    {
    }

    /// A later poll stores the waker that it is handed and gives up the one that was stored, or ends
    /// the future and gives up the one that it is handed. Nothing else changes.
    pub proof fn law_later_poll_is(self, ptr: WaiterPtr, waker: WakerParts, other: WaiterPtr)
        requires
            self.waiters.entries[ptr].step is Waiting,
            self.waiters.entries[ptr].waker.state is Pending
                || self.waiters.entries[ptr].waker.state is Finished,
        ensures
            ({
                let old = self.waiters.entries[ptr];
                let after = self.polled(ptr, waker);
                let new = after.waiters.entries[ptr];
                let effects = self.poll_effects(ptr, waker);
                &&& old.waker.state is Pending ==> {
                    &&& new.waker.data == waker.data && new.waker.vtable == waker.vtable
                    &&& new.waker.state is Pending
                    &&& new.waker.thread == old.waker.thread
                    &&& new.step is Waiting
                    &&& old.waker.vtable != 0 ==> effects == seq![
                        Effect::Drop(
                            WakerParts { data: old.waker.data, vtable: old.waker.vtable },
                        ),
                    ]
                }
                &&& old.waker.state is Finished ==> {
                    &&& new.waker == old.waker
                    &&& new.step is Done
                    &&& effects == seq![Effect::Drop(waker)]
                }
                &&& new.amount == old.amount && new.semaphore == old.semaphore
                &&& other != ptr ==> after.waiters.entries[other] == self.waiters.entries[other]
                &&& after.acquire == self.acquire && after.release == self.release
                    && after.address == self.address
                &&& after.waiters.queue == self.waiters.queue && after.waiters.stack
                    == self.waiters.stack
                &&& after.waiters.cancels == self.waiters.cancels && after.waiters.taken
                    == self.waiters.taken
            }),
    {
    }

    /// Dropping a future that waits cancels it and releases nothing, in order that the cancellation
    /// is accepted. If it was finished with permits, these are released. Otherwise it is just
    /// removed. Where the lock is held, the owner has to accept the cancellation first.
    pub proof fn law_drop_is(self, ptr: WaiterPtr, thread: usize)
        ensures
            ({
                let waiter = self.waiters.entries[ptr];
                let started = self.cancel_started(ptr, thread);
                let after = self.dropped(ptr, thread);
                let effects = self.drop_effects(ptr, thread);
                &&& !(waiter.step is Waiting) ==> after == self.removed(ptr) && effects
                    == waiter.waker.leftover()
                &&& waiter.step is Waiting && waiter.waker.state == (State::Finished {
                    poisoned: true,
                }) ==> after == self.removed(ptr) && effects.len() == 0
                &&& waiter.step is Waiting && waiter.waker.state == (State::Finished {
                    poisoned: false,
                }) ==> after == started.released(Permits(waiter.amount)).removed(ptr) && effects
                    == started.release_effects(Permits(waiter.amount))
                &&& waiter.step is Waiting && waiter.waker.state is Pending ==> {
                    let offered = started.cancel_pushed(ptr);
                    &&& self.release is Unlocked ==> after == offered.released(Permits(0)).removed(
                        ptr,
                    ) && effects == offered.release_effects(Permits(0)) + waiter.waker.dropped()
                    &&& !(self.release is Unlocked) ==> after == offered.released(Permits(0))
                        && effects.len() == 0
                }
            }),
    {
    }

    /// Starting a cancellation, offering it and removing a waiter touch that waiter only.
    pub proof fn law_drop_steps(self, ptr: WaiterPtr, thread: usize, other: WaiterPtr)
        ensures
            ({
                let old = self.waiters.entries[ptr];
                let started = self.cancel_started(ptr, thread);
                let offered = self.cancel_pushed(ptr);
                let removed = self.removed(ptr);
                let new = started.waiters.entries[ptr];
                &&& old.waker.state is Pending ==> new.waker.state is Cancelling
                &&& !(old.waker.state is Pending) ==> new.waker.state == old.waker.state
                &&& new.waker.thread == Some(thread)
                &&& new.waker.data == old.waker.data && new.waker.vtable == old.waker.vtable
                &&& new.amount == old.amount && new.step == old.step && new.semaphore
                    == old.semaphore
                &&& other != ptr ==> started.waiters.entries[other] == self.waiters.entries[other]
                &&& started.waiters.queue == self.waiters.queue && started.waiters.stack
                    == self.waiters.stack && started.waiters.cancels == self.waiters.cancels
                    && started.waiters.taken == self.waiters.taken
                &&& offered.waiters.cancels == seq![ptr] + self.waiters.cancels
                &&& offered.waiters.entries == self.waiters.entries
                &&& offered.waiters.queue == self.waiters.queue && offered.waiters.stack
                    == self.waiters.stack && offered.waiters.taken == self.waiters.taken
                &&& removed.waiters.entries == self.waiters.entries.remove(ptr)
                &&& removed.waiters.queue == self.waiters.queue && removed.waiters.stack
                    == self.waiters.stack && removed.waiters.cancels == self.waiters.cancels
                    && removed.waiters.taken == self.waiters.taken
                &&& started.acquire == self.acquire && started.release == self.release
                    && started.address == self.address
                &&& offered.acquire == self.acquire && offered.release == self.release
                    && offered.address == self.address
                &&& removed.acquire == self.acquire && removed.release == self.release
                    && removed.address == self.address
            }),
    {
    }
}

impl WaitersView {
    /// Clearing leaves the waiters fit together.
    proof fn lemma_cleared_ok(self)
        requires
            self.ok(),
            self.taken.len() == 0,
        ensures
            self.cleared().ok(),
    {
        self.lemma_cancels_taken();
        self.cancels_taken().lemma_all_linked();
        self.cancels_taken().all_linked().lemma_all_cancelled_ok();
    }
}

impl AcquireFuture {
    /// When a future may be polled for the first time, polled again, and dropped.
    pub proof fn law_admitted(self, sem: SemaphoreView)
        ensures
            ({
                let waiter = sem.waiters.entries[self.waiter];
                &&& self.of(sem) <==> sem.waiters.entries.contains_key(self.waiter)
                &&& self.entering(sem) <==> self.of(sem) && waiter.step is Entering
                    && waiter.waker.state is Pending
                &&& self.waiting(sem) <==> self.of(sem) && waiter.step is Waiting && (
                waiter.waker.state is Pending || waiter.waker.state is Finished)
                &&& self.droppable(sem) <==> self.of(sem) && (waiter.waker.state is Pending
                    || waiter.waker.state is Finished) && (waiter.step is Waiting
                    && waiter.waker.state is Pending ==> sem.waiters.pending().contains(
                    self.waiter,
                ))
                &&& self.amount(sem) == waiter.amount
                &&& self.step(sem) == waiter.step
                &&& self.state(sem) == waiter.waker.state
            }),
    {
    }

    /// What a poll returns. A guard that it returns is one of this semaphore, for just the permits
    /// that the waiter asks for.
    pub proof fn law_poll_returns(self, sem: SemaphoreView, panicking: bool, permits: Permits)
        ensures
            ({
                let waiter = sem.waiters.entries[self.waiter];
                let result = self.poll_result(sem, panicking);
                let success = Poll::Ready(
                    Ok::<SemaphoreGuard, PoisonError>(
                        SemaphoreGuard {
                            semaphore: sem.address,
                            amount: waiter.amount,
                            panicking,
                        },
                    ),
                );
                let failure = Poll::Ready(Err::<SemaphoreGuard, PoisonError>(PoisonError));
                &&& waiter.step is Waiting ==> {
                    &&& waiter.waker.state == (State::Finished { poisoned: true }) ==> result
                        == failure
                    &&& waiter.waker.state == (State::Finished { poisoned: false }) ==> result
                        == success
                    &&& waiter.waker.state is Pending ==> result is Pending
                }
                &&& waiter.step is Entering ==> {
                    &&& sem.acquire is Queued ==> result is Pending
                    &&& sem.acquire == AcquireState::Available(permits) ==> {
                        &&& permits.0 > usize::MAX / 8 ==> result == failure
                        &&& waiter.amount <= permits.0 <= usize::MAX / 8 ==> result == success
                        &&& permits.0 <= usize::MAX / 8 && waiter.amount > permits.0
                            ==> result is Pending
                    }
                }
                &&& self.ready(sem, Ok(()), panicking) == success->Ready_0
                &&& self.ready(sem, Err(PoisonError), panicking) == failure->Ready_0
            }),
    {
    }

    /// Whatever a poll returns as a guard holds the permits that the waiter asked for.
    pub proof fn law_guard_amount(self, sem: SemaphoreView, panicking: bool)
        ensures
            self.poll_result(sem, panicking) matches Poll::Ready(Ok(guard)) ==> guard.amount
                == sem.waiters.entries[self.waiter].amount && guard.semaphore == sem.address
                && guard.panicking == panicking,
    {
    }
}

/// Dropping a guard gives back just what it holds, or poison if the thread is unwinding.
pub proof fn law_gives_back(amount: usize, panicking: bool)
    ensures
        panicking ==> given_back(amount, panicking).0 == usize::MAX,
        !panicking ==> given_back(amount, panicking).0 == amount,
{
}

impl SemaphoreGuard {
    /// Extending adds up the permits, as far as there are numbers, and splitting divides them. The
    /// parts are guards of the same semaphore.
    pub proof fn law_parts(self, other: SemaphoreGuard, amount: usize, panicking: bool)
        ensures
            ({
                let whole = self.extended(other);
                let left = self.split_left(amount);
                let part = self.split_off(amount, panicking);
                &&& self.amount + other.amount <= usize::MAX ==> whole.amount == self.amount
                    + other.amount
                &&& self.amount + other.amount > usize::MAX ==> whole.amount == usize::MAX
                &&& whole.semaphore == self.semaphore && whole.panicking == self.panicking
                &&& amount <= self.amount ==> left.amount + part.amount == self.amount
                &&& part.amount == amount && part.panicking == panicking
                &&& left.semaphore == self.semaphore && part.semaphore == self.semaphore
                &&& left.panicking == self.panicking
            }),
    {
    }
}

impl SemaphoreGuardArc {
    /// Extending adds up the permits, as far as there are numbers, and splitting divides them. The
    /// parts are guards of the same semaphore.
    pub proof fn law_parts(self, other: SemaphoreGuardArc, amount: usize, panicking: bool)
        ensures
            ({
                let whole = self.extended(other);
                let left = self.split_left(amount);
                let part = self.split_off(amount, panicking);
                &&& self.amount + other.amount <= usize::MAX ==> whole.amount == self.amount
                    + other.amount
                &&& self.amount + other.amount > usize::MAX ==> whole.amount == usize::MAX
                &&& whole.semaphore == self.semaphore && whole.panicking == self.panicking
                &&& amount <= self.amount ==> left.amount + part.amount == self.amount
                &&& part.amount == amount && part.panicking == panicking
                &&& left.semaphore == self.semaphore && part.semaphore == self.semaphore
                &&& left.panicking == self.panicking
            }),
    {
    }
}

/// A number is written with its last digit behind the digits of the rest. Digits above nine are
/// small letters.
pub proof fn law_digits(n: nat, radix: nat)
    requires
        2 <= radix <= 16,
    ensures
        n < radix ==> digits(n, radix).len() == 1,
        n < radix && n < 10 ==> digits(n, radix)[0] as int == 48 + n,
        n < radix && n >= 10 ==> digits(n, radix)[0] as int == 87 + n,
        n >= radix ==> digits(n, radix) == digits(n / radix, radix) + digits(n % radix, radix),
{
    reveal_strlit("0123456789abcdef");
    lemma_mod_bound(n as int, radix as int);
    if n < radix {
        lemma_small_mod(n, radix);
    } else {
        lemma_small_mod(n % radix, radix);
    }
}

/// The texts of permits and of the states of a semaphore.
pub proof fn law_texts(permits: Permits, sem: SemaphoreView, address: usize)
    ensures
        permits.0 <= usize::MAX / 8 ==> permits.text() == digits(permits.0 as nat, 10),
        permits.0 > usize::MAX / 8 ==> permits.text() == "poison"@,
        ReleaseState::Unlocked(permits).text() == "Unlocked("@ + permits.text() + ")"@,
        ReleaseState::Locked.text() == "Locked"@,
        ReleaseState::LockedDirty(permits).text() == "LockedDirty("@ + permits.text() + ")"@,
        AcquireStep::Entering.text() == "Entering"@,
        AcquireStep::Waiting.text() == "Waiting"@,
        AcquireStep::Done.text() == "Done"@,
        sem.acquire == AcquireState::Available(permits) ==> sem.text() == "Semaphore::Ready("@
            + permits.text() + ")"@,
        sem.acquire is Queued && sem.release == ReleaseState::Unlocked(permits) ==> sem.text()
            == "Semaphore::Blocked("@ + permits.text() + ")"@,
        sem.acquire is Queued && !(sem.release is Unlocked) ==> sem.text()
            == "Semaphore::Unknown"@,
        address_text(address) == "0x"@ + digits(address as nat, 16),
{
}

/// The texts of waiters and of their wakers.
pub proof fn law_waiter_texts(
    seq: usize,
    waker: WakerView,
    waiter: Waiter,
    ptr: WaiterPtr,
    waiters: Map<WaiterPtr, Waiter>,
    permits: Permits,
)
    ensures
        (State::Pending { seq }).text() == "Pending { seq: "@ + digits(seq as nat, 10) + " }"@,
        (State::Storing { seq }).text() == "Storing { seq: "@ + digits(seq as nat, 10) + " }"@,
        (State::Finished { poisoned: false }).text() == "Finished { poisoned: false }"@,
        (State::Finished { poisoned: true }).text() == "Finished { poisoned: true }"@,
        State::Cancelling.text() == "Cancelling"@,
        State::Cancelled.text() == "Cancelled"@,
        waker.thread is None ==> waker.text() == "AW { s: "@ + waker.state.text() + ", d: "@
            + address_text(waker.data) + ", t: "@ + address_text(waker.vtable) + ", t: "@ + "None"@
            + " }"@,
        waker.thread is Some ==> waker.text() == "AW { s: "@ + waker.state.text() + ", d: "@
            + address_text(waker.data) + ", t: "@ + address_text(waker.vtable) + ", t: "@ + (
        "Some("@ + digits(waker.thread->0 as nat, 10) + ")"@) + " }"@,
        waiter.text() == "W { a: "@ + digits(waiter.amount as nat, 10) + ", s: "@
            + waiter.step.text() + ", w: "@ + waiter.waker@.text() + ", n: "@ + address_text(
            waiter.next.0,
        ) + ", p: "@ + address_text(waiter.prev.0) + ", nc: "@ + address_text(
            waiter.next_cancel.0,
        ) + " }"@,
        DebugPtr(WaiterPtr(0)).text(waiters) == "null"@,
        ptr.0 != 0 ==> DebugPtr(ptr).text(waiters) == address_text(ptr.0) + " "@
            + waiters[ptr].text(),
        AcquireState::Queued(ptr).text(waiters) == "Queued("@ + DebugPtr(ptr).text(waiters) + ")"@,
        AcquireState::Available(permits).text(waiters) == "Available("@ + permits.text() + ")"@,
{
}

} // verus!
