use crate::acquire::AcquireFuture;
use crate::errors::{PoisonError, TryAcquireError};
use crate::model::{entry, refusal, SemaphoreView};
use crate::state::{AcquireState, AcquireStep, Permits, ReleaseState, WaiterPtr};
use crate::waiters::{lemma_without_contains, lemma_without_one, without, WaitersView};
use crate::waker::{next_seq, seqs, State, WakerParts};
use vstd::arithmetic::div_mod::lemma_mod_bound;
use vstd::prelude::*;

verus! {

/// What the release that owns the lock does next.
pub enum OwnerPhase {
    TakeCancels,
    Flip,
    Cancel,
    Pop,
    /// The queue is empty: makes what is left available.
    Close,
    Unlock,
}

/// The release that owns the lock.
pub struct Owner {
    pub releasable: Permits,
    pub phase: OwnerPhase,
}

/// What the thread of a future is doing.
pub enum FuturePhase {
    /// Neither polling nor dropping.
    Idle,
    /// Polling: it has announced to store a waker, and has done so or not.
    Storing { seq: usize, stored: bool },
    /// Dropping: it has started the cancellation.
    Cancelling,
    /// Dropping: it has put the waiter on the stack of cancellations and waits.
    Pushed,
    /// Dropping: the waiter was finished before, and is to be removed.
    Removing,
}

/// A semaphore and the threads that use it, each of which is somewhere between two of its steps.
#[verifier::ext_equal]
pub struct System {
    pub sem: SemaphoreView,
    /// The release that owns the lock.
    pub owner: Option<Owner>,
    /// The releases that threads have yet to start, because something else that they did calls for
    /// them.
    pub debts: Seq<Permits>,
    pub futures: Map<WaiterPtr, FuturePhase>,
    /// All permits that were ever put in.
    pub supply: int,
    /// All permits that were ever handed out, but for those that were never collected.
    pub granted: int,
}

/// A step of a thread. Any thread may take the next one, and a step is indivisible.
///
/// A call that reads a state, decides, and then replaces the state if it is still what was read,
/// takes its step when it replaces the state. If it decides not to replace anything, it takes its
/// step when it reads: an attempt to acquire that is refused, and a flip that finds no waiter to
/// link.
pub enum Step {
    /// An attempt to acquire, which may be refused.
    TryAcquire { amount: usize },
    /// Creates a future.
    Acquire { ptr: WaiterPtr, amount: usize },
    /// The first poll of a future, up to where it becomes visible to others. `stored` tells that
    /// its waker was stored.
    Enter { ptr: WaiterPtr, waker: WakerParts, stored: bool },
    /// A release tries to get the lock.
    Release { releasable: Permits },
    /// A release that something else called for tries to get the lock.
    Pay { i: int },
    TakeCancels,
    Flip,
    CancelNext,
    CancelsDone,
    Pop,
    PopsDone,
    Close,
    TryUnlock,
    BeginPoll { ptr: WaiterPtr },
    StoreWaker { ptr: WaiterPtr, waker: WakerParts },
    EndPoll { ptr: WaiterPtr },
    /// A poll finds that the waiter is finished.
    EndFinished { ptr: WaiterPtr },
    StartCancel { ptr: WaiterPtr, thread: usize },
    PushCancel { ptr: WaiterPtr },
    Remove { ptr: WaiterPtr },
}

impl Permits {
    /// How many permits these are. Poison is none.
    pub open spec fn worth(self) -> int {
        if self.poisoned() {
            0
        } else {
            self.0 as int
        }
    }
}

/// The sum of the debts.
pub open spec fn total(debts: Seq<Permits>) -> int
    decreases debts.len(),
{
    if debts.len() == 0 {
        0
    } else {
        total(debts.drop_last()) + debts.last().worth()
    }
}

/// There is poison among the debts.
pub open spec fn any_poisoned(debts: Seq<Permits>) -> bool {
    exists|i: int| 0 <= i < debts.len() && (#[trigger] debts[i]).poisoned()
}

impl SemaphoreView {
    /// The permits that are kept in the release lock.
    pub open spec fn kept(self) -> Permits {
        match self.release {
            ReleaseState::Unlocked(available) => available,
            ReleaseState::Locked => Permits(0),
            ReleaseState::LockedDirty(available) => available,
        }
    }

    /// Nothing is left to do with `permits`.
    pub open spec fn stuck(self, permits: Permits) -> bool {
        &&& self.waiters.stack.len() == 0
        &&& self.waiters.cancels.len() == 0
        &&& !self.waiters.servable(permits)
        &&& self.waiters.queue.len() == 0 ==> self.acquire is Available && permits == Permits(0)
    }
}

impl WaitersView {
    pub open spec fn is_pending(self, ptr: WaiterPtr) -> bool {
        self.pending().contains(ptr)
    }

    pub open spec fn is_cancel(self, ptr: WaiterPtr) -> bool {
        (self.taken + self.cancels).contains(ptr)
    }

    /// The first pending waiter is being cancelled.
    pub open spec fn first_cancelling(self) -> bool {
        self.queue.len() > 0 && self.entries[self.queue[0]].waker.state is Cancelling
    }

    /// Both are pending, and `first` came first.
    pub open spec fn precedes(self, first: WaiterPtr, second: WaiterPtr) -> bool {
        exists|i: int, j: int|
            0 <= i < j < self.pending().len() && #[trigger] self.pending()[i] == first
                && #[trigger] self.pending()[j] == second
    }

    /// The waiter is what the thread of its future takes it for.
    pub open spec fn fits_phase(self, ptr: WaiterPtr, phase: FuturePhase) -> bool {
        let waiter = self.entries[ptr];
        let state = waiter.waker.state;
        let pending = self.is_pending(ptr);
        &&& state matches State::Pending { seq } ==> seq < seqs()
        &&& match phase {
            FuturePhase::Idle => match waiter.step {
                AcquireStep::Entering => state is Pending && !pending,
                AcquireStep::Waiting => state is Pending && pending || state is Finished
                    && !pending,
                AcquireStep::Done => waiter.waker.idle() && !pending,
            },
            FuturePhase::Storing { seq, stored } => {
                &&& waiter.step is Waiting
                &&& state == (State::Storing { seq }) && pending || state is Finished && !pending
                &&& stored ==> waiter.waker.vtable != 0
                &&& seq < seqs()
            },
            FuturePhase::Cancelling => {
                &&& waiter.step is Waiting
                &&& state is Cancelling && pending && !self.is_cancel(ptr)
            },
            FuturePhase::Pushed => {
                &&& waiter.step is Waiting
                &&& state is Cancelling && pending && self.is_cancel(ptr) || state is Cancelled
                    && !pending
            },
            FuturePhase::Removing => {
                &&& waiter.step is Waiting
                &&& state is Finished && !pending
            },
        }
    }
}

impl System {
    /// A thread with work to do on the queue is on its way, or has left it to the owner of the
    /// lock.
    pub open spec fn owed(self) -> bool {
        self.debts.len() > 0 || self.sem.release is LockedDirty
    }

    /// The lock is held if and only if there is an owner, and the owner finds what it needs.
    pub open spec fn owner_ok(self) -> bool {
        let w = self.sem.waiters;
        match self.owner {
            None => !self.sem.locked(),
            Some(owner) => {
                &&& self.sem.locked()
                &&& match owner.phase {
                    OwnerPhase::Flip => true,
                    OwnerPhase::Cancel => forall|ptr: WaiterPtr| #[trigger]
                        w.taken.contains(ptr) ==> w.queue.contains(ptr),
                    OwnerPhase::Close => w.taken.len() == 0 && w.queue.len() == 0,
                    _ => w.taken.len() == 0,
                }
            },
        }
    }

    pub open spec fn futures_ok(self) -> bool {
        &&& self.futures.dom() == self.sem.waiters.entries.dom()
        &&& self.futures.dom().finite()
        &&& forall|ptr: WaiterPtr| #[trigger]
            self.futures.contains_key(ptr) ==> self.sem.waiters.fits_phase(ptr, self.futures[ptr])
    }

    /// If nobody is on the way, what the owner has passed by is done.
    pub open spec fn nothing_missed(self) -> bool {
        let w = self.sem.waiters;
        self.owed() || match self.owner {
            None => self.sem.stuck(self.sem.kept()),
            Some(owner) => match owner.phase {
                OwnerPhase::TakeCancels => true,
                OwnerPhase::Flip => w.cancels.len() == 0,
                OwnerPhase::Unlock => self.sem.stuck(owner.releasable),
                _ => w.cancels.len() == 0 && w.stack.len() == 0,
            },
        }
    }

    /// The permits of the owner.
    pub open spec fn carried(self) -> Permits {
        match self.owner {
            None => Permits(0),
            Some(owner) => owner.releasable,
        }
    }

    /// There is poison somewhere.
    pub open spec fn poisoned(self) -> bool {
        ||| self.sem.available().poisoned()
        ||| self.sem.kept().poisoned()
        ||| self.carried().poisoned()
        ||| any_poisoned(self.debts)
    }

    /// The permits that there are, wherever they are.
    pub open spec fn stock(self) -> int {
        self.sem.available().worth() + self.sem.kept().worth() + self.carried().worth() + total(
            self.debts,
        )
    }

    /// Permits are never made up, and none are lost unless they turn into poison.
    pub open spec fn balanced(self) -> bool {
        &&& self.stock() + self.granted <= self.supply
        &&& self.poisoned() || self.stock() + self.granted == self.supply
    }

    pub open spec fn inv(self) -> bool {
        &&& self.sem.ok()
        &&& self.owner_ok()
        &&& self.futures_ok()
        &&& self.nothing_missed()
        &&& self.balanced()
    }

    /// A new semaphore, and no thread that uses it.
    pub open spec fn start(address: usize, initial: usize) -> System {
        System {
            sem: SemaphoreView::fresh(address, initial),
            owner: None,
            debts: seq![],
            futures: Map::empty(),
            supply: Permits(initial).worth(),
            granted: 0,
        }
    }

    pub open spec fn owner_in(self, phase: OwnerPhase) -> bool {
        self.owner is Some && self.owner->0.phase == phase
    }

    pub open spec fn future_in(self, ptr: WaiterPtr, phase: FuturePhase) -> bool {
        self.futures.contains_key(ptr) && self.futures[ptr] == phase
    }

    /// The threads that can take a step.
    pub open spec fn enabled(self, step: Step) -> bool {
        let w = self.sem.waiters;
        match step {
            Step::TryAcquire { .. } => true,
            Step::Acquire { ptr, .. } => !w.entries.contains_key(ptr) && ptr != WaiterPtr(0)
                && ptr.aligned(),
            Step::Enter { ptr, waker, stored } => {
                &&& self.future_in(ptr, FuturePhase::Idle)
                &&& w.entries[ptr].step is Entering
                &&& waker.vtable != 0
                &&& entry(self.sem.acquire, w.entries[ptr].amount) is None ==> stored
            },
            Step::Release { .. } => true,
            Step::Pay { i } => 0 <= i < self.debts.len(),
            Step::TakeCancels => self.owner_in(OwnerPhase::TakeCancels),
            Step::Flip => self.owner_in(OwnerPhase::Flip),
            Step::CancelNext => self.owner_in(OwnerPhase::Cancel) && w.taken.len() > 0,
            Step::CancelsDone => self.owner_in(OwnerPhase::Cancel) && w.taken.len() == 0,
            Step::Pop => self.owner_in(OwnerPhase::Pop) && w.servable(self.carried()),
            Step::PopsDone => self.owner_in(OwnerPhase::Pop) && !w.servable(self.carried()),
            Step::Close => self.owner_in(OwnerPhase::Close),
            Step::TryUnlock => self.owner_in(OwnerPhase::Unlock),
            Step::BeginPoll { ptr } => {
                &&& self.future_in(ptr, FuturePhase::Idle)
                &&& w.entries[ptr].step is Waiting
                &&& w.entries[ptr].waker.state is Pending
            },
            Step::StoreWaker { ptr, waker } => {
                &&& self.futures.contains_key(ptr)
                &&& self.futures[ptr] is Storing && !self.futures[ptr]->stored
                &&& waker.vtable != 0
            },
            Step::EndPoll { ptr } => {
                &&& self.futures.contains_key(ptr)
                &&& self.futures[ptr] is Storing && self.futures[ptr]->stored
            },
            Step::EndFinished { ptr } => {
                &&& self.future_in(ptr, FuturePhase::Idle)
                &&& w.entries[ptr].step is Waiting
                &&& w.entries[ptr].waker.state is Finished
            },
            Step::StartCancel { ptr, .. } => {
                &&& self.future_in(ptr, FuturePhase::Idle)
                &&& w.entries[ptr].step is Waiting
            },
            Step::PushCancel { ptr } => self.future_in(ptr, FuturePhase::Cancelling),
            Step::Remove { ptr } => {
                ||| self.future_in(ptr, FuturePhase::Idle) && !(w.entries[ptr].step is Waiting)
                ||| self.future_in(ptr, FuturePhase::Pushed)
                    && w.entries[ptr].waker.state is Cancelled
                ||| self.future_in(ptr, FuturePhase::Removing)
            },
        }
    }

    /// A release of `releasable` tries to get the lock.
    pub open spec fn released(self, releasable: Permits) -> System {
        System {
            sem: self.sem.lock_tried(releasable),
            owner: match self.sem.release {
                ReleaseState::Unlocked(available) => Some(
                    Owner {
                        releasable: releasable.plus(available),
                        phase: OwnerPhase::TakeCancels,
                    },
                ),
                _ => self.owner,
            },
            ..self
        }
    }

    pub open spec fn with_owner(self, releasable: Permits, phase: OwnerPhase) -> System {
        System { owner: Some(Owner { releasable, phase }), ..self }
    }

    pub open spec fn with_sem(self, sem: SemaphoreView) -> System {
        System { sem, ..self }
    }

    pub open spec fn with_phase(self, ptr: WaiterPtr, phase: FuturePhase) -> System {
        System { futures: self.futures.insert(ptr, phase), ..self }
    }

    pub open spec fn with_debt(self, releasable: Permits) -> System {
        System { debts: self.debts.push(releasable), ..self }
    }

    pub open spec fn with_granted(self, amount: int) -> System {
        System { granted: self.granted + amount, ..self }
    }

    /// What a step leaves.
    pub open spec fn next(self, step: Step) -> System {
        let sem = self.sem;
        let w = sem.waiters;
        let releasable = self.carried();
        match step {
            Step::TryAcquire { amount } => if refusal(sem.acquire, amount) is Some {
                self
            } else {
                self.with_sem(sem.taken_at_once(amount)).with_granted(amount as int)
            },
            Step::Acquire { ptr, amount } => self.with_sem(
                sem.with_waiters(w.inserted(ptr, sem.address, amount)),
            ).with_phase(ptr, FuturePhase::Idle),
            Step::Enter { ptr, waker, stored } => {
                let amount = w.entries[ptr].amount;
                let outcome = entry(sem.acquire, amount);
                let begun = if stored {
                    sem.registered(ptr, waker)
                } else {
                    sem
                };
                let entered = self.with_sem(begun.entered(ptr, outcome));
                match outcome {
                    None => entered.with_debt(sem.available()),
                    Some(Ok(_)) => entered.with_granted(amount as int),
                    Some(Err(_)) => entered,
                }
            },
            Step::Release { releasable } => System {
                supply: self.supply + releasable.worth(),
                ..self.released(releasable)
            },
            Step::Pay { i } => System {
                debts: self.debts.remove(i),
                ..self.released(self.debts[i])
            },
            Step::TakeCancels => self.with_sem(sem.with_waiters(w.cancels_taken())).with_owner(
                releasable,
                OwnerPhase::Flip,
            ),
            Step::Flip => self.with_sem(sem.flipped(releasable)).with_owner(
                sem.flip_left(releasable),
                OwnerPhase::Cancel,
            ),
            Step::CancelNext => self.with_sem(sem.with_waiters(w.next_cancelled())),
            Step::CancelsDone => self.with_owner(releasable, OwnerPhase::Pop),
            Step::Pop => self.with_sem(
                sem.with_waiters(w.popped(releasable.poisoned())),
            ).with_owner(w.after_first(releasable), OwnerPhase::Pop).with_granted(
                if releasable.poisoned() {
                    0
                } else {
                    w.entries[w.queue[0]].amount as int
                },
            ),
            Step::PopsDone => self.with_owner(
                releasable,
                if w.queue.len() == 0 {
                    OwnerPhase::Close
                } else {
                    OwnerPhase::Unlock
                },
            ),
            Step::Close => self.with_sem(sem.flipped(releasable)).with_owner(
                sem.flip_left(releasable),
                OwnerPhase::Unlock,
            ),
            Step::TryUnlock => {
                let unlocked = self.with_sem(sem.unlock_tried(releasable));
                match sem.release {
                    ReleaseState::LockedDirty(available) => unlocked.with_owner(
                        releasable.plus(available),
                        OwnerPhase::TakeCancels,
                    ),
                    _ => System { owner: None, ..unlocked },
                }
            },
            Step::BeginPoll { ptr } => {
                let seq = w.entries[ptr].waker.state->Pending_seq;
                self.with_sem(sem.with_state(ptr, State::Storing { seq })).with_phase(
                    ptr,
                    FuturePhase::Storing { seq, stored: false },
                )
            },
            Step::StoreWaker { ptr, waker } => self.with_sem(
                sem.with_waiters(
                    w.with_waker(ptr, w.entries[ptr].waker.with_parts(waker)),
                ),
            ).with_phase(
                ptr,
                FuturePhase::Storing { seq: self.futures[ptr]->Storing_seq, stored: true },
            ),
            Step::EndPoll { ptr } => {
                let seq = self.futures[ptr]->Storing_seq;
                let ended = if w.entries[ptr].waker.state is Finished {
                    sem.with_waiters(w.with_step(ptr, AcquireStep::Done))
                } else {
                    sem.with_state(ptr, State::Pending { seq: next_seq(seq) })
                };
                self.with_sem(ended).with_phase(ptr, FuturePhase::Idle)
            },
            Step::EndFinished { ptr } => self.with_sem(
                sem.with_waiters(w.with_step(ptr, AcquireStep::Done)),
            ),
            Step::StartCancel { ptr, thread } => {
                let started = self.with_sem(sem.cancel_started(ptr, thread));
                let amount = w.entries[ptr].amount;
                match w.entries[ptr].waker.state {
                    State::Finished { poisoned: true } => started.with_phase(
                        ptr,
                        FuturePhase::Removing,
                    ),
                    State::Finished { poisoned: false } => started.with_phase(
                        ptr,
                        FuturePhase::Removing,
                    ).with_debt(Permits(amount)).with_granted(-amount),
                    _ => started.with_phase(ptr, FuturePhase::Cancelling),
                }
            },
            Step::PushCancel { ptr } => self.with_sem(sem.cancel_pushed(ptr)).with_phase(
                ptr,
                FuturePhase::Pushed,
            ).with_debt(Permits(0)),
            Step::Remove { ptr } => System {
                futures: self.futures.remove(ptr),
                ..self.with_sem(sem.removed(ptr))
            },
        }
    }
}

impl WaitersView {
    proof fn lemma_pending_pushed(self, ptr: WaiterPtr, x: WaiterPtr)
        requires
            self.pushed(ptr).pending() == self.pending().push(ptr),
        ensures
            self.pushed(ptr).is_pending(x) == (self.is_pending(x) || x == ptr),
            self.pushed(ptr).is_cancel(x) == self.is_cancel(x),
    {
        let p = self.pending();
        if p.contains(x) {
            let i = choose|i: int| 0 <= i < p.len() && p[i] == x;
            assert(p.push(ptr)[i] == x);
        }
        assert(p.push(ptr)[p.len() as int] == ptr);
        if p.push(ptr).contains(x) && x != ptr {
            let i = choose|i: int| 0 <= i < p.push(ptr).len() && p.push(ptr)[i] == x;
            assert(p[i] == x);
        }
    }

    proof fn lemma_pending_popped(self, poisoned: bool, x: WaiterPtr)
        requires
            self.ok(),
            self.queue.len() > 0,
            self.popped(poisoned).pending() == self.pending().skip(1),
        ensures
            self.popped(poisoned).is_pending(x) == (self.is_pending(x) && x != self.queue[0]),
            self.popped(poisoned).is_cancel(x) == self.is_cancel(x),
    {
        let p = self.pending();
        let r = p.skip(1);
        assert(p[0] == self.queue[0]);
        if p.contains(x) && x != self.queue[0] {
            let i = choose|i: int| 0 <= i < p.len() && p[i] == x;
            assert(r[i - 1] == x);
        }
        if r.contains(x) {
            let i = choose|i: int| 0 <= i < r.len() && r[i] == x;
            assert(p[i + 1] == x);
        }
    }

    proof fn lemma_pending_cancelled(self, x: WaiterPtr)
        requires
            self.ok(),
            self.taken.len() > 0,
            self.queue.contains(self.taken[0]),
        ensures
            self.next_cancelled().is_pending(x) == (self.is_pending(x) && x != self.taken[0]),
            self.next_cancelled().is_cancel(x) == (self.is_cancel(x) && x != self.taken[0]),
            self.is_cancel(self.taken[0]),
            self.is_pending(self.taken[0]),
    {
        let ptr = self.taken[0];
        let w = self.next_cancelled();
        let c = self.taken + self.cancels;
        let d = w.taken + w.cancels;
        assert(c[0] == ptr);
        assert(d =~= c.skip(1));
        if c.contains(x) && x != ptr {
            let i = choose|i: int| 0 <= i < c.len() && c[i] == x;
            assert(d[i - 1] == x);
        }
        if d.contains(x) {
            let i = choose|i: int| 0 <= i < d.len() && d[i] == x;
            assert(c[i + 1] == x);
        }
        assert(c.contains(ptr));
        assert(self.may_cancel(ptr));
        lemma_contains_sum(self.queue, self.stack, x);
        lemma_contains_sum(w.queue, w.stack, x);
        lemma_contains_sum(self.queue, self.stack, ptr);
        lemma_without_contains(self.queue, seq![ptr], x);
        assert(seq![ptr].contains(x) == (x == ptr)) by {
            assert(seq![ptr][0] == ptr);
        }
        if x == ptr && self.stack.contains(x) {
            let i = choose|i: int| 0 <= i < self.queue.len() && self.queue[i] == ptr;
            let j = choose|j: int| 0 <= j < self.stack.len() && self.stack[j] == ptr;
            assert(self.pending()[i] == ptr && self.pending()[self.queue.len() + j] == ptr);
        }
    }

    proof fn lemma_cancel_pushed_members(self, ptr: WaiterPtr, x: WaiterPtr)
        ensures
            self.cancel_pushed(ptr).is_cancel(x) == (self.is_cancel(x) || x == ptr),
            self.cancel_pushed(ptr).is_pending(x) == self.is_pending(x),
    {
        let w = self.cancel_pushed(ptr);
        lemma_contains_sum(self.taken, self.cancels, x);
        lemma_contains_sum(w.taken, w.cancels, x);
        lemma_contains_sum(seq![ptr], self.cancels, x);
        assert(seq![ptr].contains(x) == (x == ptr)) by {
            assert(seq![ptr][0] == ptr);
        }
    }
}

/// A sequence number is followed by one that a state can hold.
proof fn lemma_next_seq(seq: usize)
    ensures
        next_seq(seq) < seqs(),
{
    lemma_mod_bound(seq + 1, seqs());
}

/// Leaving out what is not there.
proof fn lemma_without_other(s: Seq<WaiterPtr>, ptr: WaiterPtr)
    requires
        !s.contains(ptr),
    ensures
        without(s, seq![ptr]) == s,
    decreases s.len(),
{
    reveal(Seq::filter);
    if s.len() > 0 {
        let r = s.drop_last();
        assert(s[s.len() - 1] == s.last());
        assert(!r.contains(ptr)) by {
            if r.contains(ptr) {
                let i = choose|i: int| 0 <= i < r.len() && r[i] == ptr;
                assert(s[i] == ptr);
            }
        }
        lemma_without_other(r, ptr);
        assert(!seq![ptr].contains(s.last())) by {
            assert(seq![ptr][0] == ptr);
        }
        assert(s =~= r.push(s.last()));
    }
}

/// What is in one of two parts.
proof fn lemma_contains_sum(a: Seq<WaiterPtr>, b: Seq<WaiterPtr>, x: WaiterPtr)
    ensures
        (a + b).contains(x) == (a.contains(x) || b.contains(x)),
{
    let c = a + b;
    if a.contains(x) {
        let i = choose|i: int| 0 <= i < a.len() && a[i] == x;
        assert(c[i] == x);
    }
    if b.contains(x) {
        let i = choose|i: int| 0 <= i < b.len() && b[i] == x;
        assert(c[a.len() + i] == x);
    }
    if c.contains(x) {
        let i = choose|i: int| 0 <= i < c.len() && c[i] == x;
        if i < a.len() {
            assert(a[i] == x);
        } else {
            assert(b[i - a.len()] == x);
        }
    }
}

proof fn lemma_total_positive(debts: Seq<Permits>)
    ensures
        total(debts) >= 0,
    decreases debts.len(),
{
    if debts.len() > 0 {
        lemma_total_positive(debts.drop_last());
    }
}

proof fn lemma_debt_added(debts: Seq<Permits>, permits: Permits)
    ensures
        total(debts.push(permits)) == total(debts) + permits.worth(),
        any_poisoned(debts.push(permits)) == (any_poisoned(debts) || permits.poisoned()),
{
    let d = debts.push(permits);
    if any_poisoned(debts) {
        let i = choose|i: int| 0 <= i < debts.len() && (#[trigger] debts[i]).poisoned();
        assert(d[i].poisoned());
    }
    assert(d[debts.len() as int] == permits);
    if any_poisoned(d) && !permits.poisoned() {
        let i = choose|i: int| 0 <= i < d.len() && (#[trigger] d[i]).poisoned();
        assert(debts[i].poisoned());
    }
    assert(debts.push(permits).drop_last() =~= debts);
}

proof fn lemma_debt_removed(debts: Seq<Permits>, i: int)
    requires
        0 <= i < debts.len(),
    ensures
        total(debts.remove(i)) + debts[i].worth() == total(debts),
        any_poisoned(debts) ==> any_poisoned(debts.remove(i)) || debts[i].poisoned(),
    decreases debts.len(),
{
    let d = debts.remove(i);
    if any_poisoned(debts) && !debts[i].poisoned() {
        let j = choose|j: int| 0 <= j < debts.len() && (#[trigger] debts[j]).poisoned();
        assert(d[if j < i { j } else { j - 1 }].poisoned());
    }
    if i < debts.len() - 1 {
        lemma_debt_removed(debts.drop_last(), i);
        assert(debts.remove(i).drop_last() =~= debts.drop_last().remove(i));
    } else {
        assert(debts.remove(i) =~= debts.drop_last());
    }
}

impl System {
    /// The threads of the other futures find their waiters as they were.
    proof fn lemma_others_kept(self, next: System, ptr: WaiterPtr)
        requires
            self.futures_ok(),
            next.futures.dom() =~= next.sem.waiters.entries.dom(),
            next.futures.dom().finite(),
            next.futures.contains_key(ptr) ==> next.sem.waiters.fits_phase(
                ptr,
                next.futures[ptr],
            ),
            forall|x: WaiterPtr|
                #![trigger next.futures.contains_key(x)]
                next.futures.contains_key(x) && x != ptr ==> {
                    &&& self.futures.contains_key(x)
                    &&& next.futures[x] == self.futures[x]
                    &&& next.sem.waiters.entries[x] == self.sem.waiters.entries[x]
                    &&& next.sem.waiters.is_pending(x) == self.sem.waiters.is_pending(x)
                    &&& next.sem.waiters.is_cancel(x) == self.sem.waiters.is_cancel(x)
                },
        ensures
            next.futures_ok(),
    {
        assert forall|x: WaiterPtr| #[trigger]
            next.futures.contains_key(x) implies next.sem.waiters.fits_phase(
            x,
            next.futures[x],
        ) by {
            if x != ptr {
                assert(self.futures.contains_key(x));
            }
        }
    }

    /// A new semaphore has all that holds of every state.
    pub proof fn law_start(address: usize, initial: usize)
        ensures
            System::start(address, initial).inv(),
    {
        let s = System::start(address, initial);
        assert(s.futures.dom() =~= s.sem.waiters.entries.dom());
    }

    proof fn lemma_try_acquire(self, amount: usize)
        requires
            self.inv(),
            self.enabled(Step::TryAcquire { amount }),
        ensures
            self.next(Step::TryAcquire { amount }).inv(),
            self.poisoned() ==> self.next(Step::TryAcquire { amount }).poisoned(),
    {
        let n = self.next(Step::TryAcquire { amount });
        if refusal(self.sem.acquire, amount) is None {
            self.lemma_others_kept(n, WaiterPtr(0));
            assert(n.poisoned() == self.poisoned());
        }
    }

    proof fn lemma_acquire(self, ptr: WaiterPtr, amount: usize)
        requires
            self.inv(),
            self.enabled(Step::Acquire { ptr, amount }),
        ensures
            self.next(Step::Acquire { ptr, amount }).inv(),
            self.poisoned() ==> self.next(Step::Acquire { ptr, amount }).poisoned(),
    {
        let n = self.next(Step::Acquire { ptr, amount });
        let w = self.sem.waiters;
        w.lemma_inserted(ptr, self.sem.address, amount);
        self.lemma_others_kept(n, ptr);
        if w.queue.len() > 0 {
            assert(w.pending()[0] == w.queue[0]);
            assert(w.is_pending(w.queue[0]));
        }
        assert(n.poisoned() == self.poisoned());
    }

    proof fn lemma_enter(self, ptr: WaiterPtr, waker: WakerParts, stored: bool)
        requires
            self.inv(),
            self.enabled(Step::Enter { ptr, waker, stored }),
        ensures
            self.next(Step::Enter { ptr, waker, stored }).inv(),
            self.poisoned() ==> self.next(Step::Enter { ptr, waker, stored }).poisoned(),
    {
        let n = self.next(Step::Enter { ptr, waker, stored });
        let w = self.sem.waiters;
        let v = n.sem.waiters;
        let begun = if stored {
            self.sem.registered(ptr, waker).waiters
        } else {
            w
        };
        assert(w.fits_phase(ptr, self.futures[ptr]));
        w.lemma_idle(ptr);
        lemma_next_seq(w.entries[ptr].waker.state->Pending_seq);
        w.lemma_with_waker(ptr, w.entries[ptr].waker.polled(waker));
        assert(begun.pending() == w.pending());
        assert(begun.ok());
        if entry(self.sem.acquire, w.entries[ptr].amount) is None {
            begun.lemma_pushed(ptr);
            assert forall|x: WaiterPtr| true implies v.is_pending(x) == (w.is_pending(x) || x == ptr)
                && v.is_cancel(x) == w.is_cancel(x) by {
                begun.lemma_pending_pushed(ptr, x);
            }
            lemma_debt_added(self.debts, self.sem.available());
        } else {
            begun.lemma_with_step(ptr, AcquireStep::Done);
        }
        self.lemma_others_kept(n, ptr);
    }

    /// A release that tries to get the lock keeps its permits, or leaves them to the owner.
    proof fn lemma_released(self, releasable: Permits)
        requires
            self.inv(),
        ensures
            ({
                let n = self.released(releasable);
                &&& n.sem.ok()
                &&& n.owner_ok()
                &&& n.futures_ok()
                &&& n.owner_in(OwnerPhase::TakeCancels) || n.sem.release is LockedDirty
                &&& self.sem.kept().poisoned() || self.carried().poisoned()
                    || releasable.poisoned() ==> n.sem.kept().poisoned() || n.carried().poisoned()
                &&& n.sem.kept().worth() + n.carried().worth() <= self.sem.kept().worth()
                    + self.carried().worth() + releasable.worth()
                &&& n.sem.kept().poisoned() || n.carried().poisoned() || n.sem.kept().worth()
                    + n.carried().worth() == self.sem.kept().worth() + self.carried().worth()
                    + releasable.worth()
            }),
    {
        let n = self.released(releasable);
        self.lemma_others_kept(n, WaiterPtr(0));
    }

    proof fn lemma_release(self, releasable: Permits)
        requires
            self.inv(),
            self.enabled(Step::Release { releasable }),
        ensures
            self.next(Step::Release { releasable }).inv(),
            self.poisoned() ==> self.next(Step::Release { releasable }).poisoned(),
    {
        self.lemma_released(releasable);
    }

    proof fn lemma_pay(self, i: int)
        requires
            self.inv(),
            self.enabled(Step::Pay { i }),
        ensures
            self.next(Step::Pay { i }).inv(),
            self.poisoned() ==> self.next(Step::Pay { i }).poisoned(),
    {
        self.lemma_released(self.debts[i]);
        lemma_debt_removed(self.debts, i);
    }

    proof fn lemma_take_cancels(self)
        requires
            self.inv(),
            self.enabled(Step::TakeCancels),
        ensures
            self.next(Step::TakeCancels).inv(),
            self.poisoned() ==> self.next(Step::TakeCancels).poisoned(),
    {
        let n = self.next(Step::TakeCancels);
        let w = self.sem.waiters;
        let v = n.sem.waiters;
        w.lemma_cancels_taken();
        assert(v.taken + v.cancels =~= w.taken + w.cancels);
        self.lemma_others_kept(n, WaiterPtr(0));
    }

    /// Flipping keeps the permits and the waiters.
    proof fn lemma_flipped(self, phase: OwnerPhase)
        requires
            self.inv(),
            self.owner is Some,
        ensures
            ({
                let n = self.with_sem(self.sem.flipped(self.carried())).with_owner(
                    self.sem.flip_left(self.carried()),
                    phase,
                );
                &&& n.sem.ok()
                &&& n.futures_ok()
                &&& n.sem.waiters.stack.len() == 0
                &&& n.sem.waiters.queue == self.sem.waiters.pending()
                &&& n.sem.waiters.taken == self.sem.waiters.taken
                &&& n.sem.waiters.cancels == self.sem.waiters.cancels
                &&& n.sem.release == self.sem.release
                &&& self.poisoned() ==> n.poisoned()
                &&& n.balanced()
            }),
    {
        let n = self.with_sem(self.sem.flipped(self.carried())).with_owner(
            self.sem.flip_left(self.carried()),
            phase,
        );
        let w = self.sem.waiters;
        let v = n.sem.waiters;
        w.lemma_all_linked();
        assert(v.pending() == w.pending());
        assert(v.queue =~= w.pending());
        self.lemma_others_kept(n, WaiterPtr(0));
    }

    proof fn lemma_flip(self)
        requires
            self.inv(),
            self.enabled(Step::Flip),
        ensures
            self.next(Step::Flip).inv(),
            self.poisoned() ==> self.next(Step::Flip).poisoned(),
    {
        let n = self.next(Step::Flip);
        let w = self.sem.waiters;
        let v = n.sem.waiters;
        self.lemma_flipped(OwnerPhase::Cancel);
        assert forall|ptr: WaiterPtr| #[trigger] v.taken.contains(ptr) implies v.queue.contains(
            ptr,
        ) by {
            w.lemma_taken(ptr);
        }
    }

    proof fn lemma_close(self)
        requires
            self.inv(),
            self.enabled(Step::Close),
        ensures
            self.next(Step::Close).inv(),
            self.poisoned() ==> self.next(Step::Close).poisoned(),
    {
        self.lemma_flipped(OwnerPhase::Unlock);
    }

    proof fn lemma_cancel_next(self)
        requires
            self.inv(),
            self.enabled(Step::CancelNext),
        ensures
            self.next(Step::CancelNext).inv(),
            self.poisoned() ==> self.next(Step::CancelNext).poisoned(),
    {
        let n = self.next(Step::CancelNext);
        let w = self.sem.waiters;
        let v = n.sem.waiters;
        let ptr = w.taken[0];
        assert(w.taken.contains(ptr));
        w.lemma_taken(ptr);
        w.lemma_next_cancelled();
        w.lemma_all_cancelled();
        assert forall|x: WaiterPtr| true implies v.is_pending(x) == (w.is_pending(x) && x != ptr)
            && v.is_cancel(x) == (w.is_cancel(x) && x != ptr) by {
            w.lemma_pending_cancelled(x);
        }
        w.lemma_pending_cancelled(ptr);
        assert(self.futures.contains_key(ptr));
        assert(w.fits_phase(ptr, self.futures[ptr]));
        assert(self.futures[ptr] is Pushed);
        self.lemma_others_kept(n, ptr);
        assert forall|x: WaiterPtr| #[trigger] v.taken.contains(x) implies v.queue.contains(x) by {
            let i = choose|i: int| 0 <= i < v.taken.len() && v.taken[i] == x;
            assert(w.taken[i + 1] == x);
            assert(w.taken.contains(x));
            let c = w.taken + w.cancels;
            assert(c[0] == ptr && c[i + 1] == x);
        }
    }

    proof fn lemma_cancels_done(self)
        requires
            self.inv(),
            self.enabled(Step::CancelsDone),
        ensures
            self.next(Step::CancelsDone).inv(),
            self.poisoned() ==> self.next(Step::CancelsDone).poisoned(),
    {
        let n = self.next(Step::CancelsDone);
        self.lemma_others_kept(n, WaiterPtr(0));
    }

    proof fn lemma_pops_done(self)
        requires
            self.inv(),
            self.enabled(Step::PopsDone),
        ensures
            self.next(Step::PopsDone).inv(),
            self.poisoned() ==> self.next(Step::PopsDone).poisoned(),
    {
        let n = self.next(Step::PopsDone);
        self.lemma_others_kept(n, WaiterPtr(0));
    }

    proof fn lemma_pop(self)
        requires
            self.inv(),
            self.enabled(Step::Pop),
        ensures
            self.next(Step::Pop).inv(),
            self.poisoned() ==> self.next(Step::Pop).poisoned(),
    {
        let n = self.next(Step::Pop);
        let w = self.sem.waiters;
        let v = n.sem.waiters;
        let ptr = w.queue[0];
        let poisoned = self.carried().poisoned();
        assert(w.pending()[0] == ptr);
        assert(w.is_pending(ptr));
        assert(w.may_pend(ptr));
        w.lemma_popped(poisoned);
        assert forall|x: WaiterPtr| true implies v.is_pending(x) == (w.is_pending(x) && x != ptr)
            && v.is_cancel(x) == w.is_cancel(x) by {
            w.lemma_pending_popped(poisoned, x);
        }
        assert(self.futures.contains_key(ptr));
        assert(w.fits_phase(ptr, self.futures[ptr]));
        self.lemma_others_kept(n, ptr);
    }

    proof fn lemma_try_unlock(self)
        requires
            self.inv(),
            self.enabled(Step::TryUnlock),
        ensures
            self.next(Step::TryUnlock).inv(),
            self.poisoned() ==> self.next(Step::TryUnlock).poisoned(),
    {
        let n = self.next(Step::TryUnlock);
        self.lemma_others_kept(n, WaiterPtr(0));
    }

    proof fn lemma_begin_poll(self, ptr: WaiterPtr)
        requires
            self.inv(),
            self.enabled(Step::BeginPoll { ptr }),
        ensures
            self.next(Step::BeginPoll { ptr }).inv(),
            self.poisoned() ==> self.next(Step::BeginPoll { ptr }).poisoned(),
    {
        let n = self.next(Step::BeginPoll { ptr });
        let w = self.sem.waiters;
        let v = n.sem.waiters;
        assert(w.fits_phase(ptr, self.futures[ptr]));
        assert(w.is_cancel(ptr) ==> w.may_cancel(ptr));
        assert(w.is_pending(ptr) ==> w.may_pend(ptr));
        let seq = w.entries[ptr].waker.state->Pending_seq;
        w.lemma_with_waker(ptr, w.entries[ptr].waker.with_state(State::Storing { seq }));
        assert(v.pending() == w.pending());
        assert(v.taken + v.cancels == w.taken + w.cancels);
        self.lemma_others_kept(n, ptr);
    }

    proof fn lemma_store_waker(self, ptr: WaiterPtr, waker: WakerParts)
        requires
            self.inv(),
            self.enabled(Step::StoreWaker { ptr, waker }),
        ensures
            self.next(Step::StoreWaker { ptr, waker }).inv(),
            self.poisoned() ==> self.next(Step::StoreWaker { ptr, waker }).poisoned(),
    {
        let n = self.next(Step::StoreWaker { ptr, waker });
        let w = self.sem.waiters;
        let v = n.sem.waiters;
        assert(w.fits_phase(ptr, self.futures[ptr]));
        assert(w.is_cancel(ptr) ==> w.may_cancel(ptr));
        assert(w.is_pending(ptr) ==> w.may_pend(ptr));
        w.lemma_with_waker(ptr, w.entries[ptr].waker.with_parts(waker));
        assert(v.pending() == w.pending());
        assert(v.taken + v.cancels == w.taken + w.cancels);
        self.lemma_others_kept(n, ptr);
    }

    proof fn lemma_end_poll(self, ptr: WaiterPtr)
        requires
            self.inv(),
            self.enabled(Step::EndPoll { ptr }),
        ensures
            self.next(Step::EndPoll { ptr }).inv(),
            self.poisoned() ==> self.next(Step::EndPoll { ptr }).poisoned(),
    {
        let n = self.next(Step::EndPoll { ptr });
        let w = self.sem.waiters;
        let v = n.sem.waiters;
        assert(w.fits_phase(ptr, self.futures[ptr]));
        assert(w.is_cancel(ptr) ==> w.may_cancel(ptr));
        assert(w.is_pending(ptr) ==> w.may_pend(ptr));
        let seq = self.futures[ptr]->Storing_seq;
        lemma_next_seq(seq);
        if w.entries[ptr].waker.state is Finished {
            w.lemma_with_step(ptr, AcquireStep::Done);
        } else {
            w.lemma_with_waker(
                ptr,
                w.entries[ptr].waker.with_state(State::Pending { seq: next_seq(seq) }),
            );
        }
        assert(v.pending() == w.pending());
        assert(v.taken + v.cancels == w.taken + w.cancels);
        self.lemma_others_kept(n, ptr);
    }

    proof fn lemma_end_finished(self, ptr: WaiterPtr)
        requires
            self.inv(),
            self.enabled(Step::EndFinished { ptr }),
        ensures
            self.next(Step::EndFinished { ptr }).inv(),
            self.poisoned() ==> self.next(Step::EndFinished { ptr }).poisoned(),
    {
        let n = self.next(Step::EndFinished { ptr });
        let w = self.sem.waiters;
        let v = n.sem.waiters;
        assert(w.fits_phase(ptr, self.futures[ptr]));
        assert(w.is_cancel(ptr) ==> w.may_cancel(ptr));
        assert(w.is_pending(ptr) ==> w.may_pend(ptr));
        w.lemma_with_step(ptr, AcquireStep::Done);
        assert(v.pending() == w.pending());
        assert(v.taken + v.cancels == w.taken + w.cancels);
        self.lemma_others_kept(n, ptr);
    }

    proof fn lemma_start_cancel(self, ptr: WaiterPtr, thread: usize)
        requires
            self.inv(),
            self.enabled(Step::StartCancel { ptr, thread }),
        ensures
            self.next(Step::StartCancel { ptr, thread }).inv(),
            self.poisoned() ==> self.next(Step::StartCancel { ptr, thread }).poisoned(),
    {
        let n = self.next(Step::StartCancel { ptr, thread });
        let w = self.sem.waiters;
        let v = n.sem.waiters;
        assert(w.fits_phase(ptr, self.futures[ptr]));
        assert(w.is_cancel(ptr) ==> w.may_cancel(ptr));
        assert(w.is_pending(ptr) ==> w.may_pend(ptr));
        w.lemma_with_waker(ptr, w.entries[ptr].waker.cancel_started(thread));
        lemma_debt_added(self.debts, Permits(w.entries[ptr].amount));
        assert(v.pending() == w.pending());
        assert(v.taken + v.cancels == w.taken + w.cancels);
        self.lemma_others_kept(n, ptr);
    }

    proof fn lemma_push_cancel(self, ptr: WaiterPtr)
        requires
            self.inv(),
            self.enabled(Step::PushCancel { ptr }),
        ensures
            self.next(Step::PushCancel { ptr }).inv(),
            self.poisoned() ==> self.next(Step::PushCancel { ptr }).poisoned(),
    {
        let n = self.next(Step::PushCancel { ptr });
        let w = self.sem.waiters;
        let v = n.sem.waiters;
        assert(w.fits_phase(ptr, self.futures[ptr]));
        assert(w.is_cancel(ptr) ==> w.may_cancel(ptr));
        assert(w.is_pending(ptr) ==> w.may_pend(ptr));
        w.lemma_cancel_pushed(ptr);
        lemma_debt_added(self.debts, Permits(0));
        assert forall|x: WaiterPtr| true implies v.is_cancel(x) == (w.is_cancel(x) || x == ptr)
            && v.is_pending(x) == w.is_pending(x) by {
            w.lemma_cancel_pushed_members(ptr, x);
        }
        self.lemma_others_kept(n, ptr);
    }

    proof fn lemma_remove(self, ptr: WaiterPtr)
        requires
            self.inv(),
            self.enabled(Step::Remove { ptr }),
        ensures
            self.next(Step::Remove { ptr }).inv(),
            self.poisoned() ==> self.next(Step::Remove { ptr }).poisoned(),
    {
        let n = self.next(Step::Remove { ptr });
        let w = self.sem.waiters;
        let v = n.sem.waiters;
        assert(w.fits_phase(ptr, self.futures[ptr]));
        assert(w.is_cancel(ptr) ==> w.may_cancel(ptr));
        assert(w.is_pending(ptr) ==> w.may_pend(ptr));
        w.lemma_removed(ptr);
        if w.queue.len() > 0 {
            assert(w.pending()[0] == w.queue[0]);
            assert(w.is_pending(w.queue[0]));
        }
        assert(v.pending() == w.pending());
        assert(v.taken + v.cancels == w.taken + w.cancels);
        self.lemma_others_kept(n, ptr);
    }

    /// Whatever the threads do, in whatever order they take their steps: the lock has one owner at
    /// most, who finds what it needs. The thread of each future finds its waiter as it left it, or
    /// finished, or with its cancellation accepted. No waiter that could be served is missed. Permits
    /// are never made up, and none are lost unless they turn into poison. And poison stays.
    pub proof fn law_step(self, step: Step)
        requires
            self.inv(),
            self.enabled(step),
        ensures
            self.next(step).inv(),
            self.poisoned() ==> self.next(step).poisoned(),
    {
        match step {
            Step::TryAcquire { amount } => self.lemma_try_acquire(amount),
            Step::Acquire { ptr, amount } => self.lemma_acquire(ptr, amount),
            Step::Enter { ptr, waker, stored } => self.lemma_enter(ptr, waker, stored),
            Step::Release { releasable } => self.lemma_release(releasable),
            Step::Pay { i } => self.lemma_pay(i),
            Step::TakeCancels => self.lemma_take_cancels(),
            Step::Flip => self.lemma_flip(),
            Step::CancelNext => self.lemma_cancel_next(),
            Step::CancelsDone => self.lemma_cancels_done(),
            Step::Pop => self.lemma_pop(),
            Step::PopsDone => self.lemma_pops_done(),
            Step::Close => self.lemma_close(),
            Step::TryUnlock => self.lemma_try_unlock(),
            Step::BeginPoll { ptr } => self.lemma_begin_poll(ptr),
            Step::StoreWaker { ptr, waker } => self.lemma_store_waker(ptr, waker),
            Step::EndPoll { ptr } => self.lemma_end_poll(ptr),
            Step::EndFinished { ptr } => self.lemma_end_finished(ptr),
            Step::StartCancel { ptr, thread } => self.lemma_start_cancel(ptr, thread),
            Step::PushCancel { ptr } => self.lemma_push_cancel(ptr),
            Step::Remove { ptr } => self.lemma_remove(ptr),
        }
    }

    /// A flip that reads that there are pending waiters, none of which is left to be linked, changes
    /// nothing: it is done when it has read that, though more waiters may come before it goes on.
    pub proof fn law_flip_read(self)
        requires
            self.inv(),
            self.sem.acquire == AcquireState::Queued(WaiterPtr(0)),
            self.sem.waiters.queue.len() > 0,
        ensures
            self.next(Step::Flip).sem == self.sem,
            self.next(Step::Flip).carried() == self.carried(),
            self.next(Step::Close).sem == self.sem,
            self.next(Step::Close).carried() == self.carried(),
    {
        let w = self.sem.waiters;
        self.sem.lemma_back();
        assert(w.queue + w.stack =~= w.queue);
        assert(w.all_linked() =~= w);
    }

    /// An attempt to acquire that reads what refuses it changes nothing: it is done when it has
    /// read that, and its error is the one that was right then.
    pub proof fn law_refusal_read(self, amount: usize)
        requires
            refusal(self.sem.acquire, amount) is Some,
        ensures
            self.next(Step::TryAcquire { amount }) == self,
    {
    }

    /// Releasing poison, or more permits than there can be, poisons the semaphore whatever other
    /// threads are doing.
    pub proof fn law_poison_released(self, releasable: Permits)
        requires
            self.inv(),
            releasable.poisoned(),
        ensures
            self.next(Step::Release { releasable }).poisoned(),
    {
        self.lemma_released(releasable);
    }

    /// Where acquires have found poison, they always will.
    pub proof fn law_poison_found(self, step: Step)
        requires
            self.inv(),
            self.enabled(step),
            self.sem.acquire is Available,
            self.sem.available().poisoned(),
        ensures
            self.next(step).sem.acquire == self.sem.acquire,
    {
        self.law_step(step);
    }

    /// No thread is between two steps.
    pub open spec fn at_rest(self) -> bool {
        &&& self.owner is None
        &&& self.debts.len() == 0
        &&& forall|ptr: WaiterPtr| #[trigger]
            self.futures.contains_key(ptr) ==> self.futures[ptr] is Idle
    }

    /// When all threads have done what they had to do, no wake-up has been lost: waiters are
    /// pending only if the first one asks for more permits than there are.
    pub proof fn law_no_lost_wakeup(self)
        requires
            self.inv(),
            self.at_rest(),
        ensures
            self.sem.settled(),
    {
        let w = self.sem.waiters;
        assert forall|i: int| 0 <= i < w.queue.len() implies w.entries[#[trigger] w.queue[i]].waker.state is Pending by {
            let ptr = w.queue[i];
            assert(w.pending()[i] == ptr);
            assert(w.is_pending(ptr));
            assert(w.may_pend(ptr));
            assert(self.futures.contains_key(ptr));
            assert(w.fits_phase(ptr, self.futures[ptr]));
        }
        assert(w.pending() =~= w.queue);
    }

    /// Never more permits are handed out than were put in, poisoned or not: those that there are
    /// and those that were handed out are at most those that were put in. Unless there is poison,
    /// they are just those.
    pub proof fn law_limit(self)
        requires
            self.inv(),
        ensures
            self.granted <= self.supply,
            self.stock() + self.granted <= self.supply,
            !self.poisoned() ==> self.stock() + self.granted == self.supply,
    {
        lemma_total_positive(self.debts);
    }

    /// The step that the owner of the lock takes next.
    pub open spec fn owner_step(self) -> Step {
        let w = self.sem.waiters;
        match self.owner->0.phase {
            OwnerPhase::TakeCancels => Step::TakeCancels,
            OwnerPhase::Flip => Step::Flip,
            OwnerPhase::Cancel => if w.taken.len() > 0 {
                Step::CancelNext
            } else {
                Step::CancelsDone
            },
            OwnerPhase::Pop => if w.servable(self.carried()) {
                Step::Pop
            } else {
                Step::PopsDone
            },
            OwnerPhase::Close => Step::Close,
            OwnerPhase::Unlock => Step::TryUnlock,
        }
    }

    /// No thread is kept waiting: the owner of the lock can always go on, and so can a thread that
    /// has a release to start. Once there are none of these, a thread that waits for the acceptance
    /// of its cancellation can go on too.
    pub proof fn law_no_deadlock(self, ptr: WaiterPtr)
        requires
            self.inv(),
        ensures
            self.owner is Some ==> self.enabled(self.owner_step()),
            self.debts.len() > 0 ==> self.enabled(Step::Pay { i: 0 }),
            self.owner is None && self.debts.len() == 0 && self.future_in(ptr, FuturePhase::Pushed)
                ==> self.enabled(Step::Remove { ptr }),
    {
        if self.future_in(ptr, FuturePhase::Pushed) {
            assert(self.sem.waiters.fits_phase(ptr, self.futures[ptr]));
        }
    }

    /// How far the owner of the lock is from giving it back.
    pub open spec fn distance(self) -> nat {
        match self.owner {
            None => 0,
            Some(owner) => match owner.phase {
                OwnerPhase::TakeCancels => 6,
                OwnerPhase::Flip => 5,
                OwnerPhase::Cancel => 4,
                OwnerPhase::Pop => 3,
                OwnerPhase::Close => 2,
                OwnerPhase::Unlock => 1,
            },
        }
    }

    /// The waiters that the owner of the lock has yet to deal with before it goes on.
    pub open spec fn backlog(self) -> nat {
        if self.owner_in(OwnerPhase::Cancel) {
            self.sem.waiters.taken.len()
        } else if self.owner_in(OwnerPhase::Pop) {
            self.sem.waiters.queue.len()
        } else {
            0
        }
    }

    /// The releases come to an end: unless threads call for more, each step of the owner of the
    /// lock, and each release that is started, leaves less to do.
    pub proof fn law_progress(self, step: Step)
        requires
            self.inv(),
            self.enabled(step),
            step is Pay || self.owner is Some && step == self.owner_step(),
        ensures
            ({
                let after = self.next(step);
                let dirty = self.sem.release is LockedDirty;
                let still_dirty = after.sem.release is LockedDirty;
                ||| after.debts.len() < self.debts.len()
                ||| after.debts.len() == self.debts.len() && dirty && !still_dirty
                ||| after.debts.len() == self.debts.len() && dirty == still_dirty
                    && after.distance() < self.distance()
                ||| after.debts.len() == self.debts.len() && dirty == still_dirty
                    && after.distance() == self.distance() && after.backlog() < self.backlog()
            }),
    {
    }

    /// What a sequence of steps leaves.
    pub open spec fn run(self, steps: Seq<Step>) -> System
        decreases steps.len(),
    {
        if steps.len() == 0 {
            self
        } else {
            self.run(steps.drop_last()).next(steps.last())
        }
    }

    /// Each step of the sequence is one that a thread can take.
    pub open spec fn can_run(self, steps: Seq<Step>) -> bool
        decreases steps.len(),
    {
        steps.len() == 0 || self.can_run(steps.drop_last()) && self.run(
            steps.drop_last(),
        ).enabled(steps.last())
    }

    /// What holds of every state, and poison, lasts through any sequence of steps.
    pub proof fn law_run(self, steps: Seq<Step>)
        requires
            self.inv(),
            self.can_run(steps),
        ensures
            self.run(steps).inv(),
            self.poisoned() ==> self.run(steps).poisoned(),
        decreases steps.len(),
    {
        if steps.len() > 0 {
            self.law_run(steps.drop_last());
            self.run(steps.drop_last()).law_step(steps.last());
        }
    }

    /// Poison is permanent: whatever sequence of steps threads take after acquires have found it,
    /// no attempt succeeds and no acquire gets permits, for any amount.
    pub proof fn law_poison_forever(self, steps: Seq<Step>, amount: usize)
        requires
            self.inv(),
            self.can_run(steps),
            self.sem.acquire is Available,
            self.sem.available().poisoned(),
        ensures
            ({
                let after = self.run(steps).sem;
                &&& after.acquire == self.sem.acquire
                &&& refusal(after.acquire, amount) == Some(TryAcquireError::Poisoned)
                &&& entry(after.acquire, amount) == Some(Err::<(), PoisonError>(PoisonError))
            }),
        decreases steps.len(),
    {
        if steps.len() > 0 {
            self.law_poison_forever(steps.drop_last(), amount);
            self.law_run(steps.drop_last());
            self.run(steps.drop_last()).law_poison_found(steps.last());
        }
    }

    /// Poison arrives: wherever it was put in, and whatever sequence of steps follows, once no
    /// release is in progress or still to be started no acquire gets permits. Acquires find the
    /// poison, unless the first waiter is about to tell that it is cancelled.
    pub proof fn law_poison_arrives(self, steps: Seq<Step>, amount: usize)
        requires
            self.inv(),
            self.can_run(steps),
            self.poisoned(),
            self.run(steps).owner is None,
            self.run(steps).debts.len() == 0,
        ensures
            ({
                let after = self.run(steps).sem;
                &&& refusal(after.acquire, amount) is Some
                &&& entry(after.acquire, amount) != Some(Ok::<(), PoisonError>(()))
                &&& !after.waiters.first_cancelling() ==> {
                    &&& after.acquire is Available
                    &&& after.available().poisoned()
                    &&& after.waiters.pending().len() == 0
                    &&& refusal(after.acquire, amount) == Some(TryAcquireError::Poisoned)
                    &&& entry(after.acquire, amount) == Some(Err::<(), PoisonError>(PoisonError))
                }
            }),
    {
        self.law_run(steps);
        assert(!any_poisoned(self.run(steps).debts));
    }

    /// Each call that a thread makes for its step is one that the called function admits.
    pub proof fn law_calls_admitted(self, step: Step)
        requires
            self.inv(),
            self.enabled(step),
        ensures
            ({
                let sem = self.sem;
                let w = sem.waiters;
                match step {
                    Step::Enter { ptr, .. } => (AcquireFuture { waiter: ptr }).entering(sem),
                    Step::TakeCancels | Step::TryUnlock => sem.locked() && w.taken.len() == 0,
                    Step::Flip | Step::Close | Step::CancelsDone | Step::PopsDone => sem.locked(),
                    Step::CancelNext => sem.locked() && forall|ptr: WaiterPtr| #[trigger]
                        w.taken.contains(ptr) ==> w.queue.contains(ptr),
                    Step::Pop => sem.locked() && w.queue.len() > 0,
                    Step::BeginPoll { ptr } | Step::EndFinished { ptr } | Step::StartCancel {
                        ptr,
                        ..
                    } => (AcquireFuture { waiter: ptr }).waiting(sem),
                    Step::StoreWaker { ptr, .. } => w.entries.contains_key(ptr) && (
                    w.entries[ptr].waker.state is Storing || w.entries[ptr].waker.state is Finished),
                    Step::EndPoll { ptr } => {
                        let seq = self.futures[ptr]->Storing_seq;
                        &&& w.entries.contains_key(ptr)
                        &&& w.entries[ptr].waker.state is Finished || w.entries[ptr].waker.state
                            == (State::Storing { seq })
                        &&& w.entries[ptr].waker.vtable != 0
                        &&& seq < seqs()
                    },
                    Step::PushCancel { ptr } => w.may_cancel(ptr) && !(w.taken
                        + w.cancels).contains(ptr),
                    Step::Remove { ptr } => {
                        &&& w.entries.contains_key(ptr)
                        &&& !w.pending().contains(ptr)
                        &&& w.entries[ptr].waker.idle() || w.entries[ptr].waker.state is Cancelled
                    },
                    _ => true,
                }
            }),
    {
        let w = self.sem.waiters;
        match step {
            Step::Enter { ptr, .. }
            | Step::BeginPoll { ptr }
            | Step::EndFinished { ptr }
            | Step::StartCancel { ptr, .. }
            | Step::StoreWaker { ptr, .. }
            | Step::EndPoll { ptr }
            | Step::PushCancel { ptr }
            | Step::Remove { ptr } => {
                assert(w.fits_phase(ptr, self.futures[ptr]));
            },
            _ => {},
        }
    }

    /// A future that is neither being polled nor being dropped can be dropped as a whole. If it
    /// has not been polled it can be polled for the first time, and if it waits, once more.
    pub proof fn law_idle(self, ptr: WaiterPtr)
        requires
            self.inv(),
            self.future_in(ptr, FuturePhase::Idle),
        ensures
            ({
                let future = AcquireFuture { waiter: ptr };
                &&& future.droppable(self.sem)
                &&& future.step(self.sem) is Entering ==> future.entering(self.sem)
                &&& future.step(self.sem) is Waiting ==> future.waiting(self.sem)
            }),
    {
        assert(self.sem.waiters.fits_phase(ptr, self.futures[ptr]));
    }

    /// Who is pending after a step: a new waiter comes last, the first one leaves when it is
    /// served, and one leaves when its cancellation is accepted. Nothing else changes the order.
    pub proof fn law_order(self, step: Step)
        requires
            self.inv(),
            self.enabled(step),
        ensures
            self.next(step).sem.waiters.pending() == match step {
                Step::Enter { ptr, .. } => if entry(
                    self.sem.acquire,
                    self.sem.waiters.entries[ptr].amount,
                ) is None {
                    self.sem.waiters.pending().push(ptr)
                } else {
                    self.sem.waiters.pending()
                },
                Step::Pop => self.sem.waiters.pending().skip(1),
                Step::CancelNext => without(
                    self.sem.waiters.pending(),
                    seq![self.sem.waiters.taken[0]],
                ),
                _ => self.sem.waiters.pending(),
            },
    {
        let w = self.sem.waiters;
        let v = self.next(step).sem.waiters;
        match step {
            Step::Enter { ptr, waker, stored } => {
                assert(w.fits_phase(ptr, self.futures[ptr]));
                assert(v.pending() =~= if entry(self.sem.acquire, w.entries[ptr].amount) is None {
                    w.pending().push(ptr)
                } else {
                    w.pending()
                });
            },
            Step::Flip | Step::Close => {
                w.lemma_all_linked();
            },
            Step::Pop => {
                assert(v.pending() =~= w.pending().skip(1));
            },
            Step::CancelNext => {
                let ptr = w.taken[0];
                let f = |x: WaiterPtr| !seq![ptr].contains(x);
                assert(w.taken.contains(ptr));
                w.lemma_pending_cancelled(ptr);
                Seq::filter_distributes_over_add(w.queue, w.stack, f);
                assert(seq![ptr][0] == ptr);
                lemma_contains_sum(v.queue, v.stack, ptr);
                assert(!w.stack.contains(ptr));
                lemma_without_other(w.stack, ptr);
            },
            _ => {},
        }
    }

    /// First come, first served: a waiter is not finished while one that came before it is
    /// pending.
    pub proof fn law_fifo(self, step: Step, first: WaiterPtr, second: WaiterPtr)
        requires
            self.inv(),
            self.enabled(step),
            self.sem.waiters.precedes(first, second),
        ensures
            ({
                let after = self.next(step).sem.waiters;
                &&& after.is_pending(first) && after.is_pending(second) ==> after.precedes(
                    first,
                    second,
                )
                &&& after.entries.contains_key(second) ==> !(
                after.entries[second].waker.state is Finished)
            }),
    {
        let w = self.sem.waiters;
        let v = self.next(step).sem.waiters;
        let p = w.pending();
        let q = v.pending();
        let (i, j) = choose|i: int, j: int|
            0 <= i < j < p.len() && #[trigger] p[i] == first && #[trigger] p[j] == second;
        self.law_order(step);
        assert(p.contains(p[j]));
        assert(p.contains(p[i]));
        assert(w.may_pend(second));
        match step {
            Step::Enter { ptr, waker, stored } => {
                assert(w.fits_phase(ptr, self.futures[ptr]));
                assert(q[i] == first && q[j] == second);
            },
            Step::Pop => {
                assert(p[0] == w.queue[0]);
                if i > 0 {
                    assert(q[i - 1] == first && q[j - 1] == second);
                } else if v.is_pending(first) {
                    self.sem.waiters.lemma_popped(self.carried().poisoned());
                    w.lemma_pending_popped(self.carried().poisoned(), first);
                }
            },
            Step::CancelNext => {
                let ptr = w.taken[0];
                assert(w.taken.contains(ptr));
                w.lemma_pending_cancelled(first);
                w.lemma_pending_cancelled(second);
                if v.is_pending(first) && v.is_pending(second) {
                    let k = choose|k: int| 0 <= k < p.len() && p[k] == ptr;
                    lemma_without_one(p, k);
                    assert(q[if i < k { i } else { i - 1 }] == first);
                    assert(q[if j < k { j } else { j - 1 }] == second);
                }
            },
            Step::EndPoll { ptr } | Step::StartCancel { ptr, .. } | Step::Remove { ptr } => {
                assert(w.fits_phase(ptr, self.futures[ptr]));
                assert(q[i] == first && q[j] == second);
            },
            _ => {
                assert(q[i] == first && q[j] == second);
            },
        }
    }

    /// What has been decided about a waiter stays: one that is finished is not cancelled or
    /// finished again, and one whose cancellation was accepted is never finished.
    pub proof fn law_decided(self, step: Step, ptr: WaiterPtr)
        requires
            self.inv(),
            self.enabled(step),
            self.sem.waiters.entries.contains_key(ptr),
            self.sem.waiters.entries[ptr].waker.state is Finished
                || self.sem.waiters.entries[ptr].waker.state is Cancelled,
        ensures
            self.next(step).sem.waiters.entries.contains_key(ptr)
                ==> self.next(step).sem.waiters.entries[ptr].waker.state
                == self.sem.waiters.entries[ptr].waker.state,
    {
        let w = self.sem.waiters;
        assert(self.futures.contains_key(ptr));
        assert(w.fits_phase(ptr, self.futures[ptr]));
        match step {
            Step::Pop => {
                assert(w.pending()[0] == w.queue[0]);
                assert(w.is_pending(w.queue[0]));
            },
            Step::CancelNext => {
                assert(w.taken.contains(w.taken[0]));
                w.lemma_taken(w.taken[0]);
            },
            Step::Enter { ptr: x, .. } | Step::EndPoll { ptr: x } => {
                assert(w.fits_phase(x, self.futures[x]));
            },
            _ => {},
        }
    }
}

} // verus!
