use crate::state::{AcquireStep, WaiterPtr};
use crate::table::{max_waiters, Waiter, WaiterTable};
use crate::waker::{AtomicWaker, Effect, State, WakerResult, WakerView};
use vstd::prelude::*;

verus! {

/// What a waiter is apart from its place in the lists.
pub struct WaiterView {
    pub semaphore: usize,
    pub amount: usize,
    pub step: AcquireStep,
    pub waker: WakerView,
}

/// The waiters of a semaphore and the lists that they are in.
#[verifier::ext_equal]
pub struct WaitersView {
    /// The pending waiters that are linked, in the order of their arrival.
    pub queue: Seq<WaiterPtr>,
    /// The pending waiters that arrived after those of `queue`, in the order of their arrival.
    pub stack: Seq<WaiterPtr>,
    /// The waiters that wait for the acceptance of their cancellation, the last one first.
    pub cancels: Seq<WaiterPtr>,
    /// Those among them that the owner of the release lock has taken, in the order in which it
    /// will accept them.
    pub taken: Seq<WaiterPtr>,
    /// All waiters, pending or not.
    pub entries: Map<WaiterPtr, WaiterView>,
}

/// The element at `i`, null outside of the bounds.
pub open spec fn at(s: Seq<WaiterPtr>, i: int) -> WaiterPtr {
    if 0 <= i < s.len() {
        s[i]
    } else {
        WaiterPtr(0)
    }
}

/// `s` without the elements of `t`.
pub open spec fn without(s: Seq<WaiterPtr>, t: Seq<WaiterPtr>) -> Seq<WaiterPtr> {
    s.filter(|ptr: WaiterPtr| !t.contains(ptr))
}

impl WaitersView {
    /// The waiters that wait for permits, in the order of their arrival.
    pub open spec fn pending(self) -> Seq<WaiterPtr> {
        self.queue + self.stack
    }

    /// Pending waiters are there once and can be finished or cancelled. Those that wait for the
    /// acceptance of their cancellation are there once and pending.
    pub open spec fn ok(self) -> bool {
        &&& self.pending().no_duplicates()
        &&& forall|ptr: WaiterPtr| #[trigger] self.pending().contains(ptr) ==> self.may_pend(ptr)
        &&& (self.taken + self.cancels).no_duplicates()
        &&& forall|ptr: WaiterPtr| #[trigger]
            (self.taken + self.cancels).contains(ptr) ==> self.may_cancel(ptr)
        &&& forall|ptr: WaiterPtr| #[trigger]
            self.entries.contains_key(ptr) ==> ptr != WaiterPtr(0) && ptr.aligned()
    }

    pub open spec fn may_pend(self, ptr: WaiterPtr) -> bool {
        &&& self.entries.contains_key(ptr)
        &&& self.entries[ptr].waker.unfinished()
        &&& self.entries[ptr].step is Waiting
    }

    pub open spec fn may_cancel(self, ptr: WaiterPtr) -> bool {
        &&& self.pending().contains(ptr)
        &&& self.entries[ptr].waker.state is Cancelling
    }

    pub open spec fn with_waker(self, ptr: WaiterPtr, waker: WakerView) -> WaitersView {
        WaitersView {
            entries: self.entries.insert(ptr, WaiterView { waker, ..self.entries[ptr] }),
            ..self
        }
    }

    pub open spec fn with_step(self, ptr: WaiterPtr, step: AcquireStep) -> WaitersView {
        WaitersView {
            entries: self.entries.insert(ptr, WaiterView { step, ..self.entries[ptr] }),
            ..self
        }
    }
}

impl WaitersView {
    /// There is a new waiter, not pending yet.
    pub open spec fn inserted(self, ptr: WaiterPtr, semaphore: usize, amount: usize) -> WaitersView {
        WaitersView {
            entries: self.entries.insert(
                ptr,
                WaiterView {
                    semaphore,
                    amount,
                    step: AcquireStep::Entering,
                    waker: WakerView {
                        state: State::Pending { seq: 0 },
                        data: 0,
                        vtable: 0,
                        thread: None,
                    },
                },
            ),
            ..self
        }
    }

    /// A waiter that is not pending is removed.
    pub open spec fn removed(self, ptr: WaiterPtr) -> WaitersView {
        WaitersView { entries: self.entries.remove(ptr), ..self }
    }

    /// A waiter becomes pending, after all others.
    pub open spec fn pushed(self, ptr: WaiterPtr) -> WaitersView {
        (WaitersView { stack: self.stack.push(ptr), ..self }).with_step(ptr, AcquireStep::Waiting)
    }

    /// The waiters that arrived last are linked.
    pub open spec fn all_linked(self) -> WaitersView {
        WaitersView { queue: self.pending(), stack: seq![], ..self }
    }

    /// A pending waiter waits for the acceptance of its cancellation.
    pub open spec fn cancel_pushed(self, ptr: WaiterPtr) -> WaitersView {
        WaitersView { cancels: seq![ptr] + self.cancels, ..self }
    }

    /// The owner of the release lock takes all cancellations.
    pub open spec fn cancels_taken(self) -> WaitersView {
        WaitersView { cancels: seq![], taken: self.cancels, ..self }
    }

    /// The first cancellation that was taken is accepted: its waiter is not pending any more.
    pub open spec fn next_cancelled(self) -> WaitersView {
        let ptr = self.taken[0];
        (WaitersView {
            queue: without(self.queue, seq![ptr]),
            taken: self.taken.skip(1),
            ..self
        }).with_waker(ptr, self.entries[ptr].waker.cancel_accepted())
    }

    /// All cancellations that were taken are accepted.
    pub open spec fn all_cancelled(self) -> WaitersView {
        WaitersView {
            queue: without(self.queue, self.taken),
            taken: seq![],
            entries: self.entries.map_entries(
                |ptr: WaiterPtr, waiter: WaiterView|
                    if self.taken.contains(ptr) {
                        WaiterView { waker: waiter.waker.cancel_accepted(), ..waiter }
                    } else {
                        waiter
                    },
            ),
            ..self
        }
    }

    /// The threads that are unparked when all cancellations that were taken are accepted.
    pub open spec fn cancel_effects(self) -> Seq<Effect> {
        self.taken.map_values(|ptr: WaiterPtr| Effect::Unpark(self.entries[ptr].waker.thread->0))
    }

    /// The first pending waiter is finished.
    pub open spec fn popped(self, poisoned: bool) -> WaitersView {
        let ptr = self.queue[0];
        (WaitersView { queue: self.queue.skip(1), ..self }).with_waker(
            ptr,
            self.entries[ptr].waker.finished(poisoned),
        )
    }

    pub proof fn lemma_pushed(self, ptr: WaiterPtr)
        requires
            self.ok(),
            self.entries.contains_key(ptr),
            self.entries[ptr].step is Entering,
            self.entries[ptr].waker.unfinished(),
        ensures
            !self.pending().contains(ptr),
            self.pushed(ptr).pending() == self.pending().push(ptr),
            self.pushed(ptr).ok(),
    {
        let w = self.pushed(ptr);
        let p = self.pending();
        assert(w.pending() =~= p.push(ptr));
        assert(w.taken + w.cancels == self.taken + self.cancels);
        assert(w.entries.dom() =~= self.entries.dom());
        assert(!p.contains(ptr));
        assert forall|i: int, j: int|
            0 <= i < w.pending().len() && 0 <= j < w.pending().len() && i
                != j implies w.pending()[i] != w.pending()[j] by {
            if i == p.len() {
                assert(p.contains(p[j]));
            } else if j == p.len() {
                assert(p.contains(p[i]));
            } else {
                assert(p[i] != p[j]);
            }
        }
        assert forall|x: WaiterPtr| #[trigger] w.pending().contains(x) implies w.may_pend(x) by {
            let i = choose|i: int| 0 <= i < w.pending().len() && w.pending()[i] == x;
            if x != ptr {
                assert(p[i] == x);
                assert(p.contains(x));
            }
        }
        assert forall|x: WaiterPtr| #[trigger]
            (w.taken + w.cancels).contains(x) implies w.may_cancel(x) by {
            assert(self.may_cancel(x));
            let i = choose|i: int| 0 <= i < p.len() && p[i] == x;
            assert(w.pending()[i] == x);
        }
    }

    pub proof fn lemma_all_linked(self)
        requires
            self.ok(),
        ensures
            self.all_linked().pending() == self.pending(),
            self.all_linked().ok(),
    {
        assert(self.all_linked().pending() =~= self.pending());
    }

    pub proof fn lemma_cancel_pushed(self, ptr: WaiterPtr)
        requires
            self.ok(),
            self.may_cancel(ptr),
            !(self.taken + self.cancels).contains(ptr),
        ensures
            self.cancel_pushed(ptr).ok(),
    {
        let w = self.cancel_pushed(ptr);
        let c = self.taken + self.cancels;
        let d = w.taken + w.cancels;
        let n = self.taken.len();
        assert(w.pending() == self.pending());
        assert forall|i: int| 0 <= i < d.len() && i != n implies c.contains(#[trigger] d[i]) by {
            assert(d[i] == c[if i < n { i } else { i - 1 }]);
        }
        assert forall|i: int, j: int| 0 <= i < d.len() && 0 <= j < d.len() && i != j implies d[i]
            != d[j] by {
            if i != n && j != n {
                assert(d[i] == c[if i < n { i } else { i - 1 }]);
                assert(d[j] == c[if j < n { j } else { j - 1 }]);
            }
        }
        assert forall|x: WaiterPtr| #[trigger] d.contains(x) implies w.may_cancel(x) by {
            let i = choose|i: int| 0 <= i < d.len() && d[i] == x;
            if i != n {
                assert(c.contains(d[i]));
                assert(self.may_cancel(x));
            }
        }
    }

    pub proof fn lemma_cancels_taken(self)
        requires
            self.ok(),
            self.taken.len() == 0,
        ensures
            self.cancels_taken().ok(),
    {
        let w = self.cancels_taken();
        assert(w.taken + w.cancels =~= self.taken + self.cancels);
        assert(w.pending() == self.pending());
    }

    pub proof fn lemma_with_waker(self, ptr: WaiterPtr, waker: WakerView)
        requires
            self.ok(),
            self.entries.contains_key(ptr),
            self.pending().contains(ptr) ==> waker.unfinished(),
            (self.taken + self.cancels).contains(ptr) ==> waker.state is Cancelling,
        ensures
            self.with_waker(ptr, waker).ok(),
    {
        let w = self.with_waker(ptr, waker);
        assert(w.pending() == self.pending());
        assert(w.taken + w.cancels == self.taken + self.cancels);
        assert forall|x: WaiterPtr| #[trigger] w.pending().contains(x) implies w.may_pend(x) by {
            assert(self.may_pend(x));
        }
        assert forall|x: WaiterPtr| #[trigger]
            (w.taken + w.cancels).contains(x) implies w.may_cancel(x) by {
            assert(self.may_cancel(x));
        }
    }

    pub proof fn lemma_with_step(self, ptr: WaiterPtr, step: AcquireStep)
        requires
            self.ok(),
            self.entries.contains_key(ptr),
            !self.pending().contains(ptr),
        ensures
            self.with_step(ptr, step).ok(),
    {
        let w = self.with_step(ptr, step);
        assert(w.pending() == self.pending());
        assert(w.taken + w.cancels == self.taken + self.cancels);
        assert forall|x: WaiterPtr| #[trigger] w.pending().contains(x) implies w.may_pend(x) by {
            assert(self.may_pend(x));
        }
        assert forall|x: WaiterPtr| #[trigger]
            (w.taken + w.cancels).contains(x) implies w.may_cancel(x) by {
            assert(self.may_cancel(x));
        }
    }

    pub proof fn lemma_removed(self, ptr: WaiterPtr)
        requires
            self.ok(),
            !self.pending().contains(ptr),
        ensures
            self.removed(ptr).ok(),
    {
        let w = self.removed(ptr);
        assert(w.pending() == self.pending());
        assert(w.taken + w.cancels == self.taken + self.cancels);
        assert forall|x: WaiterPtr| #[trigger] w.pending().contains(x) implies w.may_pend(x) by {
            assert(self.may_pend(x));
        }
        assert forall|x: WaiterPtr| #[trigger]
            (w.taken + w.cancels).contains(x) implies w.may_cancel(x) by {
            assert(self.may_cancel(x));
        }
    }

    pub proof fn lemma_popped(self, poisoned: bool)
        requires
            self.ok(),
            self.queue.len() > 0,
            !(self.entries[self.queue[0]].waker.state is Cancelling),
        ensures
            self.popped(poisoned).pending() == self.pending().skip(1),
            self.popped(poisoned).ok(),
    {
        let w = self.popped(poisoned);
        let p = self.pending();
        let ptr = self.queue[0];
        assert(w.pending() =~= p.skip(1));
        assert(p[0] == ptr);
        assert(p.contains(ptr));
        assert(w.taken + w.cancels == self.taken + self.cancels);
        assert forall|x: WaiterPtr| #[trigger] w.pending().contains(x) implies w.may_pend(x) by {
            let i = choose|i: int| 0 <= i < w.pending().len() && w.pending()[i] == x;
            assert(p[i + 1] == x);
            assert(p.contains(x));
            assert(self.may_pend(x));
        }
        assert forall|x: WaiterPtr| #[trigger]
            (w.taken + w.cancels).contains(x) implies w.may_cancel(x) by {
            assert(self.may_cancel(x));
            let i = choose|i: int| 0 <= i < p.len() && p[i] == x;
            assert(w.pending()[i - 1] == x);
        }
    }

    /// A new waiter is not in any list, and the others stay as they are.
    pub proof fn lemma_inserted(self, ptr: WaiterPtr, semaphore: usize, amount: usize)
        requires
            self.ok(),
            !self.entries.contains_key(ptr),
            ptr != WaiterPtr(0),
            ptr.aligned(),
        ensures
            self.inserted(ptr, semaphore, amount).ok(),
            self.inserted(ptr, semaphore, amount).pending() == self.pending(),
            !self.pending().contains(ptr),
            !(self.taken + self.cancels).contains(ptr),
    {
        let v = self.inserted(ptr, semaphore, amount);
        assert(v.pending() == self.pending());
        assert forall|x: WaiterPtr| #[trigger] v.pending().contains(x) implies v.may_pend(x) by {
            assert(self.may_pend(x));
        }
        assert forall|x: WaiterPtr| #[trigger]
            (v.taken + v.cancels).contains(x) implies v.may_cancel(x) by {
            assert(self.may_cancel(x));
            assert(self.may_pend(x));
        }
        if self.pending().contains(ptr) {
            assert(self.may_pend(ptr));
        }
        if (self.taken + self.cancels).contains(ptr) {
            assert(self.may_cancel(ptr));
        }
    }

    pub proof fn lemma_next_cancelled(self)
        requires
            self.ok(),
            self.taken.len() > 0,
            self.queue.contains(self.taken[0]),
        ensures
            self.next_cancelled().queue == self.queue.remove(self.queue.index_of(self.taken[0])),
            self.next_cancelled().ok(),
    {
        let w = self.next_cancelled();
        let ptr = self.taken[0];
        let k = self.queue.index_of(ptr);
        let p = self.pending();
        let c = self.taken + self.cancels;
        lemma_distinct(self.queue, self.stack);
        lemma_without_one(self.queue, k);
        assert(w.pending() =~= p.remove(k));
        assert(w.taken + w.cancels =~= c.skip(1));
        assert(c[0] == ptr);
        assert(c.contains(ptr));
        assert forall|x: WaiterPtr| #[trigger] w.pending().contains(x) implies w.may_pend(x) by {
            let i = choose|i: int| 0 <= i < w.pending().len() && w.pending()[i] == x;
            let j = if i < k { i } else { i + 1 };
            assert(p[j] == x);
            assert(p.contains(x));
            assert(self.may_pend(x));
            assert(p[k] == ptr);
        }
        assert forall|x: WaiterPtr| #[trigger]
            (w.taken + w.cancels).contains(x) implies w.may_cancel(x) by {
            let i = choose|i: int|
                0 <= i < (w.taken + w.cancels).len() && (w.taken + w.cancels)[i] == x;
            assert(c[i + 1] == x);
            assert(c.contains(x));
            assert(self.may_cancel(x));
            let j = choose|j: int| 0 <= j < p.len() && p[j] == x;
            assert(p[k] == ptr);
            assert(w.pending()[if j < k { j } else { j - 1 }] == x);
        }
    }
}

/// What is left out and what is not.
pub proof fn lemma_without_contains(s: Seq<WaiterPtr>, t: Seq<WaiterPtr>, ptr: WaiterPtr)
    ensures
        without(s, t).contains(ptr) == (s.contains(ptr) && !t.contains(ptr)),
    decreases s.len(),
{
    let f = |ptr: WaiterPtr| !t.contains(ptr);
    reveal(Seq::filter);
    if s.len() > 0 {
        let r = s.drop_last();
        let x = s.last();
        lemma_without_contains(r, t, ptr);
        assert(s.contains(ptr) == (r.contains(ptr) || x == ptr)) by {
            if s.contains(ptr) && x != ptr {
                let i = choose|i: int| 0 <= i < s.len() && s[i] == ptr;
                assert(r[i] == ptr);
            }
            if r.contains(ptr) {
                let i = choose|i: int| 0 <= i < r.len() && r[i] == ptr;
                assert(s[i] == ptr);
            }
            if x == ptr {
                assert(s[s.len() - 1] == ptr);
            }
        }
        if f(x) {
            let u = r.filter(f);
            assert(s.filter(f) == u.push(x));
            assert(u.push(x).contains(ptr) == (u.contains(ptr) || x == ptr)) by {
                if u.push(x).contains(ptr) && x != ptr {
                    let i = choose|i: int| 0 <= i < u.push(x).len() && u.push(x)[i] == ptr;
                    assert(u[i] == ptr);
                }
                if u.contains(ptr) {
                    let i = choose|i: int| 0 <= i < u.len() && u[i] == ptr;
                    assert(u.push(x)[i] == ptr);
                }
                if x == ptr {
                    assert(u.push(x)[u.len() as int] == ptr);
                }
            }
        } else {
            assert(s.filter(f) == r.filter(f));
        }
    }
}

/// Leaving out elements in two goes.
pub proof fn lemma_without_twice(s: Seq<WaiterPtr>, a: Seq<WaiterPtr>, b: Seq<WaiterPtr>)
    ensures
        without(without(s, a), b) == without(s, a + b),
    decreases s.len(),
{
    let f = |ptr: WaiterPtr| !a.contains(ptr);
    reveal(Seq::filter);
    if s.len() > 0 {
        let r = s.drop_last();
        let x = s.last();
        lemma_without_twice(r, a, b);
        assert((a + b).contains(x) == (a.contains(x) || b.contains(x))) by {
            if a.contains(x) {
                let i = choose|i: int| 0 <= i < a.len() && a[i] == x;
                assert((a + b)[i] == x);
            }
            if b.contains(x) {
                let i = choose|i: int| 0 <= i < b.len() && b[i] == x;
                assert((a + b)[a.len() + i] == x);
            }
        }
        if f(x) {
            assert(s.filter(f) == r.filter(f).push(x));
            assert(r.filter(f).push(x).drop_last() =~= r.filter(f));
            assert(r.filter(f).push(x).last() == x);
        }
    }
}

/// Leaving out nothing.
pub proof fn lemma_without_none(s: Seq<WaiterPtr>)
    ensures
        without(s, seq![]) == s,
{
    lemma_filter_all(s, |ptr: WaiterPtr| !Seq::<WaiterPtr>::empty().contains(ptr));
}

impl WaitersView {
    /// Accepting the first cancellation and then the others is accepting all.
    pub proof fn lemma_all_cancelled(self)
        requires
            self.ok(),
            self.taken.len() > 0,
            self.queue.contains(self.taken[0]),
        ensures
            self.next_cancelled().all_cancelled() == self.all_cancelled(),
            seq![Effect::Unpark(self.entries[self.taken[0]].waker.thread->0)]
                + self.next_cancelled().cancel_effects() == self.cancel_effects(),
            forall|ptr: WaiterPtr| #[trigger]
                self.queue.contains(ptr) && ptr != self.taken[0]
                    ==> self.next_cancelled().queue.contains(ptr),
    {
        let w = self.next_cancelled();
        let ptr = self.taken[0];
        let k = self.queue.index_of(ptr);
        assert(seq![ptr] + w.taken =~= self.taken);
        lemma_without_twice(self.queue, seq![ptr], w.taken);
        lemma_distinct(self.taken, self.cancels);
        assert(!w.taken.contains(ptr));
        assert forall|x: WaiterPtr| self.taken.contains(x) == (x == ptr || w.taken.contains(x)) by {
            if self.taken.contains(x) && x != ptr {
                let i = choose|i: int| 0 <= i < self.taken.len() && self.taken[i] == x;
                assert(w.taken[i - 1] == x);
            }
            if w.taken.contains(x) {
                let i = choose|i: int| 0 <= i < w.taken.len() && w.taken[i] == x;
                assert(self.taken[i + 1] == x);
            }
        }
        assert((self.taken + self.cancels).contains(ptr)) by {
            assert((self.taken + self.cancels)[0] == ptr);
        }
        assert(self.may_cancel(ptr));
        assert(self.may_pend(ptr));
        assert(w.all_cancelled().entries =~= self.all_cancelled().entries);
        assert(w.all_cancelled() =~= self.all_cancelled());
        assert(seq![Effect::Unpark(self.entries[ptr].waker.thread->0)] + w.cancel_effects()
            =~= self.cancel_effects());
        self.lemma_next_cancelled();
        assert forall|x: WaiterPtr| #[trigger]
            self.queue.contains(x) && x != ptr implies w.queue.contains(x) by {
            let i = choose|i: int| 0 <= i < self.queue.len() && self.queue[i] == x;
            assert(self.queue[k] == ptr);
            assert(w.queue[if i < k { i } else { i - 1 }] == x);
        }
    }

    pub proof fn lemma_none_cancelled(self)
        requires
            self.taken.len() == 0,
        ensures
            self.all_cancelled() == self,
            self.cancel_effects() == Seq::<Effect>::empty(),
    {
        assert(self.taken =~= seq![]);
        lemma_without_none(self.queue);
        assert(self.all_cancelled().entries =~= self.entries);
        assert(self.all_cancelled() =~= self);
    }
}

/// Leaving out the one element at `k`.
pub proof fn lemma_without_one(s: Seq<WaiterPtr>, k: int)
    requires
        s.no_duplicates(),
        0 <= k < s.len(),
    ensures
        without(s, seq![s[k]]) == s.remove(k),
{
    let f = |ptr: WaiterPtr| !seq![s[k]].contains(ptr);
    let a = s.take(k);
    let b = s.skip(k + 1);
    assert(s =~= a + seq![s[k]] + b);
    Seq::filter_distributes_over_add(a + seq![s[k]], b, f);
    Seq::filter_distributes_over_add(a, seq![s[k]], f);
    lemma_filter_all(a, f);
    lemma_filter_all(b, f);
    reveal_with_fuel(Seq::filter, 2);
    assert(seq![s[k]][0] == s[k]);
    assert(seq![s[k]].drop_last() =~= Seq::<WaiterPtr>::empty());
    assert(seq![s[k]].filter(f) =~= Seq::<WaiterPtr>::empty());
    assert(a + b =~= s.remove(k));
}

/// A filter that every element passes.
proof fn lemma_filter_all(s: Seq<WaiterPtr>, f: spec_fn(WaiterPtr) -> bool)
    requires
        forall|i: int| 0 <= i < s.len() ==> f(#[trigger] s[i]),
    ensures
        s.filter(f) == s,
    decreases s.len(),
{
    reveal(Seq::filter);
    if s.len() > 0 {
        lemma_filter_all(s.drop_last(), f);
        assert(s =~= s.drop_last().push(s.last()));
    }
}

/// The waiters of a semaphore, linked into the lists of which `WaitersView` speaks.
pub struct Waiters {
    table: WaiterTable,
    /// The front of the queue.
    front: WaiterPtr,
    /// The back of the queue.
    middle: WaiterPtr,
    queue: Ghost<Seq<WaiterPtr>>,
    stack: Ghost<Seq<WaiterPtr>>,
    cancels: Ghost<Seq<WaiterPtr>>,
    taken: Ghost<Seq<WaiterPtr>>,
}

spec fn waiter_view(waiter: Waiter) -> WaiterView {
    WaiterView {
        semaphore: waiter.semaphore,
        amount: waiter.amount,
        step: waiter.step,
        waker: waiter.waker@,
    }
}

/// The waiters of `queue` have edges in both directions.
spec fn linked(table: Map<WaiterPtr, Waiter>, queue: Seq<WaiterPtr>) -> bool {
    forall|i: int|
        0 <= i < queue.len() ==> table.contains_key(#[trigger] queue[i]) && table[queue[i]].prev
            == at(queue, i - 1) && table[queue[i]].next == at(queue, i + 1)
}

/// The waiters of `stack` have edges to earlier ones only.
spec fn stacked(table: Map<WaiterPtr, Waiter>, stack: Seq<WaiterPtr>) -> bool {
    forall|i: int|
        0 <= i < stack.len() ==> table.contains_key(#[trigger] stack[i]) && table[stack[i]].prev
            == at(stack, i - 1) && table[stack[i]].next == WaiterPtr(0)
}

/// The waiters of `cancels` have edges to the next ones.
spec fn chained(table: Map<WaiterPtr, Waiter>, cancels: Seq<WaiterPtr>) -> bool {
    forall|i: int|
        0 <= i < cancels.len() ==> table.contains_key(#[trigger] cancels[i])
            && table[cancels[i]].next_cancel == at(cancels, i + 1)
}

/// Links change as they do when the waiter at `k` is removed from the queue.
spec fn unlinked(
    old: Map<WaiterPtr, Waiter>,
    new: Map<WaiterPtr, Waiter>,
    queue: Seq<WaiterPtr>,
    k: int,
) -> bool {
    &&& new.dom() =~= old.dom()
    &&& forall|ptr: WaiterPtr| #[trigger]
        old.contains_key(ptr) ==> {
            &&& new[ptr].next == if ptr == at(queue, k - 1) {
                at(queue, k + 1)
            } else {
                old[ptr].next
            }
            &&& new[ptr].prev == if ptr == at(queue, k + 1) {
                at(queue, k - 1)
            } else {
                old[ptr].prev
            }
        }
}

proof fn lemma_unlinked(
    old: Map<WaiterPtr, Waiter>,
    new: Map<WaiterPtr, Waiter>,
    queue: Seq<WaiterPtr>,
    k: int,
)
    requires
        linked(old, queue),
        0 <= k < queue.len(),
        !queue.contains(WaiterPtr(0)),
        queue.no_duplicates(),
        unlinked(old, new, queue, k),
    ensures
        linked(new, queue.remove(k)),
{
    let r = queue.remove(k);
    assert forall|i: int| 0 <= i < r.len() implies new.contains_key(#[trigger] r[i])
        && new[r[i]].prev == at(r, i - 1) && new[r[i]].next == at(r, i + 1) by {
        let j = if i < k {
            i
        } else {
            i + 1
        };
        assert(r[i] == queue[j]);
        assert(old.contains_key(queue[j]));
        assert(at(queue, j) == queue[j]);
        assert(queue[j] == at(queue, k - 1) <==> j == k - 1) by {
            assert(queue.contains(queue[j]));
        }
        assert(queue[j] == at(queue, k + 1) <==> j == k + 1) by {
            assert(queue.contains(queue[j]));
        }
        if i > 0 {
            assert(r[i - 1] == queue[if i - 1 < k { i - 1 } else { i }]);
        }
        if i + 1 < r.len() {
            assert(r[i + 1] == queue[if i + 1 < k { i + 1 } else { i + 2 }]);
        }
    }
}

/// The edges of a chain are kept.
proof fn lemma_chained(
    old: Map<WaiterPtr, Waiter>,
    new: Map<WaiterPtr, Waiter>,
    cancels: Seq<WaiterPtr>,
)
    requires
        chained(old, cancels),
        new.dom() =~= old.dom(),
        forall|ptr: WaiterPtr| #[trigger]
            old.contains_key(ptr) ==> new[ptr].next_cancel == old[ptr].next_cancel,
    ensures
        chained(new, cancels),
{
    assert forall|i: int| 0 <= i < cancels.len() implies new.contains_key(#[trigger] cancels[i])
        && new[cancels[i]].next_cancel == at(cancels, i + 1) by {
        assert(old.contains_key(cancels[i]));
    }
}

proof fn lemma_chain_skip(table: Map<WaiterPtr, Waiter>, cancels: Seq<WaiterPtr>)
    requires
        chained(table, cancels),
        cancels.len() > 0,
    ensures
        chained(table, cancels.skip(1)),
{
    let rest = cancels.skip(1);
    assert forall|i: int| 0 <= i < rest.len() implies table.contains_key(#[trigger] rest[i])
        && table[rest[i]].next_cancel == at(rest, i + 1) by {
        assert(rest[i] == cancels[i + 1]);
    }
}

impl Waiters {
    pub closed spec fn view(&self) -> WaitersView {
        WaitersView {
            queue: self.queue@,
            stack: self.stack@,
            cancels: self.cancels@,
            taken: self.taken@,
            entries: self.table@.map_values(|waiter: Waiter| waiter_view(waiter)),
        }
    }

    pub closed spec fn wf(&self) -> bool {
        &&& self.table.wf()
        &&& self@.ok()
        &&& self.front == at(self.queue@, 0)
        &&& self.middle == at(self.queue@, self.queue@.len() - 1)
        &&& linked(self.table@, self.queue@)
        &&& stacked(self.table@, self.stack@)
        &&& chained(self.table@, self.cancels@)
        &&& chained(self.table@, self.taken@)
        &&& forall|ptr: WaiterPtr|
            self.table@.contains_key(ptr) && (#[trigger] self.table@[ptr]).step is Entering
                ==> self.table@[ptr].next == WaiterPtr(0)
    }

    pub proof fn lemma_ok(&self)
        requires
            self.wf(),
        ensures
            self@.ok(),
            self@.entries.dom().finite(),
    {
        self.table.lemma_finite();
        assert(self@.entries.dom() =~= self.table@.dom());
    }

    pub fn new() -> (res: Self)
        ensures
            res.wf(),
            res@ == (WaitersView {
                queue: seq![],
                stack: seq![],
                cancels: seq![],
                taken: seq![],
                entries: Map::empty(),
            }),
    {
        let res = Waiters {
            table: WaiterTable::new(),
            front: WaiterPtr::null(),
            middle: WaiterPtr::null(),
            queue: Ghost(Seq::empty()),
            stack: Ghost(Seq::empty()),
            cancels: Ghost(Seq::empty()),
            taken: Ghost(Seq::empty()),
        };
        proof {
            assert(res@.entries =~= Map::empty());
        }
        res
    }

    /// Adds a waiter for `amount` permits, not pending yet.
    pub fn insert(&mut self, semaphore: usize, amount: usize) -> (res: WaiterPtr)
        requires
            old(self).wf(),
            old(self)@.entries.dom().len() < max_waiters(),
        ensures
            final(self).wf(),
            !old(self)@.entries.contains_key(res),
            final(self)@ == old(self)@.inserted(res, semaphore, amount),
    {
        proof {
            assert(self@.entries.dom() =~= self.table@.dom());
        }
        let waiter = Waiter {
            semaphore,
            amount,
            step: AcquireStep::Entering,
            waker: AtomicWaker::new(),
            next: WaiterPtr::null(),
            prev: WaiterPtr::null(),
            next_cancel: WaiterPtr::null(),
        };
        let ptr = self.table.insert(waiter);
        proof {
            self.table.lemma_waiter(ptr);
            assert(self@.entries =~= old(self)@.entries.insert(ptr, waiter_view(waiter)));
            assert(self@.pending() == old(self)@.pending());
        }
        ptr
    }

    /// Removes a waiter that is not pending, giving up its waker.
    pub fn remove(&mut self, ptr: WaiterPtr, panicking: bool, effects: &mut Vec<Effect>)
        requires
            old(self).wf(),
            old(self)@.entries.contains_key(ptr),
            !old(self)@.pending().contains(ptr),
            panicking || old(self)@.entries[ptr].waker.idle() || old(
                self,
            )@.entries[ptr].waker.state is Cancelled,
        ensures
            final(self).wf(),
            final(self)@ == old(self)@.removed(ptr),
            final(effects)@ == old(effects)@ + old(self)@.entries[ptr].waker.leftover(),
    {
        self.table.get(ptr).waker.drop(panicking, effects);
        self.table.remove(ptr);
        proof {
            old(self).lemma_places();
            assert(self@.entries =~= old(self)@.entries.remove(ptr));
            assert(self@.pending() == old(self)@.pending());
            old(self).lemma_cancel_places();
            assert(self@.ok());
            old(self).lemma_pending(ptr);
            assert(linked(self.table@, self.queue@));
            assert(stacked(self.table@, self.stack@));
            assert(chained(self.table@, self.cancels@));
            assert(chained(self.table@, self.taken@));
        }
    }

    /// Makes a waiter pending, after all others. `back` is the last of `stack`.
    pub fn push(&mut self, ptr: WaiterPtr, back: WaiterPtr)
        requires
            old(self).wf(),
            old(self)@.entries.contains_key(ptr),
            old(self)@.entries[ptr].step is Entering,
            old(self)@.entries[ptr].waker.unfinished(),
            back == at(old(self)@.stack, old(self)@.stack.len() - 1),
        ensures
            final(self).wf(),
            final(self)@ == old(self)@.pushed(ptr),
    {
        let waiter = self.table.get_mut(ptr);
        waiter.prev = back;
        waiter.step = AcquireStep::Waiting;
        proof {
            self.stack@ = self.stack@.push(ptr);
            old(self)@.lemma_pushed(ptr);
            old(self).lemma_pending(ptr);
            old(self).lemma_places();
            old(self).lemma_cancel_places();
            assert(self@ =~= old(self)@.pushed(ptr));
        }
    }

    /// Puts a pending waiter on top of the stack of cancellations. `top` is the first of
    /// `cancels`.
    pub fn push_cancel(&mut self, ptr: WaiterPtr, top: WaiterPtr)
        requires
            old(self).wf(),
            old(self)@.may_cancel(ptr),
            !(old(self)@.taken + old(self)@.cancels).contains(ptr),
            top == at(old(self)@.cancels, 0),
        ensures
            final(self).wf(),
            final(self)@ == old(self)@.cancel_pushed(ptr),
    {
        proof {
            old(self).lemma_places();
            old(self).lemma_cancel_places();
        }
        self.table.get_mut(ptr).next_cancel = top;
        proof {
            self.cancels@ = seq![ptr] + self.cancels@;
            assert(self@ =~= old(self)@.cancel_pushed(ptr));
            old(self)@.lemma_cancel_pushed(ptr);
            let c = old(self)@.taken + old(self)@.cancels;
            assert forall|i: int| 0 <= i < old(self).taken@.len() implies #[trigger] old(
                self,
            ).taken@[i] != ptr by {
                assert(c[i] == old(self).taken@[i]);
            }
            assert forall|i: int| 0 <= i < old(self).cancels@.len() implies #[trigger] old(
                self,
            ).cancels@[i] != ptr by {
                assert(c[old(self).taken@.len() + i] == old(self).cancels@[i]);
            }
        }
    }

    /// Takes `stack` into the queue: gives each of its waiters an edge to the next one. `back` is
    /// the last of them.
    pub fn link(&mut self, back: WaiterPtr)
        requires
            old(self).wf(),
            old(self)@.stack.len() > 0,
            back == old(self)@.stack.last(),
        ensures
            final(self).wf(),
            final(self)@ == old(self)@.all_linked(),
    {
        let ghost q = self.queue@;
        let ghost s = self.stack@;
        let ghost mut k: int = s.len() - 1;
        proof {
            self.lemma_places();
        }
        let mut waiter = back;
        let mut prev = self.table.get(waiter).prev;
        while !prev.is_null()
            invariant
                0 <= k < s.len(),
                waiter == s[k],
                prev == at(s, k - 1),
                old(self).wf(),
                old(self).queue@ == q,
                old(self).stack@ == s,
                self.table.wf(),
                self.front == old(self).front,
                self.middle == old(self).middle,
                self.queue == old(self).queue,
                self.stack == old(self).stack,
                self.cancels == old(self).cancels,
                self.taken == old(self).taken,
                self.only_links_differ(*old(self)),
                old(self).places(),
                forall|i: int|
                    0 <= i < q.len() ==> self.table@[#[trigger] q[i]] == old(self).table@[q[i]],
                forall|i: int|
                    0 <= i < s.len() ==> (self.table@[#[trigger] s[i]]).prev == at(s, i - 1),
                forall|i: int|
                    0 <= i < s.len() ==> (self.table@[#[trigger] s[i]]).next == if i >= k {
                        at(s, i + 1)
                    } else {
                        WaiterPtr(0)
                    },
            decreases k,
        {
            self.table.get_mut(prev).next = waiter;
            waiter = prev;
            proof {
                k = k - 1;
                assert(old(self)@.pending()[q.len() + k] == s[k]);
                assert(self.table@.dom() =~= old(self).table@.dom());
            }
            prev = self.table.get(waiter).prev;
        }
        assert(k == 0);
        let middle = self.middle;
        if middle.is_null() {
            self.front = waiter;
        } else {
            self.table.get_mut(middle).next = waiter;
            self.table.get_mut(waiter).prev = middle;
        }
        self.middle = back;
        proof {
            self.queue@ = q + s;
            self.stack@ = Seq::empty();
            assert(old(self)@.pending()[q.len() as int] == s[0]);
            if q.len() > 0 {
                assert(old(self)@.pending()[q.len() - 1] == q.last());
            }
            assert(self.table@.dom() =~= old(self).table@.dom());
            assert(self.only_links_differ(*old(self)));
            assert(self@.entries =~= old(self)@.entries);
            assert(self@.pending() =~= old(self)@.pending());
            assert(self@.ok());
            assert forall|i: int| 0 <= i < self.queue@.len() implies self.table@.contains_key(
                #[trigger] self.queue@[i],
            ) && self.table@[self.queue@[i]].prev == at(self.queue@, i - 1)
                && self.table@[self.queue@[i]].next == at(self.queue@, i + 1) by {
                if i < q.len() {
                    assert(self.queue@[i] == q[i]);
                } else {
                    assert(self.queue@[i] == s[i - q.len()]);
                }
            }
            assert(linked(self.table@, self.queue@));
            assert(chained(self.table@, self.cancels@));
            assert(chained(self.table@, self.taken@));
        }
    }

    /// The owner of the release lock takes all cancellations.
    pub fn take_cancels(&mut self)
        requires
            old(self).wf(),
            old(self)@.taken.len() == 0,
        ensures
            final(self).wf(),
            final(self)@ == old(self)@.cancels_taken(),
    {
        proof {
            self@.lemma_cancels_taken();
            self.taken@ = self.cancels@;
            self.cancels@ = Seq::empty();
            assert(self@ =~= old(self)@.cancels_taken());
        }
    }

    /// Accepts the first cancellation that was taken: removes its waiter from the queue and
    /// notifies the thread. Returns the next one.
    pub fn cancel_next(&mut self, ptr: WaiterPtr, effects: &mut Vec<Effect>) -> (res: WaiterPtr)
        requires
            old(self).wf(),
            old(self)@.taken.len() > 0,
            ptr == old(self)@.taken[0],
            old(self)@.queue.contains(ptr),
        ensures
            final(self).wf(),
            final(self)@ == old(self)@.next_cancelled(),
            res == at(old(self)@.taken, 1),
            final(effects)@ == old(effects)@.push(
                Effect::Unpark(old(self)@.entries[ptr].waker.thread->0),
            ),
    {
        let ghost q = self.queue@;
        let ghost k = q.index_of(ptr);
        proof {
            self.lemma_places();
            self.lemma_cancel_places();
            self@.lemma_next_cancelled();
            assert(q[k] == ptr);
            assert(self@.may_cancel(ptr));
            assert(self@.may_pend(ptr));
        }
        let next = self.table.get(ptr).next;
        let prev = self.table.get(ptr).prev;
        if prev.is_null() {
            self.front = next;
        } else {
            self.table.get_mut(prev).next = next;
        }
        if next.is_null() {
            self.middle = prev;
        } else {
            self.table.get_mut(next).prev = prev;
        }
        let next_cancel = self.table.get(ptr).next_cancel;
        self.table.get_mut(ptr).waker.accept_cancel(effects);
        proof {
            self.queue@ = q.remove(k);
            self.taken@ = self.taken@.skip(1);
            assert(self@.entries =~= old(self)@.next_cancelled().entries);
            assert forall|p: WaiterPtr| #[trigger] old(self).table@.contains_key(p) implies p
                != WaiterPtr(0) by {
                old(self).table.lemma_waiter(p);
            }
            assert(self.table@.dom() =~= old(self).table@.dom());
            lemma_unlinked(old(self).table@, self.table@, q, k);
            lemma_chained(old(self).table@, self.table@, self.cancels@);
            lemma_chained(old(self).table@, self.table@, old(self).taken@);
            lemma_chain_skip(self.table@, old(self).taken@);
            assert(stacked(self.table@, self.stack@));
        }
        next_cancel
    }

    /// Finishes the first waiter of the queue and removes it, unless it is being cancelled.
    pub fn finish_front(&mut self, poisoned: bool, effects: &mut Vec<Effect>) -> (res: WakerResult)
        requires
            old(self).wf(),
            old(self)@.queue.len() > 0,
        ensures
            final(self).wf(),
            ({
                let waker = old(self)@.entries[old(self)@.queue[0]].waker;
                if waker.state is Cancelling {
                    &&& res == WakerResult::Cancelling
                    &&& final(self)@ == old(self)@
                    &&& final(effects)@ == old(effects)@
                } else {
                    &&& res == (WakerResult::Finished { poisoned })
                    &&& final(self)@ == old(self)@.popped(poisoned)
                    &&& final(effects)@ == old(effects)@ + waker.finish_effects()
                }
            }),
    {
        let ghost q = self.queue@;
        proof {
            self.lemma_places();
            self.lemma_cancel_places();
            assert(self@.pending()[0] == q[0]);
            assert(self@.pending().contains(q[0]));
            assert(self@.may_pend(q[0]));
        }
        let front = self.front;
        let next = self.table.get(front).next;
        match self.table.get_mut(front).waker.finish(poisoned, effects) {
            WakerResult::Cancelling => {
                proof {
                    assert(self@ =~= old(self)@);
                }
                WakerResult::Cancelling
            },
            WakerResult::Finished { poisoned } => {
                proof {
                    old(self)@.lemma_popped(poisoned);
                }
                self.front = next;
                if next.is_null() {
                    self.middle = WaiterPtr::null();
                } else {
                    self.table.get_mut(next).prev = WaiterPtr::null();
                }
                proof {
                    self.queue@ = q.skip(1);
                    let r = self.queue@;
                    assert(self@ =~= old(self)@.popped(poisoned));
                    assert forall|i: int| 0 <= i < r.len() implies self.table@.contains_key(
                        #[trigger] r[i],
                    ) && self.table@[r[i]].prev == at(r, i - 1) && self.table@[r[i]].next == at(
                        r,
                        i + 1,
                    ) by {
                        assert(r[i] == q[i + 1]);
                    }
                }
                WakerResult::Finished { poisoned }
            },
        }
    }

    /// The first waiter of the queue, or null.
    pub fn front(&self) -> (res: WaiterPtr)
        requires
            self.wf(),
        ensures
            res == at(self@.queue, 0),
            res == WaiterPtr(0) <==> self@.queue.len() == 0,
    {
        proof {
            self.lemma_places();
        }
        self.front
    }

    pub fn amount(&self, ptr: WaiterPtr) -> (res: usize)
        requires
            self.wf(),
            self@.entries.contains_key(ptr),
        ensures
            res == self@.entries[ptr].amount,
    {
        self.table.get(ptr).amount
    }

    pub fn step(&self, ptr: WaiterPtr) -> (res: AcquireStep)
        requires
            self.wf(),
            self@.entries.contains_key(ptr),
        ensures
            res == self@.entries[ptr].step,
    {
        self.table.get(ptr).step
    }

    /// The future of a waiter that is not pending has ended.
    pub fn set_done(&mut self, ptr: WaiterPtr)
        requires
            old(self).wf(),
            old(self)@.entries.contains_key(ptr),
            !old(self)@.pending().contains(ptr),
        ensures
            final(self).wf(),
            final(self)@ == old(self)@.with_step(ptr, AcquireStep::Done),
    {
        proof {
            self.lemma_places();
            self.lemma_cancel_places();
            self.lemma_pending(ptr);
            self@.lemma_with_step(ptr, AcquireStep::Done);
        }
        self.table.get_mut(ptr).step = AcquireStep::Done;
        proof {
            assert(self@ =~= old(self)@.with_step(ptr, AcquireStep::Done));
        }
    }

    pub fn waker(&self, ptr: WaiterPtr) -> (res: &AtomicWaker)
        requires
            self.wf(),
            self@.entries.contains_key(ptr),
        ensures
            res.wf(),
            res@ == self@.entries[ptr].waker,
    {
        &self.table.get(ptr).waker
    }

    pub fn waker_mut(&mut self, ptr: WaiterPtr) -> (res: &mut AtomicWaker)
        requires
            old(self).wf(),
            old(self)@.entries.contains_key(ptr),
        ensures
            res.wf(),
            res@ == old(self)@.entries[ptr].waker,
            final(self)@ == old(self)@.with_waker(ptr, final(res)@),
            final(res).wf() && final(self)@.ok() ==> final(self).wf(),
    {
        proof {
            self.lemma_places();
            self.lemma_cancel_places();
        }
        &mut self.table.get_mut(ptr).waker
    }

    /// The elements of the two lists of pending waiters are distinct waiters.
    spec fn places(self) -> bool {
        let q = self.queue@;
        let s = self.stack@;
        &&& forall|i: int|
            0 <= i < q.len() ==> self.table@.contains_key(#[trigger] q[i]) && q[i] != WaiterPtr(0)
        &&& forall|i: int|
            0 <= i < s.len() ==> self.table@.contains_key(#[trigger] s[i]) && s[i] != WaiterPtr(0)
        &&& forall|i: int, j: int|
            0 <= i < q.len() && 0 <= j < q.len() && i != j ==> #[trigger] q[i] != #[trigger] q[j]
        &&& forall|i: int, j: int|
            0 <= i < s.len() && 0 <= j < s.len() && i != j ==> #[trigger] s[i] != #[trigger] s[j]
        &&& forall|i: int, j: int|
            0 <= i < q.len() && 0 <= j < s.len() ==> #[trigger] q[i] != #[trigger] s[j]
    }

    spec fn only_links_differ(self, other: Waiters) -> bool {
        &&& self.table@.dom() == other.table@.dom()
        &&& forall|ptr: WaiterPtr| #[trigger]
            self.table@.contains_key(ptr) ==> waiter_view(self.table@[ptr]) == waiter_view(
                other.table@[ptr],
            ) && self.table@[ptr].next_cancel == other.table@[ptr].next_cancel
        &&& forall|ptr: WaiterPtr| #[trigger]
            self.table@.contains_key(ptr) && !other@.pending().contains(ptr) ==> self.table@[ptr]
                == other.table@[ptr]
    }

    /// The elements of the lists of cancellations are pending waiters.
    proof fn lemma_cancel_places(&self)
        requires
            self.wf(),
        ensures
            forall|i: int|
                0 <= i < self.cancels@.len() ==> self@.may_cancel(#[trigger] self.cancels@[i]),
            forall|i: int|
                0 <= i < self.taken@.len() ==> self@.may_cancel(#[trigger] self.taken@[i]),
    {
        let c = self@.taken + self@.cancels;
        assert forall|i: int| 0 <= i < self.cancels@.len() implies self@.may_cancel(
            #[trigger] self.cancels@[i],
        ) by {
            assert(c[self.taken@.len() + i] == self.cancels@[i]);
            assert(c.contains(self.cancels@[i]));
        }
        assert forall|i: int| 0 <= i < self.taken@.len() implies self@.may_cancel(
            #[trigger] self.taken@[i],
        ) by {
            assert(c[i] == self.taken@[i]);
            assert(c.contains(self.taken@[i]));
        }
    }

    /// A waiter that is not pending is in neither list of pending waiters, nor in those of
    /// cancellations.
    proof fn lemma_pending(&self, ptr: WaiterPtr)
        requires
            self.wf(),
            !self@.pending().contains(ptr),
        ensures
            forall|i: int| 0 <= i < self.queue@.len() ==> #[trigger] self.queue@[i] != ptr,
            forall|i: int| 0 <= i < self.stack@.len() ==> #[trigger] self.stack@[i] != ptr,
            forall|i: int| 0 <= i < self.cancels@.len() ==> #[trigger] self.cancels@[i] != ptr,
            forall|i: int| 0 <= i < self.taken@.len() ==> #[trigger] self.taken@[i] != ptr,
    {
        let p = self@.pending();
        let q = self.queue@;
        assert forall|i: int| 0 <= i < q.len() implies #[trigger] q[i] != ptr by {
            assert(p[i] == q[i]);
        }
        assert forall|i: int| 0 <= i < self.stack@.len() implies #[trigger] self.stack@[i]
            != ptr by {
            assert(p[q.len() + i] == self.stack@[i]);
        }
        self.lemma_cancel_places();
    }

    proof fn lemma_places(&self)
        requires
            self.wf(),
        ensures
            self.places(),
    {
        lemma_distinct(self.queue@, self.stack@);
        assert forall|i: int| 0 <= i < self.queue@.len() implies self.table@.contains_key(
            #[trigger] self.queue@[i],
        ) && self.queue@[i] != WaiterPtr(0) by {
            self.table.lemma_waiter(self.queue@[i]);
        }
        assert forall|i: int| 0 <= i < self.stack@.len() implies self.table@.contains_key(
            #[trigger] self.stack@[i],
        ) && self.stack@[i] != WaiterPtr(0) by {
            self.table.lemma_waiter(self.stack@[i]);
        }
    }
}

/// No element of a sequence without duplicates is found in two places of its parts.
pub proof fn lemma_distinct(q: Seq<WaiterPtr>, s: Seq<WaiterPtr>)
    requires
        (q + s).no_duplicates(),
    ensures
        forall|i: int, j: int|
            0 <= i < q.len() && 0 <= j < q.len() && i != j ==> #[trigger] q[i] != #[trigger] q[j],
        forall|i: int, j: int|
            0 <= i < s.len() && 0 <= j < s.len() && i != j ==> #[trigger] s[i] != #[trigger] s[j],
        forall|i: int, j: int|
            0 <= i < q.len() && 0 <= j < s.len() ==> #[trigger] q[i] != #[trigger] s[j],
{
    let p = q + s;
    assert forall|i: int, j: int|
        0 <= i < q.len() && 0 <= j < q.len() && i != j implies #[trigger] q[i]
        != #[trigger] q[j] by {
        assert(p[i] == q[i] && p[j] == q[j]);
    }
    assert forall|i: int, j: int|
        0 <= i < s.len() && 0 <= j < s.len() && i != j implies #[trigger] s[i]
        != #[trigger] s[j] by {
        assert(p[q.len() + i] == s[i] && p[q.len() + j] == s[j]);
    }
    assert forall|i: int, j: int| 0 <= i < q.len() && 0 <= j < s.len() implies #[trigger] q[i]
        != #[trigger] s[j] by {
        assert(p[i] == q[i] && p[q.len() + j] == s[j]);
    }
}

} // verus!
