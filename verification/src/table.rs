use crate::state::{AcquireStep, WaiterPtr};
use crate::waker::AtomicWaker;
use vstd::prelude::*;

verus! {

/// The state of a single future.
pub struct Waiter {
    /// The address of the semaphore.
    pub semaphore: usize,
    /// The requested number of permits.
    pub amount: usize,
    /// How far this future has progressed.
    pub step: AcquireStep,
    /// Stores a waker and synchronizes finishing and cancelling with polling.
    pub waker: AtomicWaker,
    /// The later waiter in the acquire queue.
    pub next: WaiterPtr,
    /// The earlier waiter in the acquire queue.
    pub prev: WaiterPtr,
    /// The next waiter in the cancellation stack.
    pub next_cancel: WaiterPtr,
}

/// The waiters of a semaphore, by address.
///
/// The slot with index `i` has the address `2 * i + 2`.
pub struct WaiterTable {
    slots: Vec<Waiter>,
    vacant: Vec<usize>,
}

/// The number of addresses that waiters can have.
pub open spec fn max_waiters() -> nat {
    (usize::MAX / 2) as nat
}

spec fn slot_of(ptr: WaiterPtr) -> int {
    ptr.0 as int / 2 - 1
}

/// The addresses that are in use among those of `slots` slots, `vacant` of which are not.
spec fn occupied_slots(slots: nat, vacant: Seq<usize>) -> Set<WaiterPtr> {
    Set::new(
        |ptr: WaiterPtr|
            ptr.aligned() && 0 <= slot_of(ptr) < slots && !vacant.contains(slot_of(ptr) as usize),
    )
}

proof fn lemma_occupied(table: WaiterTable)
    ensures
        table@.dom() == occupied_slots(table.slots@.len(), table.vacant@),
{
    assert(table@.dom() =~= occupied_slots(table.slots@.len(), table.vacant@));
}

impl WaiterTable {
    pub closed spec fn view(&self) -> Map<WaiterPtr, Waiter> {
        Map::new(|ptr: WaiterPtr| self.occupied(ptr), |ptr: WaiterPtr| self.slots@[slot_of(ptr)])
    }

    spec fn occupied(&self, ptr: WaiterPtr) -> bool {
        occupied_slots(self.slots@.len(), self.vacant@).contains(ptr)
    }

    pub closed spec fn wf(&self) -> bool {
        &&& self.slots@.len() <= max_waiters()
        &&& forall|i: int|
            0 <= i < self.vacant@.len() ==> (#[trigger] self.vacant@[i]) < self.slots@.len()
        &&& self.vacant@.no_duplicates()
        &&& forall|i: int| 0 <= i < self.slots@.len() ==> (#[trigger] self.slots@[i]).waker.wf()
        &&& occupied_slots(self.slots@.len(), self.vacant@).finite()
        &&& occupied_slots(self.slots@.len(), self.vacant@).len() == self.slots@.len()
            - self.vacant@.len()
    }

    /// Addresses are even and not null, and the wakers are well-formed.
    pub proof fn lemma_waiter(&self, ptr: WaiterPtr)
        requires
            self.wf(),
            self@.contains_key(ptr),
        ensures
            ptr.aligned(),
            ptr != WaiterPtr(0),
            self@[ptr].waker.wf(),
    {
    }

    pub proof fn lemma_finite(&self)
        requires
            self.wf(),
        ensures
            self@.dom().finite(),
    {
        lemma_occupied(*self);
    }

    pub fn new() -> (res: Self)
        ensures
            res.wf(),
            res@ == Map::<WaiterPtr, Waiter>::empty(),
    {
        let res = WaiterTable { slots: Vec::new(), vacant: Vec::new() };
        proof {
            assert(occupied_slots(0, res.vacant@) =~= Set::empty());
            assert(res@ =~= Map::<WaiterPtr, Waiter>::empty());
        }
        res
    }

    /// Adds a waiter and returns its address.
    pub fn insert(&mut self, waiter: Waiter) -> (res: WaiterPtr)
        requires
            old(self).wf(),
            waiter.waker.wf(),
            old(self)@.dom().len() < max_waiters(),
        ensures
            final(self).wf(),
            !old(self)@.contains_key(res),
            final(self)@ == old(self)@.insert(res, waiter),
    {
        proof {
            lemma_occupied(*self);
        }
        match self.vacant.pop() {
            Some(i) => {
                let ptr = WaiterPtr(2 * i + 2);
                self.slots[i] = waiter;
                proof {
                    let last = old(self).vacant@.len() - 1;
                    assert(old(self).vacant@[last] == i);
                    assert(self.vacant@ == old(self).vacant@.drop_last());
                    assert forall|p: WaiterPtr| #[trigger] self.occupied(p) implies p == ptr
                        || old(self).occupied(p) by {
                        let k = slot_of(p) as usize;
                        if old(self).vacant@.contains(k) && k != i {
                            let j = choose|j: int|
                                0 <= j < old(self).vacant@.len() && old(self).vacant@[j] == k;
                            assert(self.vacant@[j] == k);
                        }
                    }
                    assert forall|p: WaiterPtr| #[trigger] old(self).occupied(p) implies p != ptr
                        && self.occupied(p) by {
                        let k = slot_of(p) as usize;
                        if self.vacant@.contains(k) {
                            let j = choose|j: int|
                                0 <= j < self.vacant@.len() && self.vacant@[j] == k;
                            assert(old(self).vacant@[j] == k);
                        }
                    }
                    assert(self.occupied(ptr));
                    assert(self@ =~= old(self)@.insert(ptr, waiter));
                    lemma_occupied(*old(self));
                    lemma_occupied(*self);
                }
                ptr
            },
            None => {
                let i: usize = self.slots.len();
                let ptr = WaiterPtr(2 * i + 2);
                self.slots.push(waiter);
                proof {
                    assert(self@ =~= old(self)@.insert(ptr, waiter));
                    lemma_occupied(*old(self));
                    lemma_occupied(*self);
                }
                ptr
            },
        }
    }

    /// Removes a waiter. Its address may be given to another one.
    pub fn remove(&mut self, ptr: WaiterPtr)
        requires
            old(self).wf(),
            old(self)@.contains_key(ptr),
        ensures
            final(self).wf(),
            final(self)@ == old(self)@.remove(ptr),
    {
        let i: usize = ptr.0 / 2 - 1;
        self.vacant.push(i);
        proof {
            assert(self.vacant@[self.vacant@.len() - 1] == i);
            assert forall|p: WaiterPtr| #[trigger] self.occupied(p) implies p != ptr && old(
                self,
            ).occupied(p) by {
                let k = slot_of(p) as usize;
                if old(self).vacant@.contains(k) {
                    let j = choose|j: int|
                        0 <= j < old(self).vacant@.len() && old(self).vacant@[j] == k;
                    assert(self.vacant@[j] == k);
                }
            }
            assert(self@ =~= old(self)@.remove(ptr));
            lemma_occupied(*old(self));
            lemma_occupied(*self);
        }
    }

    pub fn get(&self, ptr: WaiterPtr) -> (res: &Waiter)
        requires
            self.wf(),
            self@.contains_key(ptr),
        ensures
            *res == self@[ptr],
            res.waker.wf(),
    {
        &self.slots[ptr.0 / 2 - 1]
    }

    pub fn get_mut(&mut self, ptr: WaiterPtr) -> (res: &mut Waiter)
        requires
            old(self).wf(),
            old(self)@.contains_key(ptr),
        ensures
            *res == old(self)@[ptr],
            res.waker.wf(),
            final(self)@ == old(self)@.insert(ptr, *final(res)),
            final(res).waker.wf() ==> final(self).wf(),
    {
        &mut self.slots[ptr.0 / 2 - 1]
    }
}

} // verus!
