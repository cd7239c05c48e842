use crate::atomic::Packable;
use std::ops::{Add, AddAssign, Sub, SubAssign};
use vstd::prelude::*;
use vstd::std_specs::ops::{AddSpecImpl, SubSpecImpl};

verus! {

/// The largest number of permits that is not read as poison.
pub const MAX_AVAILABLE: usize = usize::MAX / 8;

/// A number of available permits, or poison if it is greater than `MAX_AVAILABLE`.
#[derive(Copy, Clone, PartialEq, Eq, PartialOrd, Ord, Structural)]
pub struct Permits(pub usize);

/// The release lock, and the permits that it guards.
#[derive(Copy, Clone, PartialEq, Eq, PartialOrd, Ord, Structural)]
pub enum ReleaseState {
    /// No release is in progress. Holds the permits that are available to the next pending
    /// acquire.
    Unlocked(Permits),
    /// A release is in progress. It owns the lock and tracks the available permits.
    Locked,
    /// A release is in progress, and another one completed without the lock. Holds the permits
    /// that are left to the owner of the lock.
    LockedDirty(Permits),
}

/// The address of a waiter, or null. Waiters have even addresses.
#[derive(Copy, Clone, PartialEq, Eq, PartialOrd, Ord, Structural)]
pub struct WaiterPtr(pub usize);

/// The entry point of acquires.
#[derive(Copy, Clone, PartialEq, Eq, PartialOrd, Ord, Structural)]
pub enum AcquireState {
    /// There may be pending acquires. Holds the waiter that arrived last among those that are not
    /// linked into the queue yet.
    Queued(WaiterPtr),
    /// There are no pending acquires. Holds the available permits.
    Available(Permits),
}

/// How far a future has progressed.
#[derive(Copy, Clone, PartialEq, Eq, PartialOrd, Ord, Debug, Structural)]
pub enum AcquireStep {
    /// The future was just created.
    Entering,
    /// The future has registered a waker.
    Waiting,
    /// The future has returned its result or is being cancelled.
    Done,
}

impl Permits {
    /// The number of permits, `None` for poison.
    pub open spec fn count(self) -> Option<nat> {
        if self.0 <= MAX_AVAILABLE {
            Some(self.0 as nat)
        } else {
            None
        }
    }

    pub open spec fn poisoned(self) -> bool {
        self.0 > MAX_AVAILABLE
    }

    /// The one value that stands for all that are read alike.
    pub open spec fn norm(self) -> Permits {
        if self.poisoned() {
            Permits(usize::MAX)
        } else {
            self
        }
    }

    /// The sum, which is poison if a term is poison or the sum is too large.
    pub open spec fn plus(self, other: Permits) -> Permits {
        if self.0 + other.0 > usize::MAX {
            Permits(usize::MAX)
        } else {
            Permits((self.0 + other.0) as usize)
        }
    }

    /// What is left after `amount` permits are taken. Poison is not used up.
    pub open spec fn less(self, amount: usize) -> Permits {
        if self.poisoned() {
            self
        } else {
            Permits((self.0 - amount) as usize)
        }
    }

    /// Permits can be added in any order and grouping.
    pub proof fn law_plus(self, other: Permits, third: Permits)
        ensures
            self.plus(other) == other.plus(self),
            self.plus(other).plus(third) == self.plus(other.plus(third)),
            self.plus(Permits(0)) == self,
    {
    }

    /// Poison absorbs permits, and too many permits are poison.
    pub proof fn law_poison(self, other: Permits)
        ensures
            self.poisoned() ==> self.plus(other).poisoned() && self.less(other.0) == self,
            self.plus(other).poisoned() == (self.0 + other.0 > MAX_AVAILABLE),
    {
    }

    pub fn new(x: usize) -> (res: Self)
        ensures
            res == Permits(x),
    {
        Permits(x)
    }

    pub fn poison() -> (res: Self)
        ensures
            res == Permits(usize::MAX),
            res.poisoned(),
    {
        Permits(usize::MAX)
    }

    pub fn into_usize(self) -> (res: Option<usize>)
        ensures
            res == if self.0 <= MAX_AVAILABLE {
                Some(self.0)
            } else {
                None
            },
    {
        if self.0 <= MAX_AVAILABLE {
            Some(self.0)
        } else {
            None
        }
    }
}

impl Add for Permits {
    type Output = Self;

    fn add(self, rhs: Self) -> (res: Self) {
        Permits(self.0.saturating_add(rhs.0))
    }
}

impl AddSpecImpl for Permits {
    open spec fn obeys_add_spec() -> bool {
        true
    }

    open spec fn add_req(self, rhs: Self) -> bool {
        true
    }

    open spec fn add_spec(self, rhs: Self) -> Self {
        self.plus(rhs)
    }
}

impl Sub for Permits {
    type Output = Permits;

    fn sub(self, rhs: Permits) -> (res: Permits) {
        match self.into_usize() {
            None => self,
            Some(this) => Permits(this - rhs.0),
        }
    }
}

impl SubSpecImpl for Permits {
    open spec fn obeys_sub_spec() -> bool {
        true
    }

    open spec fn sub_req(self, rhs: Self) -> bool {
        self.poisoned() || rhs.0 <= self.0
    }

    open spec fn sub_spec(self, rhs: Self) -> Self {
        self.less(rhs.0)
    }
}

impl AddAssign for Permits {
    fn add_assign(&mut self, rhs: Self)
        ensures
            *final(self) == old(self).plus(rhs),
    {
        *self = *self + rhs;
    }
}

impl SubAssign for Permits {
    fn sub_assign(&mut self, rhs: Self)
        requires
            old(self).poisoned() || rhs.0 <= old(self).0,
        ensures
            *final(self) == old(self).less(rhs.0),
    {
        *self = *self - rhs;
    }
}

impl WaiterPtr {
    /// An address that a waiter can have, or null.
    pub open spec fn aligned(self) -> bool {
        self.0 % 2 == 0
    }

    pub fn null() -> (res: Self)
        ensures
            res == WaiterPtr(0),
    {
        WaiterPtr(0)
    }

    pub fn is_null(self) -> (res: bool)
        ensures
            res == (self == WaiterPtr(0)),
    {
        self.0 == 0
    }
}

impl Packable for WaiterPtr {
    open spec fn fits(self) -> bool {
        true
    }

    open spec fn canon(self) -> Self {
        self
    }

    open spec fn word(self) -> usize {
        self.0
    }

    open spec fn unpacks(word: usize) -> bool {
        true
    }

    open spec fn of_word(word: usize) -> Self {
        WaiterPtr(word)
    }

    proof fn round_trip(self) {
    }

    fn encode(val: Self) -> (word: usize) {
        val.0
    }

    fn decode(val: usize) -> (res: Self) {
        WaiterPtr(val)
    }
}

proof fn lemma_bits(x: usize)
    ensures
        x & 7 == x % 8,
        x & 1 == x % 2,
        x >> 3 == x / 8,
        x >> 1 == x / 2,
        x <= usize::MAX / 8 ==> (x << 3) | 2 == 8 * x + 2,
        x <= usize::MAX / 8 ==> (x << 3) | 4 == 8 * x + 4,
        x <= usize::MAX / 8 ==> (x << 1) | 1 == 2 * x + 1,
{
    assert(x & 7 == x % 8) by (bit_vector);
    assert(x & 1 == x % 2) by (bit_vector);
    assert(x >> 3 == x / 8) by (bit_vector);
    assert(x >> 1 == x / 2) by (bit_vector);
    let top = usize::MAX;
    assert(top <= !0usize) by (bit_vector);
    assert(x <= !0usize / 8 ==> (x << 3) | 2 == 8 * x + 2) by (bit_vector);
    assert(x <= !0usize / 8 ==> (x << 3) | 4 == 8 * x + 4) by (bit_vector);
    assert(x <= !0usize / 8 ==> (x << 1) | 1 == 2 * x + 1) by (bit_vector);
}

impl Packable for ReleaseState {
    open spec fn fits(self) -> bool {
        true
    }

    open spec fn canon(self) -> Self {
        match self {
            ReleaseState::Unlocked(releasable) => ReleaseState::Unlocked(releasable.norm()),
            ReleaseState::Locked => ReleaseState::Locked,
            ReleaseState::LockedDirty(releasable) => ReleaseState::LockedDirty(releasable.norm()),
        }
    }

    open spec fn word(self) -> usize {
        match self {
            ReleaseState::Locked => 0,
            ReleaseState::Unlocked(releasable) => if releasable.poisoned() {
                1
            } else {
                (8 * releasable.0 + 2) as usize
            },
            ReleaseState::LockedDirty(releasable) => if releasable.poisoned() {
                3
            } else {
                (8 * releasable.0 + 4) as usize
            },
        }
    }

    open spec fn unpacks(word: usize) -> bool {
        word % 8 <= 4
    }

    open spec fn of_word(word: usize) -> Self {
        if word % 8 == 0 {
            ReleaseState::Locked
        } else if word % 8 == 1 {
            ReleaseState::Unlocked(Permits(usize::MAX))
        } else if word % 8 == 2 {
            ReleaseState::Unlocked(Permits(word / 8))
        } else if word % 8 == 3 {
            ReleaseState::LockedDirty(Permits(usize::MAX))
        } else {
            ReleaseState::LockedDirty(Permits(word / 8))
        }
    }

    proof fn round_trip(self) {
    }

    fn encode(val: Self) -> (word: usize) {
        match val {
            ReleaseState::Locked => 0,
            ReleaseState::Unlocked(releasable) => match releasable.into_usize() {
                None => 1,
                Some(releasable) => {
                    proof {
                        lemma_bits(releasable);
                    }
                    (releasable << 3) | 2
                },
            },
            ReleaseState::LockedDirty(releasable) => match releasable.into_usize() {
                None => 3,
                Some(releasable) => {
                    proof {
                        lemma_bits(releasable);
                    }
                    (releasable << 3) | 4
                },
            },
        }
    }

    fn decode(val: usize) -> (res: Self) {
        proof {
            lemma_bits(val);
        }
        match val & 7 {
            0 => ReleaseState::Locked,
            1 => ReleaseState::Unlocked(Permits::poison()),
            2 => ReleaseState::Unlocked(Permits::new(val >> 3)),
            3 => ReleaseState::LockedDirty(Permits::poison()),
            _ => ReleaseState::LockedDirty(Permits::new(val >> 3)),
        }
    }
}

impl Packable for AcquireState {
    open spec fn fits(self) -> bool {
        match self {
            AcquireState::Queued(back) => back.aligned(),
            AcquireState::Available(_) => true,
        }
    }

    open spec fn canon(self) -> Self {
        match self {
            AcquireState::Queued(back) => self,
            AcquireState::Available(available) => AcquireState::Available(available.norm()),
        }
    }

    open spec fn word(self) -> usize {
        match self {
            AcquireState::Queued(back) => back.0,
            AcquireState::Available(available) => if available.poisoned() {
                usize::MAX
            } else {
                (2 * available.0 + 1) as usize
            },
        }
    }

    open spec fn unpacks(word: usize) -> bool {
        true
    }

    open spec fn of_word(word: usize) -> Self {
        if word % 2 == 0 {
            AcquireState::Queued(WaiterPtr(word))
        } else if word == usize::MAX {
            AcquireState::Available(Permits(usize::MAX))
        } else {
            AcquireState::Available(Permits(word / 2))
        }
    }

    proof fn round_trip(self) {
    }

    fn encode(val: Self) -> (word: usize) {
        match val {
            AcquireState::Queued(back) => back.0,
            AcquireState::Available(available) => match available.into_usize() {
                None => usize::MAX,
                Some(available) => {
                    proof {
                        lemma_bits(available);
                    }
                    (available << 1) | 1
                },
            },
        }
    }

    fn decode(val: usize) -> (res: Self) {
        proof {
            lemma_bits(val);
        }
        if val & 1 == 1 {
            if val == usize::MAX {
                AcquireState::Available(Permits::poison())
            } else {
                AcquireState::Available(Permits::new(val >> 1))
            }
        } else {
            AcquireState::Queued(WaiterPtr(val))
        }
    }
}

impl AcquireState {
    /// The number of permits that an acquire can take at once.
    pub fn available(&self) -> (res: Option<usize>)
        ensures
            res == match *self {
                AcquireState::Available(permits) => if permits.poisoned() {
                    None
                } else {
                    Some(permits.0)
                },
                AcquireState::Queued(_) => None,
            },
    {
        match *self {
            AcquireState::Available(permits) => permits.into_usize(),
            AcquireState::Queued(_) => None,
        }
    }
}

} // verus!
