use crate::errors::TryAcquireError;
use crate::model::SemaphoreView;
use crate::semaphore::Semaphore;
use crate::state::Permits;
use crate::waker::Effect;
use vstd::prelude::*;

verus! {

/// Permits of a semaphore. Dropping the guard releases them.
#[must_use]
#[derive(PartialEq, Eq, Debug, Structural)]
pub struct SemaphoreGuard {
    /// The address of the semaphore.
    pub semaphore: usize,
    pub amount: usize,
    /// Whether the thread was unwinding when the permits were acquired. This is for the caller to
    /// know: what dropping the guard does depends only on whether the thread is unwinding then.
    pub panicking: bool,
}

/// Permits of a semaphore that is shared. Dropping the guard releases them.
#[must_use]
#[derive(PartialEq, Eq, Debug)]
pub struct SemaphoreGuardArc {
    /// The address of the semaphore, `None` when the permits are not to be released.
    pub semaphore: Option<usize>,
    pub amount: usize,
    /// Whether the thread was unwinding when the permits were acquired. This is for the caller to
    /// know: what dropping the guard does depends only on whether the thread is unwinding then.
    pub panicking: bool,
}

/// What dropping a guard gives back: poison if the thread is unwinding.
pub open spec fn given_back(amount: usize, panicking: bool) -> Permits {
    if panicking {
        Permits(usize::MAX)
    } else {
        Permits(amount)
    }
}

/// Dropping a guard while not unwinding is forgetting it and releasing what it held, in whatever
/// state the semaphore is.
pub proof fn law_drop_releases(sem: SemaphoreView, amount: usize)
    ensures
        sem.released(given_back(amount, false)) == sem.released(Permits(amount)),
        sem.release_effects(given_back(amount, false)) == sem.release_effects(Permits(amount)),
{
}

impl SemaphoreGuard {
    /// What taking over the permits of `other` leaves.
    pub open spec fn extended(self, other: SemaphoreGuard) -> SemaphoreGuard {
        SemaphoreGuard { amount: Permits(self.amount).plus(Permits(other.amount)).0, ..self }
    }

    /// What splitting off `amount` permits leaves.
    pub open spec fn split_left(self, amount: usize) -> SemaphoreGuard {
        SemaphoreGuard { amount: (self.amount - amount) as usize, ..self }
    }

    /// What splitting off `amount` permits gives.
    pub open spec fn split_off(self, amount: usize, panicking: bool) -> SemaphoreGuard {
        SemaphoreGuard { amount, panicking, ..self }
    }

    /// Extending a guard by what was split off undoes the split.
    pub proof fn law_split_extend(self, amount: usize, panicking: bool)
        requires
            amount <= self.amount,
        ensures
            self.split_left(amount).extended(self.split_off(amount, panicking)) == self,
    {
    }

    pub fn new(semaphore: &Semaphore, amount: usize, panicking: bool) -> (res: Self)
        ensures
            res == (SemaphoreGuard { semaphore: semaphore@.address, amount, panicking }),
    {
        SemaphoreGuard { semaphore: semaphore.address(), amount, panicking }
    }

    /// Drops the guard without releasing. This is useful when releases do not correspond
    /// one-to-one with acquires.
    pub fn forget(self) -> (res: usize)
        ensures
            res == self.amount,
    {
        self.amount
    }

    /// Takes over the permits of another guard of the same semaphore. Too many permits poison the
    /// semaphore when the guard is dropped.
    pub fn extend(&mut self, other: SemaphoreGuard)
        requires
            old(self).semaphore == other.semaphore,
        ensures
            *final(self) == old(self).extended(other),
    {
        self.amount = self.amount.saturating_add(other.forget());
    }

    /// Splits permits off into a guard of their own, unless there are fewer.
    pub fn split(&mut self, amount: usize, panicking: bool) -> (res: Result<
        SemaphoreGuard,
        TryAcquireError,
    >)
        ensures
            amount <= old(self).amount ==> {
                &&& res == Ok::<SemaphoreGuard, TryAcquireError>(
                    old(self).split_off(amount, panicking),
                )
                &&& *final(self) == old(self).split_left(amount)
            },
            amount > old(self).amount ==> {
                &&& res == Err::<SemaphoreGuard, TryAcquireError>(TryAcquireError::WouldBlock)
                &&& *final(self) == *old(self)
            },
    {
        if amount <= self.amount {
            self.amount = self.amount - amount;
            Ok(SemaphoreGuard { semaphore: self.semaphore, amount, panicking })
        } else {
            Err(TryAcquireError::WouldBlock)
        }
    }

    /// Releases the permits, or poisons the semaphore if the thread is unwinding.
    pub fn drop(self, semaphore: &mut Semaphore, panicking: bool) -> (res: Vec<Effect>)
        requires
            old(semaphore).wf(),
            self.semaphore == old(semaphore)@.address,
        ensures
            final(semaphore).wf(),
            final(semaphore)@ == old(semaphore)@.released(
                given_back(self.amount, panicking),
            ),
            res@ == old(semaphore)@.release_effects(
                given_back(self.amount, panicking),
            ),
    {
        if panicking {
            semaphore.poison()
        } else {
            semaphore.release(self.amount)
        }
    }
}

impl SemaphoreGuardArc {
    /// What taking over the permits of `other` leaves.
    pub open spec fn extended(self, other: SemaphoreGuardArc) -> SemaphoreGuardArc {
        SemaphoreGuardArc { amount: Permits(self.amount).plus(Permits(other.amount)).0, ..self }
    }

    /// What splitting off `amount` permits leaves.
    pub open spec fn split_left(self, amount: usize) -> SemaphoreGuardArc {
        SemaphoreGuardArc { amount: (self.amount - amount) as usize, ..self }
    }

    /// What splitting off `amount` permits gives.
    pub open spec fn split_off(self, amount: usize, panicking: bool) -> SemaphoreGuardArc {
        SemaphoreGuardArc { amount, panicking, ..self }
    }

    /// Extending a guard by what was split off undoes the split.
    pub proof fn law_split_extend(self, amount: usize, panicking: bool)
        requires
            amount <= self.amount,
        ensures
            self.split_left(amount).extended(self.split_off(amount, panicking)) == self,
    {
    }

    pub fn new(semaphore: &Semaphore, amount: usize, panicking: bool) -> (res: Self)
        ensures
            res == (SemaphoreGuardArc {
                semaphore: Some(semaphore@.address),
                amount,
                panicking,
            }),
    {
        SemaphoreGuardArc { semaphore: Some(semaphore.address()), amount, panicking }
    }

    /// Drops the guard without releasing. This is useful when releases do not correspond
    /// one-to-one with acquires.
    pub fn forget(self) -> (res: usize)
        ensures
            res == self.amount,
    {
        self.amount
    }

    /// Takes over the permits of another guard of the same semaphore. Too many permits poison the
    /// semaphore when the guard is dropped.
    pub fn extend(&mut self, other: SemaphoreGuardArc)
        requires
            old(self).semaphore is Some,
            old(self).semaphore == other.semaphore,
        ensures
            *final(self) == old(self).extended(other),
    {
        self.amount = self.amount.saturating_add(other.forget());
    }

    /// Splits permits off into a guard of their own, unless there are fewer.
    pub fn split(&mut self, amount: usize, panicking: bool) -> (res: Result<
        SemaphoreGuardArc,
        TryAcquireError,
    >)
        ensures
            amount <= old(self).amount ==> {
                &&& res == Ok::<SemaphoreGuardArc, TryAcquireError>(
                    old(self).split_off(amount, panicking),
                )
                &&& *final(self) == old(self).split_left(amount)
            },
            amount > old(self).amount ==> {
                &&& res == Err::<SemaphoreGuardArc, TryAcquireError>(TryAcquireError::WouldBlock)
                &&& *final(self) == *old(self)
            },
    {
        if amount <= self.amount {
            self.amount = self.amount - amount;
            Ok(SemaphoreGuardArc { semaphore: self.semaphore, amount, panicking })
        } else {
            Err(TryAcquireError::WouldBlock)
        }
    }

    /// Releases the permits, or poisons the semaphore if the thread is unwinding. Does nothing if
    /// the permits are not to be released.
    pub fn drop(self, semaphore: &mut Semaphore, panicking: bool) -> (res: Vec<Effect>)
        requires
            old(semaphore).wf(),
            self.semaphore is Some ==> self.semaphore == Some(old(semaphore)@.address),
        ensures
            final(semaphore).wf(),
            self.semaphore is Some ==> {
                &&& final(semaphore)@ == old(semaphore)@.released(
                    given_back(self.amount, panicking),
                )
                &&& res@ == old(semaphore)@.release_effects(
                    given_back(self.amount, panicking),
                )
            },
            self.semaphore is None ==> final(semaphore)@ == old(semaphore)@ && res@.len() == 0,
    {
        if self.semaphore.is_some() {
            if panicking {
                semaphore.poison()
            } else {
                semaphore.release(self.amount)
            }
        } else {
            Vec::new()
        }
    }
}

} // verus!
