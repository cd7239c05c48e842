use vstd::prelude::*;
use vstd::std_specs::convert::FromSpecImpl;

verus! {

/// The semaphore has been poisoned.
#[derive(Debug, Eq, Ord, PartialOrd, PartialEq, Clone, Copy, Hash, Default, Structural)]
pub struct PoisonError;

impl PoisonError {
    /// The error in words.
    pub fn message(&self) -> (res: String)
        ensures
            res@ == "the semaphore has been poisoned"@,
    {
        "the semaphore has been poisoned".to_owned()
    }
}

/// Why permits were not acquired at once.
#[derive(Debug, Eq, Ord, PartialOrd, PartialEq, Clone, Copy, Hash, Structural)]
pub enum TryAcquireError {
    /// Acquiring would have blocked. Either there are insufficient available permits or there is
    /// another pending acquire.
    WouldBlock,
    /// The semaphore is poisoned.
    Poisoned,
}

impl TryAcquireError {
    /// The error in words.
    pub fn message(&self) -> (res: String)
        ensures
            res@ == match *self {
                TryAcquireError::WouldBlock => "the call to acquire would have blocked"@,
                TryAcquireError::Poisoned => "the semaphore has been poisoned"@,
            },
    {
        match *self {
            TryAcquireError::WouldBlock => "the call to acquire would have blocked".to_owned(),
            TryAcquireError::Poisoned => PoisonError.message(),
        }
    }
}

impl From<PoisonError> for TryAcquireError {
    fn from(_error: PoisonError) -> (res: Self) {
        TryAcquireError::Poisoned
    }
}

impl FromSpecImpl<PoisonError> for TryAcquireError {
    open spec fn obeys_from_spec() -> bool {
        true
    }

    open spec fn from_spec(_error: PoisonError) -> Self {
        TryAcquireError::Poisoned
    }
}

} // verus!
