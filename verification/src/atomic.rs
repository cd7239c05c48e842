use std::marker::PhantomData;
use vstd::prelude::*;

verus! {

/// Specifies how a value is packed into one machine word.
///
/// Several values may share a word: `canon` names the one that comes back out.
pub trait Packable: Sized + Copy {
    /// The values that a word can hold.
    spec fn fits(self) -> bool;

    /// The value that unpacking the word of `self` gives.
    spec fn canon(self) -> Self;

    /// The word that holds `self`.
    spec fn word(self) -> usize;

    /// The words that can be unpacked.
    spec fn unpacks(word: usize) -> bool;

    /// The value that a word holds.
    spec fn of_word(word: usize) -> Self;

    /// Packing and unpacking gives the canonical value, and a value and its canonical form have
    /// the same word.
    proof fn round_trip(self)
        requires
            self.fits(),
        ensures
            Self::unpacks(self.word()),
            Self::of_word(self.word()) == self.canon(),
            self.canon().word() == self.word(),
            self.canon().fits(),
            self.canon().canon() == self.canon(),
    ;

    fn encode(val: Self) -> (word: usize)
        requires
            val.fits(),
        ensures
            word == val.word(),
    ;

    fn decode(val: usize) -> (res: Self)
        requires
            Self::unpacks(val),
        ensures
            res == Self::of_word(val),
    ;
}

/// A machine word that holds a bit-packed `T`.
///
/// Each method is one indivisible access to the word.
pub struct Atomic<T: Packable>(usize, PhantomData<T>);

impl<T: Packable> Atomic<T> {
    /// The value that the word holds.
    pub closed spec fn view(&self) -> T {
        T::of_word(self.0)
    }

    /// The word is one that packing writes.
    pub closed spec fn wf(&self) -> bool {
        &&& T::unpacks(self.0)
        &&& T::of_word(self.0).word() == self.0
        &&& T::of_word(self.0).fits()
        &&& T::of_word(self.0).canon() == T::of_word(self.0)
    }

    /// The value that the word holds is canonical.
    pub proof fn lemma_canonical(&self)
        requires
            self.wf(),
        ensures
            self@.fits(),
            self@.canon() == self@,
    {
    }

    pub fn new(val: T) -> (res: Self)
        requires
            val.fits(),
        ensures
            res.wf(),
            res@ == val.canon(),
    {
        proof {
            val.round_trip();
        }
        Atomic(T::encode(val), PhantomData)
    }

    pub fn load(&self) -> (res: T)
        requires
            self.wf(),
        ensures
            res == self@,
            res.fits(),
            res.canon() == res,
    {
        T::decode(self.0)
    }

    pub fn store(&mut self, val: T)
        requires
            val.fits(),
        ensures
            final(self).wf(),
            final(self)@ == val.canon(),
    {
        proof {
            val.round_trip();
        }
        self.0 = T::encode(val);
    }

    pub fn swap(&mut self, val: T) -> (res: T)
        requires
            old(self).wf(),
            val.fits(),
        ensures
            res == old(self)@,
            final(self).wf(),
            final(self)@ == val.canon(),
    {
        proof {
            val.round_trip();
        }
        let word: usize = self.0;
        self.0 = T::encode(val);
        T::decode(word)
    }

    /// Replaces the value by `new` if it is `current`. Otherwise sets `current` to the value.
    pub fn cmpxchg_weak_acqrel(&mut self, current: &mut T, new: T) -> (res: bool)
        requires
            old(self).wf(),
            old(current).fits(),
            new.fits(),
        ensures
            final(self).wf(),
            res == (old(self)@ == old(current).canon()),
            res ==> final(self)@ == new.canon() && *final(current) == *old(current),
            !res ==> final(self)@ == old(self)@ && *final(current) == old(self)@,
            final(current).fits(),
            !res ==> final(current).canon() == *final(current),
    {
        proof {
            (*current).round_trip();
            new.round_trip();
        }
        if self.0 == T::encode(*current) {
            self.0 = T::encode(new);
            true
        } else {
            *current = T::decode(self.0);
            false
        }
    }
}

} // verus!
