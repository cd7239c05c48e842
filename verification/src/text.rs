use crate::acquire::{AcquireFuture, AcquireFutureArc};
use crate::model::SemaphoreView;
use crate::semaphore::Semaphore;
use crate::state::{AcquireState, AcquireStep, Permits, ReleaseState, WaiterPtr};
use crate::table::{Waiter, WaiterTable};
use vstd::prelude::*;
use vstd::string::{StrSliceExecFns, StringExecFns};

verus! {

/// A pointer that is shown together with the waiter that it points to.
pub struct DebugPtr(pub WaiterPtr);

/// The number in digits.
pub open spec fn digits(n: nat, radix: nat) -> Seq<char>
    recommends
        2 <= radix <= 16,
    decreases n,
{
    let last = "0123456789abcdef"@.subrange((n % radix) as int, n % radix + 1int);
    if n < radix || radix < 2 {
        last
    } else {
        proof {
            assert(n / radix < n) by (nonlinear_arith)
                requires
                    n >= radix >= 2,
            ;
        }
        digits(n / radix, radix) + last
    }
}

/// The number as an address.
pub open spec fn address_text(address: usize) -> Seq<char> {
    "0x"@ + digits(address as nat, 16)
}

/// Writes a number in digits.
pub fn write_digits(n: usize, radix: usize) -> (res: String)
    requires
        2 <= radix <= 16,
    ensures
        res@ == digits(n as nat, radix as nat),
    decreases n,
{
    proof {
        reveal_strlit("0123456789abcdef");
    }
    let last: usize = n % radix;
    let digit = "0123456789abcdef".substring_char(last, last + 1);
    if n < radix {
        digit.to_owned()
    } else {
        assert(n / radix < n) by (nonlinear_arith)
            requires
                n >= radix >= 2,
        ;
        let mut text = write_digits(n / radix, radix);
        text.append(digit);
        text
    }
}

/// Writes a number as an address.
pub fn write_address(address: usize) -> (res: String)
    ensures
        res@ == address_text(address),
{
    let mut text = "0x".to_owned();
    text.append(write_digits(address, 16).as_str());
    text
}

impl Permits {
    pub open spec fn text(self) -> Seq<char> {
        match self.count() {
            Some(count) => digits(count, 10),
            None => "poison"@,
        }
    }

    /// The permits in words.
    pub fn debug(&self) -> (res: String)
        ensures
            res@ == self.text(),
    {
        match self.into_usize() {
            Some(count) => write_digits(count, 10),
            None => "poison".to_owned(),
        }
    }
}

impl ReleaseState {
    pub open spec fn text(self) -> Seq<char> {
        match self {
            ReleaseState::Unlocked(permits) => "Unlocked("@ + permits.text() + ")"@,
            ReleaseState::Locked => "Locked"@,
            ReleaseState::LockedDirty(permits) => "LockedDirty("@ + permits.text() + ")"@,
        }
    }

    /// The state in words.
    pub fn debug(&self) -> (res: String)
        ensures
            res@ == self.text(),
    {
        match *self {
            ReleaseState::Unlocked(permits) => in_brackets("Unlocked(", &permits.debug()),
            ReleaseState::Locked => "Locked".to_owned(),
            ReleaseState::LockedDirty(permits) => in_brackets("LockedDirty(", &permits.debug()),
        }
    }
}

/// Writes a name with an open bracket, what is in the brackets, and the other bracket.
fn in_brackets(name: &str, inner: &String) -> (res: String)
    ensures
        res@ == name@ + inner@ + ")"@,
{
    let mut text = name.to_owned();
    text.append(inner.as_str());
    text.append(")");
    text
}

impl AcquireStep {
    pub open spec fn text(self) -> Seq<char> {
        match self {
            AcquireStep::Entering => "Entering"@,
            AcquireStep::Waiting => "Waiting"@,
            AcquireStep::Done => "Done"@,
        }
    }

    /// The step in words.
    pub fn debug(&self) -> (res: String)
        ensures
            res@ == self.text(),
    {
        match *self {
            AcquireStep::Entering => "Entering".to_owned(),
            AcquireStep::Waiting => "Waiting".to_owned(),
            AcquireStep::Done => "Done".to_owned(),
        }
    }
}

impl Waiter {
    pub open spec fn text(self) -> Seq<char> {
        "W { a: "@ + digits(self.amount as nat, 10) + ", s: "@ + self.step.text() + ", w: "@
            + self.waker@.text() + ", n: "@ + address_text(self.next.0) + ", p: "@ + address_text(
            self.prev.0,
        ) + ", nc: "@ + address_text(self.next_cancel.0) + " }"@
    }

    /// The waiter in words.
    pub fn debug(&self) -> (res: String)
        requires
            self.waker.wf(),
        ensures
            res@ == self.text(),
    {
        let mut text = "W { a: ".to_owned();
        text.append(write_digits(self.amount, 10).as_str());
        text.append(", s: ");
        text.append(self.step.debug().as_str());
        text.append(", w: ");
        text.append(self.waker.debug().as_str());
        text.append(", n: ");
        text.append(write_address(self.next.0).as_str());
        text.append(", p: ");
        text.append(write_address(self.prev.0).as_str());
        text.append(", nc: ");
        text.append(write_address(self.next_cancel.0).as_str());
        text.append(" }");
        text
    }
}

impl DebugPtr {
    pub open spec fn text(self, waiters: Map<WaiterPtr, Waiter>) -> Seq<char> {
        if self.0.0 == 0 {
            "null"@
        } else {
            address_text(self.0.0) + " "@ + waiters[self.0].text()
        }
    }

    /// The pointer and its waiter in words.
    pub fn debug(&self, waiters: &WaiterTable) -> (res: String)
        requires
            waiters.wf(),
            self.0.0 != 0 ==> waiters@.contains_key(self.0),
        ensures
            res@ == self.text(waiters@),
    {
        if self.0.is_null() {
            "null".to_owned()
        } else {
            let mut text = write_address(self.0.0);
            text.append(" ");
            text.append(waiters.get(self.0).debug().as_str());
            text
        }
    }
}

impl AcquireState {
    pub open spec fn text(self, waiters: Map<WaiterPtr, Waiter>) -> Seq<char> {
        match self {
            AcquireState::Queued(back) => "Queued("@ + DebugPtr(back).text(waiters) + ")"@,
            AcquireState::Available(permits) => "Available("@ + permits.text() + ")"@,
        }
    }

    /// The state in words.
    pub fn debug(&self, waiters: &WaiterTable) -> (res: String)
        requires
            waiters.wf(),
            *self matches AcquireState::Queued(back) ==> back.0 != 0 ==> waiters@.contains_key(
                back,
            ),
        ensures
            res@ == self.text(waiters@),
    {
        match *self {
            AcquireState::Queued(back) => in_brackets("Queued(", &DebugPtr(back).debug(waiters)),
            AcquireState::Available(permits) => in_brackets("Available(", &permits.debug()),
        }
    }
}

impl SemaphoreView {
    /// The available permits, as far as they are known without the release lock.
    pub open spec fn text(self) -> Seq<char> {
        match self.acquire {
            AcquireState::Available(available) => "Semaphore::Ready("@ + available.text() + ")"@,
            AcquireState::Queued(_) => match self.release {
                ReleaseState::Unlocked(available) => "Semaphore::Blocked("@ + available.text()
                    + ")"@,
                _ => "Semaphore::Unknown"@,
            },
        }
    }
}

impl Semaphore {
    /// The available permits in words.
    pub fn debug(&self) -> (res: String)
        requires
            self.wf(),
        ensures
            res@ == self@.text(),
    {
        match self.acquire_state() {
            AcquireState::Available(available) => in_brackets(
                "Semaphore::Ready(",
                &available.debug(),
            ),
            AcquireState::Queued(_) => match self.release_state() {
                ReleaseState::Unlocked(available) => in_brackets(
                    "Semaphore::Blocked(",
                    &available.debug(),
                ),
                _ => "Semaphore::Unknown".to_owned(),
            },
        }
    }
}

impl AcquireFuture {
    /// The future in words.
    pub fn debug(&self, sem: &Semaphore) -> (res: String)
        requires
            sem.wf(),
            self.of(sem@),
        ensures
            res@ == "AcquireFuture("@ + digits(self.amount(sem@) as nat, 10) + ")"@,
    {
        proof {
            sem.lemma_inside();
        }
        in_brackets("AcquireFuture(", &write_digits(sem.waiters.amount(self.waiter), 10))
    }
}

impl AcquireFutureArc {
    /// The future in words.
    pub fn debug(&self, sem: &Semaphore) -> (res: String)
        requires
            sem.wf(),
            self.inner.of(sem@),
        ensures
            res@ == "AcquireFutureArc("@ + digits(self.inner.amount(sem@) as nat, 10) + ")"@,
    {
        proof {
            sem.lemma_inside();
        }
        in_brackets("AcquireFutureArc(", &write_digits(sem.waiters.amount(self.inner.waiter), 10))
    }
}

} // verus!
