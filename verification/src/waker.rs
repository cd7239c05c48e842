use crate::atomic::{Atomic, Packable};
use crate::text::{address_text, digits, write_address, write_digits};
use vstd::arithmetic::div_mod::lemma_small_mod;
use vstd::multiset::Multiset;
use vstd::pervasive::unreached;
use vstd::prelude::*;
use vstd::string::StringExecFns;

verus! {

/// The two words of a waker: its data and its table of functions. The table is never zero.
#[derive(Copy, Clone, PartialEq, Eq, Debug, Structural)]
pub struct WakerParts {
    pub data: usize,
    pub vtable: usize,
}

/// What the caller has to do outside of the semaphore.
#[derive(Copy, Clone, PartialEq, Eq, Debug, Structural)]
pub enum Effect {
    /// Wake, and so use up, the waker.
    Wake(WakerParts),
    /// Drop the waker.
    Drop(WakerParts),
    /// Unpark the thread that was given to `start_cancel`.
    Unpark(usize),
}

/// The result of polling.
#[derive(PartialEq, Eq, Debug)]
pub enum Poll<T> {
    Ready(T),
    Pending,
}

#[derive(Copy, Clone, PartialEq, Eq, PartialOrd, Ord, Debug, Structural)]
pub enum State {
    /// A waker may be stored. `seq` counts the wakers that were.
    Pending { seq: usize },
    /// A poll is in progress, storing a new waker.
    Storing { seq: usize },
    /// A finish has succeeded, and will call wake if necessary.
    Finished { poisoned: bool },
    /// `start_cancel` has been called.
    Cancelling,
    /// `accept_cancel` has been called.
    Cancelled,
}

/// The result of an attempt to finish or cancel.
#[derive(Copy, Clone, PartialEq, Eq, PartialOrd, Ord, Debug, Structural)]
pub enum WakerResult {
    /// The future has been cancelled. The producer should accept. The future should wait.
    Cancelling,
    /// The future completed.
    Finished { poisoned: bool },
}

/// A primitive for synchronizing between two parties: the future, which polls and may decide to
/// cancel, and the producer, which finishes the future or accepts its cancellation.
///
/// A method reads the state, decides, and replaces the state if it is still what was read. The
/// methods that end in `_from` take what was read as `current`, however long ago that was.
pub struct AtomicWaker {
    vtable: Atomic<usize>,
    data: Atomic<usize>,
    state: Atomic<State>,
    thread: Option<usize>,
}

/// What an `AtomicWaker` holds.
pub struct WakerView {
    pub state: State,
    pub data: usize,
    pub vtable: usize,
    /// The thread that waits for the cancellation to be accepted.
    pub thread: Option<usize>,
}

/// The sequence numbers that a state can hold.
pub open spec fn seqs() -> int {
    usize::MAX / 8 + 1
}

/// The sequence number after `seq`.
pub open spec fn next_seq(seq: usize) -> usize {
    ((seq + 1) % seqs()) as usize
}

proof fn lemma_seq_bits(x: usize)
    ensures
        x & 7 == x % 8,
        x >> 3 == x / 8,
        x << 3 | 0 == (x as int % seqs()) * 8,
        x << 3 | 1 == (x as int % seqs()) * 8 + 1,
{
    assert(x & 7 == x % 8) by (bit_vector);
    assert(x >> 3 == x / 8) by (bit_vector);
    let top = usize::MAX;
    assert(top <= !0usize) by (bit_vector);
    assert(x << 3 | 0 == (x % ((!0usize / 8 + 1) as usize)) * 8) by (bit_vector);
    assert(x << 3 | 1 == (x % ((!0usize / 8 + 1) as usize)) * 8 + 1) by (bit_vector);
}

/// A sequence number that a state can hold stays the same, and has a successor.
proof fn lemma_seq(seq: usize)
    ensures
        (State::Storing { seq }).canon() == (State::Storing { seq }) ==> seq < seqs(),
        seq < seqs() ==> (State::Storing { seq }).canon() == (State::Storing { seq }),
        seq < usize::MAX ==> (State::Pending { seq: (seq + 1) as usize }).canon() == (
        State::Pending { seq: next_seq(seq) }),
{
    if seq < seqs() {
        lemma_small_mod(seq as nat, seqs() as nat);
    }
}

impl Packable for usize {
    open spec fn fits(self) -> bool {
        true
    }

    open spec fn canon(self) -> Self {
        self
    }

    open spec fn word(self) -> usize {
        self
    }

    open spec fn unpacks(word: usize) -> bool {
        true
    }

    open spec fn of_word(word: usize) -> Self {
        word
    }

    proof fn round_trip(self) {
    }

    fn encode(val: Self) -> (word: usize) {
        val
    }

    fn decode(val: usize) -> (res: Self) {
        val
    }
}

impl Packable for State {
    open spec fn fits(self) -> bool {
        true
    }

    open spec fn canon(self) -> Self {
        match self {
            State::Pending { seq } => State::Pending { seq: (seq as int % seqs()) as usize },
            State::Storing { seq } => State::Storing { seq: (seq as int % seqs()) as usize },
            _ => self,
        }
    }

    open spec fn word(self) -> usize {
        match self {
            State::Pending { seq } => ((seq as int % seqs()) * 8) as usize,
            State::Storing { seq } => ((seq as int % seqs()) * 8 + 1) as usize,
            State::Finished { poisoned: false } => 2,
            State::Finished { poisoned: true } => 3,
            State::Cancelling => 4,
            State::Cancelled => 5,
        }
    }

    open spec fn unpacks(word: usize) -> bool {
        word % 8 <= 5
    }

    open spec fn of_word(word: usize) -> Self {
        if word % 8 == 0 {
            State::Pending { seq: word / 8 }
        } else if word % 8 == 1 {
            State::Storing { seq: word / 8 }
        } else if word % 8 == 2 {
            State::Finished { poisoned: false }
        } else if word % 8 == 3 {
            State::Finished { poisoned: true }
        } else if word % 8 == 4 {
            State::Cancelling
        } else {
            State::Cancelled
        }
    }

    proof fn round_trip(self) {
        match self {
            State::Pending { seq } | State::Storing { seq } => {
                lemma_small_mod((seq as int % seqs()) as nat, seqs() as nat);
            },
            _ => {},
        }
    }

    fn encode(val: Self) -> (word: usize) {
        match val {
            State::Pending { seq } => {
                proof {
                    lemma_seq_bits(seq);
                }
                seq << 3 | 0
            },
            State::Storing { seq } => {
                proof {
                    lemma_seq_bits(seq);
                }
                seq << 3 | 1
            },
            State::Finished { poisoned: false } => 2,
            State::Finished { poisoned: true } => 3,
            State::Cancelling => 4,
            State::Cancelled => 5,
        }
    }

    fn decode(val: usize) -> (res: Self) {
        proof {
            lemma_seq_bits(val);
        }
        match val & 7 {
            0 => State::Pending { seq: val >> 3 },
            1 => State::Storing { seq: val >> 3 },
            2 => State::Finished { poisoned: false },
            3 => State::Finished { poisoned: true },
            4 => State::Cancelling,
            _ => State::Cancelled,
        }
    }
}

impl State {
    pub open spec fn text(self) -> Seq<char> {
        match self {
            State::Pending { seq } => "Pending { seq: "@ + digits(seq as nat, 10) + " }"@,
            State::Storing { seq } => "Storing { seq: "@ + digits(seq as nat, 10) + " }"@,
            State::Finished { poisoned: false } => "Finished { poisoned: false }"@,
            State::Finished { poisoned: true } => "Finished { poisoned: true }"@,
            State::Cancelling => "Cancelling"@,
            State::Cancelled => "Cancelled"@,
        }
    }

    /// The state in words.
    pub fn debug(&self) -> (res: String)
        ensures
            res@ == self.text(),
    {
        match *self {
            State::Pending { seq } => {
                let mut text = "Pending { seq: ".to_owned();
                text.append(write_digits(seq, 10).as_str());
                text.append(" }");
                text
            },
            State::Storing { seq } => {
                let mut text = "Storing { seq: ".to_owned();
                text.append(write_digits(seq, 10).as_str());
                text.append(" }");
                text
            },
            State::Finished { poisoned: false } => "Finished { poisoned: false }".to_owned(),
            State::Finished { poisoned: true } => "Finished { poisoned: true }".to_owned(),
            State::Cancelling => "Cancelling".to_owned(),
            State::Cancelled => "Cancelled".to_owned(),
        }
    }
}

impl WakerView {
    /// The state, the waker and the thread in words.
    pub open spec fn text(self) -> Seq<char> {
        "AW { s: "@ + self.state.text() + ", d: "@ + address_text(self.data) + ", t: "@
            + address_text(self.vtable) + ", t: "@ + match self.thread {
            Some(thread) => "Some("@ + digits(thread as nat, 10) + ")"@,
            None => "None"@,
        } + " }"@
    }

    /// The waker that is stored. It is one only while `vtable` is not zero.
    pub open spec fn parts(self) -> WakerParts {
        WakerParts { data: self.data, vtable: self.vtable }
    }

    /// Neither a poll nor a cancellation is in progress or has ended.
    pub open spec fn idle(self) -> bool {
        self.state is Pending || self.state is Finished
    }

    /// The producer may still finish the future or accept its cancellation, and what it needs for
    /// that is there.
    pub open spec fn unfinished(self) -> bool {
        match self.state {
            State::Pending { .. } => self.vtable != 0,
            State::Storing { .. } => true,
            State::Cancelling => self.thread is Some,
            _ => false,
        }
    }

    /// What `store_waker` leaves.
    pub open spec fn with_parts(self, waker: WakerParts) -> WakerView {
        WakerView { data: waker.data, vtable: waker.vtable, ..self }
    }

    pub open spec fn with_state(self, state: State) -> WakerView {
        WakerView { state, ..self }
    }

    /// The effect of giving up the waker that is stored.
    pub open spec fn dropped(self) -> Seq<Effect> {
        if self.vtable != 0 {
            seq![Effect::Drop(self.parts())]
        } else {
            seq![]
        }
    }

    /// What a poll that is not disturbed leaves.
    pub open spec fn polled(self, waker: WakerParts) -> WakerView {
        match self.state {
            State::Pending { seq } => self.with_parts(waker).with_state(
                State::Pending { seq: next_seq(seq) },
            ),
            _ => self,
        }
    }

    /// The effects of a poll that is not disturbed.
    pub open spec fn poll_effects(self, waker: WakerParts) -> Seq<Effect> {
        match self.state {
            State::Pending { .. } => self.dropped(),
            _ => seq![Effect::Drop(waker)],
        }
    }

    /// What `finish` leaves.
    pub open spec fn finished(self, poisoned: bool) -> WakerView {
        if self.state is Cancelling {
            self
        } else {
            self.with_state(State::Finished { poisoned })
        }
    }

    /// The effects of `finish`: a stored waker is woken. A poll that is storing one will see the
    /// result itself.
    pub open spec fn finish_effects(self) -> Seq<Effect> {
        if self.state is Pending {
            seq![Effect::Wake(self.parts())]
        } else {
            seq![]
        }
    }

    /// What `start_cancel` leaves.
    pub open spec fn cancel_started(self, thread: usize) -> WakerView {
        WakerView {
            state: if self.state is Pending {
                State::Cancelling
            } else {
                self.state
            },
            thread: Some(thread),
            ..self
        }
    }

    /// What `accept_cancel` leaves.
    pub open spec fn cancel_accepted(self) -> WakerView {
        WakerView { state: State::Cancelled, thread: None, ..self }
    }

    /// The waker that dropping the `AtomicWaker` gives up.
    pub open spec fn leftover(self) -> Seq<Effect> {
        match self.state {
            State::Pending { .. } | State::Cancelled => self.dropped(),
            _ => seq![],
        }
    }

    /// The waker that is still to be woken or dropped.
    pub open spec fn held(self) -> Multiset<WakerParts> {
        if self.vtable == 0 || self.state is Finished {
            Multiset::empty()
        } else {
            Multiset::singleton(self.parts())
        }
    }

    /// A poll that is not disturbed gives up all but one of the waker that was held and the new
    /// one.
    pub proof fn law_poll_accounts(self, waker: WakerParts)
        requires
            self.idle(),
            waker.vtable != 0,
        ensures
            self.held().add(Multiset::singleton(waker)) == self.polled(waker).held().add(
                given_up(self.poll_effects(waker)),
            ),
    {
        lemma_given_up(self.parts(), waker);
    }

    /// A poll during which the future is finished gives up both the waker that was held and the
    /// new one, whether the new one was stored before or after.
    pub proof fn law_disturbed_poll_accounts(self, waker: WakerParts, poisoned: bool)
        requires
            self.state is Storing,
            waker.vtable != 0,
        ensures
            ({
                let effects = self.dropped().push(Effect::Drop(waker));
                let before = self.with_parts(waker).finished(poisoned);
                let after = self.finished(poisoned).with_parts(waker);
                &&& self.dropped() + self.with_parts(waker).finish_effects() + seq![
                    Effect::Drop(waker),
                ] == effects
                &&& self.finish_effects() + self.finished(poisoned).dropped() + seq![
                    Effect::Drop(waker),
                ] == effects
                &&& before == after
                &&& self.held().add(Multiset::singleton(waker)) == after.held().add(
                    given_up(effects),
                )
            }),
    {
        lemma_given_up(self.parts(), waker);
        assert(self.finished(poisoned).dropped() == self.dropped());
        assert(self.dropped() + Seq::<Effect>::empty() == self.dropped());
        assert(Seq::<Effect>::empty() + self.dropped() == self.dropped());
        if self.vtable == 0 {
            assert(self.dropped().push(Effect::Drop(waker)) == seq![Effect::Drop(waker)]);
        } else {
            assert(self.dropped().push(Effect::Drop(waker)) == seq![
                Effect::Drop(self.parts()),
                Effect::Drop(waker),
            ]);
        }
    }

    /// Finishing while no poll is in progress gives up the waker that was held, unless the future
    /// is being cancelled.
    pub proof fn law_finish_accounts(self, poisoned: bool)
        requires
            self.unfinished(),
            !(self.state is Storing),
        ensures
            self.held() == self.finished(poisoned).held().add(given_up(self.finish_effects())),
    {
        lemma_given_up(self.parts(), self.parts());
    }

    /// A cancellation keeps the waker until the `AtomicWaker` is dropped, which gives it up.
    pub proof fn law_cancel_accounts(self, thread: usize)
        ensures
            self.idle() ==> self.cancel_started(thread).held() == self.held(),
            self.state is Cancelling ==> self.cancel_accepted().held() == self.held(),
            self.idle() || self.state is Cancelled ==> given_up(self.leftover()) == self.held(),
    {
        lemma_given_up(self.parts(), self.parts());
    }

    /// One step of the future or the producer leads from `self` to `next`.
    pub open spec fn steps_to(self, next: WakerView) -> bool {
        ||| self.state matches State::Pending { seq } && next == self.with_state(
            State::Storing { seq },
        )
        ||| (self.state is Storing || self.state is Finished) && next == self.with_parts(
            next.parts(),
        )
        ||| self.state matches State::Storing { seq } && next == self.with_state(
            State::Pending { seq: next_seq(seq) },
        )
        ||| self.unfinished() && exists|poisoned: bool| next == #[trigger] self.finished(poisoned)
        ||| self.idle() && exists|thread: usize| next == #[trigger] self.cancel_started(thread)
        ||| self.state is Cancelling && next == self.cancel_accepted()
    }

    /// `parts` was stored when the state was pending with the sequence number `seq`, and is so
    /// whenever the state is that again.
    pub open spec fn still(self, seq: usize, parts: WakerParts) -> bool {
        match self.state {
            State::Pending { seq: now } => seq <= now && (seq == now ==> self.parts() == parts),
            State::Storing { seq: now } => seq <= now,
            _ => true,
        }
    }

    /// A waker that was read while the state was pending is the one that is stored as long as the
    /// state is pending with the same sequence number, as long as the sequence numbers do not
    /// start over: a finish that reads the waker, and then finds the state unchanged, wakes the
    /// one that is stored.
    pub proof fn law_waker_read(self, next: WakerView, seq: usize, parts: WakerParts)
        requires
            self.still(seq, parts),
            self.steps_to(next),
            self.state matches State::Storing { seq: now } ==> now + 1 < seqs(),
        ensures
            next.still(seq, parts),
    {
        if let State::Storing { seq: now } = self.state {
            lemma_small_mod((now + 1) as nat, seqs() as nat);
        }
    }
}

/// The wakers that the effects wake or drop.
pub open spec fn given_up(effects: Seq<Effect>) -> Multiset<WakerParts>
    decreases effects.len(),
{
    if effects.len() == 0 {
        Multiset::empty()
    } else {
        let before = given_up(effects.drop_last());
        match effects.last() {
            Effect::Wake(waker) | Effect::Drop(waker) => before.insert(waker),
            Effect::Unpark(_) => before,
        }
    }
}

/// What two sequences of effects give up is what both give up together.
pub proof fn lemma_given_up_sum(a: Seq<Effect>, b: Seq<Effect>)
    ensures
        given_up(a + b) == given_up(a).add(given_up(b)),
    decreases b.len(),
{
    if b.len() > 0 {
        lemma_given_up_sum(a, b.drop_last());
        assert((a + b).drop_last() =~= a + b.drop_last());
        assert((a + b).last() == b.last());
        assert(given_up(a + b) =~= given_up(a).add(given_up(b)));
    } else {
        assert(a + b =~= a);
        assert(given_up(a).add(given_up(b)) =~= given_up(a));
    }
}

proof fn lemma_given_up(a: WakerParts, b: WakerParts)
    ensures
        given_up(seq![]) == Multiset::<WakerParts>::empty(),
        given_up(seq![Effect::Drop(a)]) == Multiset::singleton(a),
        given_up(seq![Effect::Drop(b)]) == Multiset::singleton(b),
        given_up(seq![Effect::Wake(a)]) == Multiset::singleton(a),
        given_up(seq![Effect::Drop(a), Effect::Drop(b)]) == Multiset::singleton(a).add(
            Multiset::singleton(b),
        ),
{
    reveal_with_fuel(given_up, 3);
    let e = Seq::<Effect>::empty();
    assert(seq![Effect::Drop(a)].drop_last() == e);
    assert(seq![Effect::Drop(b)].drop_last() == e);
    assert(seq![Effect::Wake(a)].drop_last() == e);
    assert(seq![Effect::Drop(a), Effect::Drop(b)].drop_last() == seq![Effect::Drop(a)]);
}

impl AtomicWaker {
    pub closed spec fn view(&self) -> WakerView {
        WakerView {
            state: self.state@,
            data: self.data@,
            vtable: self.vtable@,
            thread: self.thread,
        }
    }

    pub closed spec fn wf(&self) -> bool {
        self.state.wf() && self.data.wf() && self.vtable.wf()
    }

    pub fn new() -> (res: Self)
        ensures
            res.wf(),
            res@ == (WakerView {
                state: State::Pending { seq: 0 },
                data: 0,
                vtable: 0,
                thread: None,
            }),
    {
        proof {
            lemma_small_mod(0, seqs() as nat);
        }
        AtomicWaker {
            state: Atomic::new(State::Pending { seq: 0 }),
            vtable: Atomic::new(0),
            data: Atomic::new(0),
            thread: None,
        }
    }

    /// The state, as the `_from` methods take it.
    pub fn state(&self) -> (res: State)
        requires
            self.wf(),
        ensures
            res == self@.state,
            res.canon() == res,
    {
        self.state.load()
    }

    /// The first part of a poll: announces that a waker will be stored and returns the sequence
    /// number of the last one, or returns the poisoned bit if finished.
    pub fn begin_poll_from(&mut self, current: State) -> (res: Result<usize, bool>)
        requires
            old(self).wf(),
            old(self)@.idle(),
            current.canon() == current,
            current is Pending || current == old(self)@.state,
        ensures
            final(self).wf(),
            match old(self)@.state {
                State::Pending { seq } => res == Ok::<usize, bool>(seq) && final(self)@ == old(
                    self,
                )@.with_state(State::Storing { seq }),
                State::Finished { poisoned } => res == Err::<usize, bool>(poisoned) && final(self)@
                    == old(self)@,
                _ => false,
            },
            res matches Ok(seq) ==> seq < seqs(),
    {
        let mut current = current;
        loop
            invariant
                self.wf(),
                self@ == old(self)@,
                self@.idle(),
                current.canon() == current,
                current is Pending || current == self@.state,
            decreases (if current == self@.state { 0int } else { 1 }),
        {
            proof {
                self.state.lemma_canonical();
            }
            match current {
                State::Pending { seq } => {
                    proof {
                        lemma_seq(seq);
                    }
                    if self.state.cmpxchg_weak_acqrel(&mut current, State::Storing { seq }) {
                        return Ok(seq);
                    }
                },
                State::Finished { poisoned } => {
                    return Err(poisoned);
                },
                _ => unreached(),
            }
        }
    }

    /// The second part of a poll: stores the waker and gives up the one that was stored.
    pub fn store_waker(&mut self, waker: WakerParts, effects: &mut Vec<Effect>)
        requires
            old(self).wf(),
        ensures
            final(self).wf(),
            final(self)@ == old(self)@.with_parts(waker),
            final(effects)@ == old(effects)@ + old(self)@.dropped(),
    {
        let old_data: usize = self.data.load();
        let old_vtable: usize = self.vtable.load();
        self.data.store(waker.data);
        self.vtable.store(waker.vtable);
        if old_vtable != 0 {
            effects.push(Effect::Drop(WakerParts { data: old_data, vtable: old_vtable }));
        }
    }

    /// The last part of a poll: announces that the waker is stored, or returns the poisoned bit if
    /// the future was finished in the meantime.
    pub fn end_poll(&mut self, seq: usize, waker: WakerParts, effects: &mut Vec<Effect>) -> (res:
        Poll<bool>)
        requires
            old(self).wf(),
            old(self)@.state is Finished || old(self)@.state == (State::Storing { seq }),
            seq < seqs(),
        ensures
            final(self).wf(),
            match old(self)@.state {
                State::Finished { poisoned } => {
                    &&& res == Poll::Ready(poisoned)
                    &&& final(self)@ == old(self)@
                    &&& final(effects)@ == old(effects)@.push(Effect::Drop(waker))
                },
                _ => {
                    &&& res == Poll::<bool>::Pending
                    &&& final(self)@ == old(self)@.with_state(
                        State::Pending { seq: next_seq(seq) },
                    )
                    &&& final(effects)@ == old(effects)@
                },
            },
    {
        let mut current = State::Storing { seq };
        loop
            invariant
                self.wf(),
                self@ == old(self)@,
                effects@ == old(effects)@,
                self@.state is Finished || self@.state == (State::Storing { seq }),
                current == self@.state || current == (State::Storing { seq }),
                seq < seqs(),
            decreases (if current == self@.state { 0int } else { 1 }),
        {
            proof {
                self.state.lemma_canonical();
                lemma_seq(seq);
            }
            match current {
                State::Storing { seq } => {
                    if self.state.cmpxchg_weak_acqrel(
                        &mut current,
                        State::Pending { seq: seq + 1 },
                    ) {
                        return Poll::Pending;
                    }
                },
                State::Finished { poisoned } => {
                    effects.push(Effect::Drop(waker));
                    return Poll::Ready(poisoned);
                },
                _ => unreached(),
            }
        }
    }

    /// Stores a new waker, or returns the poisoned bit if finished.
    pub fn poll(&mut self, waker: WakerParts, effects: &mut Vec<Effect>) -> (res: Poll<bool>)
        requires
            old(self).wf(),
            old(self)@.idle(),
        ensures
            final(self).wf(),
            final(self)@ == old(self)@.polled(waker),
            res is Pending ==> final(self)@.data == waker.data && final(self)@.vtable
                == waker.vtable,
            final(effects)@ == old(effects)@ + old(self)@.poll_effects(waker),
            res == match old(self)@.state {
                State::Finished { poisoned } => Poll::Ready(poisoned),
                _ => Poll::Pending,
            },
    {
        let current = self.state.load();
        match self.begin_poll_from(current) {
            Ok(seq) => {
                self.store_waker(waker, effects);
                self.end_poll(seq, waker, effects)
            },
            Err(poisoned) => {
                effects.push(Effect::Drop(waker));
                Poll::Ready(poisoned)
            },
        }
    }

    /// Signals that the future is finished.
    pub fn finish_from(
        &mut self,
        current: State,
        poisoned: bool,
        effects: &mut Vec<Effect>,
    ) -> (res: WakerResult)
        requires
            old(self).wf(),
            old(self)@.unfinished(),
            current.canon() == current,
            current is Pending || current is Storing || current == old(self)@.state,
        ensures
            final(self).wf(),
            final(self)@ == old(self)@.finished(poisoned),
            final(effects)@ == old(effects)@ + old(self)@.finish_effects(),
            res == if old(self)@.state is Cancelling {
                WakerResult::Cancelling
            } else {
                WakerResult::Finished { poisoned }
            },
    {
        let mut current = current;
        loop
            invariant
                self.wf(),
                self@ == old(self)@,
                effects@ == old(effects)@,
                self@.unfinished(),
                current.canon() == current,
                current is Pending || current is Storing || current == self@.state,
            decreases (if current == self@.state { 0int } else { 1 }),
        {
            proof {
                self.state.lemma_canonical();
            }
            match current {
                State::Pending { .. } => {
                    let data: usize = self.data.load();
                    let vtable: usize = self.vtable.load();
                    if self.state.cmpxchg_weak_acqrel(&mut current, State::Finished { poisoned }) {
                        effects.push(Effect::Wake(WakerParts { data, vtable }));
                        return WakerResult::Finished { poisoned };
                    }
                },
                State::Storing { .. } => {
                    if self.state.cmpxchg_weak_acqrel(&mut current, State::Finished { poisoned }) {
                        return WakerResult::Finished { poisoned };
                    }
                },
                State::Cancelling => {
                    return WakerResult::Cancelling;
                },
                _ => unreached(),
            }
        }
    }

    /// Signals that the future is finished.
    pub fn finish(&mut self, poisoned: bool, effects: &mut Vec<Effect>) -> (res: WakerResult)
        requires
            old(self).wf(),
            old(self)@.unfinished(),
        ensures
            final(self).wf(),
            final(self)@ == old(self)@.finished(poisoned),
            final(effects)@ == old(effects)@ + old(self)@.finish_effects(),
            res == if old(self)@.state is Cancelling {
                WakerResult::Cancelling
            } else {
                WakerResult::Finished { poisoned }
            },
    {
        let current = self.state.load();
        self.finish_from(current, poisoned, effects)
    }

    /// Starts a cancellation, unless the future has finished. `thread` will be unparked when the
    /// cancellation is accepted.
    pub fn start_cancel_from(&mut self, current: State, thread: usize) -> (res: WakerResult)
        requires
            old(self).wf(),
            old(self)@.idle(),
            current.canon() == current,
            current is Pending || current == old(self)@.state,
        ensures
            final(self).wf(),
            final(self)@ == old(self)@.cancel_started(thread),
            res == match old(self)@.state {
                State::Finished { poisoned } => WakerResult::Finished { poisoned },
                _ => WakerResult::Cancelling,
            },
    {
        self.thread = Some(thread);
        let mut current = current;
        loop
            invariant
                self.wf(),
                self@ == (WakerView { thread: Some(thread), ..old(self)@ }),
                self@.idle(),
                current.canon() == current,
                current is Pending || current == self@.state,
            decreases (if current == self@.state { 0int } else { 1 }),
        {
            proof {
                self.state.lemma_canonical();
            }
            match current {
                State::Pending { .. } => {
                    if self.state.cmpxchg_weak_acqrel(&mut current, State::Cancelling) {
                        return WakerResult::Cancelling;
                    }
                },
                State::Finished { poisoned } => {
                    return WakerResult::Finished { poisoned };
                },
                _ => unreached(),
            }
        }
    }

    /// Starts a cancellation, unless the future has finished. `thread` will be unparked when the
    /// cancellation is accepted.
    pub fn start_cancel(&mut self, thread: usize) -> (res: WakerResult)
        requires
            old(self).wf(),
            old(self)@.idle(),
        ensures
            final(self).wf(),
            final(self)@ == old(self)@.cancel_started(thread),
            res == match old(self)@.state {
                State::Finished { poisoned } => WakerResult::Finished { poisoned },
                _ => WakerResult::Cancelling,
            },
    {
        let current = self.state.load();
        self.start_cancel_from(current, thread)
    }

    /// Whether the producer has accepted the cancellation. The future parks its thread and asks
    /// again until it has.
    pub fn wait_cancel(&self) -> (res: bool)
        requires
            self.wf(),
            self@.state is Cancelling || self@.state is Cancelled,
        ensures
            res == (self@.state is Cancelled),
    {
        match self.state.load() {
            State::Cancelling => false,
            State::Cancelled => true,
            _ => unreached(),
        }
    }

    /// Accepts the cancellation, notifying the thread of the future.
    pub fn accept_cancel(&mut self, effects: &mut Vec<Effect>)
        requires
            old(self).wf(),
            old(self)@.state is Cancelling,
            old(self)@.thread is Some,
        ensures
            final(self).wf(),
            final(self)@ == old(self)@.cancel_accepted(),
            final(effects)@ == old(effects)@.push(Effect::Unpark(old(self)@.thread->0)),
    {
        let mut current = self.state.load();
        loop
            invariant
                self.wf(),
                self@ == old(self)@,
                effects@ == old(effects)@,
                current == self@.state,
                self@.state is Cancelling,
                self@.thread is Some,
            decreases 0int,
        {
            match current {
                State::Cancelling => {
                    let thread = self.thread.take().unwrap();
                    if self.state.cmpxchg_weak_acqrel(&mut current, State::Cancelled) {
                        effects.push(Effect::Unpark(thread));
                        return;
                    } else {
                        self.thread = Some(thread);
                    }
                },
                _ => unreached(),
            }
        }
    }

    /// Gives up the waker that is stored, if it was not used up. `panicking` tells that the thread
    /// is unwinding.
    pub fn drop(&self, panicking: bool, effects: &mut Vec<Effect>)
        requires
            self.wf(),
            panicking || self@.idle() || self@.state is Cancelled,
        ensures
            final(effects)@ == old(effects)@ + self@.leftover(),
    {
        match self.state.load() {
            State::Pending { .. } | State::Cancelled => {
                let data: usize = self.data.load();
                let vtable: usize = self.vtable.load();
                if vtable != 0 {
                    effects.push(Effect::Drop(WakerParts { data, vtable }));
                }
            },
            State::Finished { .. } => {},
            _ => if !panicking {
                unreached()
            },
        }
    }

    /// The state, the waker and the thread in words.
    pub fn debug(&self) -> (res: String)
        requires
            self.wf(),
        ensures
            res@ == self@.text(),
    {
        let mut text = "AW { s: ".to_owned();
        text.append(self.state.load().debug().as_str());
        text.append(", d: ");
        text.append(write_address(self.data.load()).as_str());
        text.append(", t: ");
        text.append(write_address(self.vtable.load()).as_str());
        text.append(", t: ");
        match self.thread {
            Some(thread) => {
                let mut inner = "Some(".to_owned();
                inner.append(write_digits(thread, 10).as_str());
                inner.append(")");
                text.append(inner.as_str());
            },
            None => {
                text.append("None");
            },
        }
        text.append(" }");
        text
    }
}

} // verus!
