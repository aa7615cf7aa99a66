//! The encoder state machine of the convolutional code, the symbol alphabet
//! with its Hamming-style distance, and the heuristic look-ahead decoding
//! table built from three-symbol windows.

use vstd::prelude::*;

verus! {

/// One input or decoded bit: `O` is zero, `I` is one.
#[derive(Clone, Copy, Debug, PartialEq, Eq, Structural)]
pub enum Bit {
    O,
    I,
}

/// The encoder's two-bit shift-register memory: the last two bits fed in,
/// most recent first (`IO` means the last bit was one, the one before zero).
#[derive(Clone, Copy, Debug, PartialEq, Eq, Structural)]
pub enum SMState {
    OO,
    OI,
    IO,
    II,
}

/// A two-bit channel symbol emitted by the encoder for one input bit.
#[derive(Clone, Copy, Debug, PartialEq, Eq, Structural)]
pub enum Signal {
    OO,
    OI,
    IO,
    II,
}

impl Bit {
    /// The bit as a mathematical value, zero or one.
    pub open spec fn as_index(self) -> int {
        match self {
            Bit::O => 0,
            Bit::I => 1,
        }
    }

    /// Dense index of the bit: zero or one.
    pub fn to_index(self) -> (i: usize)
        ensures
            i == self.as_index(),
    {
        match self {
            Bit::O => 0,
            Bit::I => 1,
        }
    }

    /// The bit with the given dense index.
    pub fn from_index(i: usize) -> (b: Bit)
        requires
            i < 2,
        ensures
            b.as_index() == i,
    {
        if i == 0 {
            Bit::O
        } else {
            Bit::I
        }
    }
}

impl SMState {
    /// Dense index of the state, in declaration order.
    pub open spec fn as_index(self) -> int {
        match self {
            SMState::OO => 0,
            SMState::OI => 1,
            SMState::IO => 2,
            SMState::II => 3,
        }
    }

    /// Dense index of the state, for table addressing.
    pub fn to_index(self) -> (i: usize)
        ensures
            i == self.as_index(),
    {
        match self {
            SMState::OO => 0,
            SMState::OI => 1,
            SMState::IO => 2,
            SMState::II => 3,
        }
    }

    /// The state with the given dense index.
    pub fn from_index(i: usize) -> (s: SMState)
        requires
            i < 4,
        ensures
            s.as_index() == i,
    {
        if i == 0 {
            SMState::OO
        } else if i == 1 {
            SMState::OI
        } else if i == 2 {
            SMState::IO
        } else {
            SMState::II
        }
    }
}

impl Signal {
    /// Dense index of the symbol, in declaration order.
    pub open spec fn as_index(self) -> int {
        match self {
            Signal::OO => 0,
            Signal::OI => 1,
            Signal::IO => 2,
            Signal::II => 3,
        }
    }

    /// First constituent bit of the symbol.
    pub open spec fn first_bit(self) -> Bit {
        match self {
            Signal::OO => Bit::O,
            Signal::OI => Bit::O,
            Signal::IO => Bit::I,
            Signal::II => Bit::I,
        }
    }

    /// Second constituent bit of the symbol.
    pub open spec fn second_bit(self) -> Bit {
        match self {
            Signal::OO => Bit::O,
            Signal::OI => Bit::I,
            Signal::IO => Bit::O,
            Signal::II => Bit::I,
        }
    }

    /// Dense index of the symbol, for table addressing.
    pub fn to_index(self) -> (i: usize)
        ensures
            i == self.as_index(),
    {
        match self {
            Signal::OO => 0,
            Signal::OI => 1,
            Signal::IO => 2,
            Signal::II => 3,
        }
    }

    /// The symbol with the given dense index.
    pub fn from_index(i: usize) -> (s: Signal)
        requires
            i < 4,
        ensures
            s.as_index() == i,
    {
        if i == 0 {
            Signal::OO
        } else if i == 1 {
            Signal::OI
        } else if i == 2 {
            Signal::IO
        } else {
            Signal::II
        }
    }

    /// Hamming distance between two symbols: how many of the two constituent
    /// bits differ. Always in `{0, 1, 2}`.
    pub open spec fn dist(a: Signal, b: Signal) -> int {
        (if a.first_bit() == b.first_bit() {
            0int
        } else {
            1int
        }) + (if a.second_bit() == b.second_bit() {
            0int
        } else {
            1int
        })
    }

    /// Hamming distance to another symbol.
    pub fn distance(self, other: Signal) -> (d: usize)
        ensures
            d == Signal::dist(self, other),
    {
        match (self, other) {
            (Signal::OO, Signal::OO) => 0,
            (Signal::OO, Signal::OI) => 1,
            (Signal::OO, Signal::IO) => 1,
            (Signal::OO, Signal::II) => 2,
            (Signal::OI, Signal::OO) => 1,
            (Signal::OI, Signal::OI) => 0,
            (Signal::OI, Signal::IO) => 2,
            (Signal::OI, Signal::II) => 1,
            (Signal::IO, Signal::OO) => 1,
            (Signal::IO, Signal::OI) => 2,
            (Signal::IO, Signal::IO) => 0,
            (Signal::IO, Signal::II) => 1,
            (Signal::II, Signal::OO) => 2,
            (Signal::II, Signal::OI) => 1,
            (Signal::II, Signal::IO) => 1,
            (Signal::II, Signal::II) => 0,
        }
    }
}

/// The next shift-register state after feeding `b` in state `s`: the new bit
/// enters, the older of the two remembered bits falls out.
pub open spec fn next_state(s: SMState, b: Bit) -> SMState {
    match (s, b) {
        (SMState::OO, Bit::O) => SMState::OO,
        (SMState::OO, Bit::I) => SMState::IO,
        (SMState::OI, Bit::O) => SMState::OO,
        (SMState::OI, Bit::I) => SMState::IO,
        (SMState::IO, Bit::O) => SMState::OI,
        (SMState::IO, Bit::I) => SMState::II,
        (SMState::II, Bit::O) => SMState::OI,
        (SMState::II, Bit::I) => SMState::II,
    }
}

/// The symbol the encoder emits when fed `b` in state `s`.
pub open spec fn output_signal(s: SMState, b: Bit) -> Signal {
    match (s, b) {
        (SMState::OO, Bit::O) => Signal::OO,
        (SMState::OO, Bit::I) => Signal::II,
        (SMState::OI, Bit::O) => Signal::II,
        (SMState::OI, Bit::I) => Signal::OO,
        (SMState::IO, Bit::O) => Signal::IO,
        (SMState::IO, Bit::I) => Signal::OI,
        (SMState::II, Bit::O) => Signal::OI,
        (SMState::II, Bit::I) => Signal::IO,
    }
}

/// The deterministic finite-state transducer at the heart of the code: one
/// `set` call consumes an input bit and emits one channel symbol.
#[derive(Clone, Copy, Debug)]
pub struct StateMachine {
    /// The current shift-register memory.
    pub state: SMState,
}

impl StateMachine {
    /// A machine starting in the given state.
    pub fn new(sms: SMState) -> (m: StateMachine)
        ensures
            m.state == sms,
    {
        StateMachine { state: sms }
    }

    /// Feed one input bit: the machine moves to the next state and returns
    /// the emitted symbol, both fixed by the transition tables.
    pub fn set(&mut self, bit: Bit) -> (sig: Signal)
        ensures
            final(self).state == next_state(old(self).state, bit),
            sig == output_signal(old(self).state, bit),
    {
        match (bit, self.state) {
            (Bit::O, SMState::OO) => {
                self.state = SMState::OO;
                Signal::OO
            }
            (Bit::I, SMState::OO) => {
                self.state = SMState::IO;
                Signal::II
            }
            (Bit::O, SMState::OI) => {
                self.state = SMState::OO;
                Signal::II
            }
            (Bit::I, SMState::OI) => {
                self.state = SMState::IO;
                Signal::OO
            }
            (Bit::O, SMState::IO) => {
                self.state = SMState::OI;
                Signal::IO
            }
            (Bit::I, SMState::IO) => {
                self.state = SMState::II;
                Signal::OI
            }
            (Bit::O, SMState::II) => {
                self.state = SMState::OI;
                Signal::OI
            }
            (Bit::I, SMState::II) => {
                self.state = SMState::II;
                Signal::IO
            }
        }
    }
}

/// The state after folding a whole bit sequence into the machine from `s`.
pub open spec fn encode_state(s: SMState, bits: Seq<Bit>) -> SMState
    decreases bits.len(),
{
    if bits.len() == 0 {
        s
    } else {
        next_state(encode_state(s, bits.drop_last()), bits.last())
    }
}

/// The symbol sequence the machine emits while folding `bits` from `s`.
pub open spec fn encode_out(s: SMState, bits: Seq<Bit>) -> Seq<Signal>
    decreases bits.len(),
{
    if bits.len() == 0 {
        Seq::empty()
    } else {
        encode_out(s, bits.drop_last()).push(
            output_signal(encode_state(s, bits.drop_last()), bits.last()),
        )
    }
}

/// A valid input to the encoder: at least two bits, the last two zero, so
/// that the machine returns to the all-zero state at the end.
pub open spec fn tail_forced(bits: Seq<Bit>) -> bool {
    &&& bits.len() >= 2
    &&& bits[bits.len() - 1] == Bit::O
    &&& bits[bits.len() - 2] == Bit::O
}

/// The emitted sequence is exactly one symbol per input bit, and the symbol
/// at each position is fixed by the state reached over the preceding bits.
pub proof fn lemma_encode_out_index(s: SMState, bits: Seq<Bit>)
    ensures
        encode_out(s, bits).len() == bits.len(),
        forall|i: int|
            0 <= i < bits.len() ==> encode_out(s, bits)[i] == output_signal(
                encode_state(s, bits.take(i)),
                bits[i],
            ),
    decreases bits.len(),
{
    if bits.len() > 0 {
        lemma_encode_out_index(s, bits.drop_last());
        assert(bits.drop_last() =~= bits.take(bits.len() - 1));
        assert(forall|i: int|
            0 <= i < bits.len() - 1 ==> bits.drop_last().take(i) =~= bits.take(i));
    }
}

/// Feeding two trailing zero bits drives the machine to the all-zero state,
/// whatever came before: the tail-forcing convention works from any state.
pub proof fn lemma_tail_forced_terminates(s: SMState, bits: Seq<Bit>)
    requires
        tail_forced(bits),
    ensures
        encode_state(s, bits) == SMState::OO,
{
    let prefix = bits.drop_last();
    assert(prefix.last() == bits[bits.len() - 2]);
    assert(encode_state(s, prefix) == next_state(encode_state(s, prefix.drop_last()), Bit::O));
    assert(encode_state(s, bits) == next_state(encode_state(s, prefix), Bit::O));
}

/// Run the encoder over a whole bit sequence from the all-zero state,
/// returning the emitted symbol sequence.
pub fn encode(bits: &Vec<Bit>) -> (out: Vec<Signal>)
    ensures
        out@ == encode_out(SMState::OO, bits@),
        out@.len() == bits@.len(),
{
    let mut sm = StateMachine::new(SMState::OO);
    let mut out: Vec<Signal> = Vec::new();
    proof {
        lemma_encode_out_index(SMState::OO, bits@);
    }
    for i in 0..bits.len()
        invariant
            out@ == encode_out(SMState::OO, bits@.take(i as int)),
            out@.len() == i,
            sm.state == encode_state(SMState::OO, bits@.take(i as int)),
    {
        let sig = sm.set(bits[i]);
        out.push(sig);
        proof {
            assert(bits@.take(i + 1).drop_last() =~= bits@.take(i as int));
            assert(bits@.take(i + 1).last() == bits@[i as int]);
        }
    }
    proof {
        assert(bits@.take(bits@.len() as int) =~= bits@);
    }
    out
}

/// Relies on `rand::random::<bool>`: a fresh pseudo-random draw from the
/// thread-local generator; nothing is promised of the value.
#[verifier::external_body]
fn random_bit() -> (b: Bit) {
    if rand::random::<bool>() {
        Bit::I
    } else {
        Bit::O
    }
}

/// A fresh random bit sequence of the given length with the tail-forcing
/// convention applied: the last two bits are zero, the rest are random.
pub fn random_bits(len: usize) -> (v: Vec<Bit>)
    requires
        len >= 2,
    ensures
        v@.len() == len,
        tail_forced(v@),
{
    let mut v: Vec<Bit> = Vec::new();
    for i in 0..len
        invariant
            v@.len() == i,
            len >= 2,
            forall|k: int| len - 2 <= k < i ==> v@[k] == Bit::O,
    {
        if i < len - 2 {
            v.push(random_bit());
        } else {
            v.push(Bit::O);
        }
    }
    v
}

/// From every state, the two transitions disagree everywhere: feeding zero
/// and feeding one lead to two distinct next states and emit two distinct
/// symbols.
pub proof fn lemma_encode_step_distinct(s: SMState)
    ensures
        next_state(s, Bit::O) != next_state(s, Bit::I),
        output_signal(s, Bit::O) != output_signal(s, Bit::I),
{
}

/// Symbol distance is a metric on the four-symbol space: symmetric, zero
/// exactly between equal symbols, at most two, and it satisfies the
/// triangle inequality.
pub proof fn lemma_dist_metric(a: Signal, b: Signal, c: Signal)
    ensures
        Signal::dist(a, b) == Signal::dist(b, a),
        Signal::dist(a, b) == 0 <==> a == b,
        0 <= Signal::dist(a, b) <= 2,
        Signal::dist(a, c) <= Signal::dist(a, b) + Signal::dist(b, c),
{
}

/// Cumulative symbol distance of the three-bit hypothesis `(b0, b1, b2)`
/// replayed from state `s` against the received window `(o0, o1, o2)`.
pub open spec fn window_dist(
    s: SMState,
    b0: Bit,
    b1: Bit,
    b2: Bit,
    o0: Signal,
    o1: Signal,
    o2: Signal,
) -> int {
    let s1 = next_state(s, b0);
    let s2 = next_state(s1, b1);
    Signal::dist(output_signal(s, b0), o0) + Signal::dist(output_signal(s1, b1), o1)
        + Signal::dist(output_signal(s2, b2), o2)
}

/// After three steps the trellis node depends only on the last two
/// hypothesis bits, so each node is reached by exactly the two hypotheses
/// `(O, b1, b2)` and `(I, b1, b2)`. The survivor at that node is the first
/// bit of whichever has the smaller window distance; an exact tie keeps the
/// zero hypothesis, the earlier one in enumeration order.
pub open spec fn survivor_bit(
    s: SMState,
    o0: Signal,
    o1: Signal,
    o2: Signal,
    b1: Bit,
    b2: Bit,
) -> Bit {
    if window_dist(s, Bit::O, b1, b2, o0, o1, o2) <= window_dist(s, Bit::I, b1, b2, o0, o1, o2) {
        Bit::O
    } else {
        Bit::I
    }
}

/// Sum of the four surviving first bits, one per trellis node reached after
/// the three-symbol window.
pub open spec fn vote_sum(s: SMState, o0: Signal, o1: Signal, o2: Signal) -> int {
    survivor_bit(s, o0, o1, o2, Bit::O, Bit::O).as_index() + survivor_bit(
        s,
        o0,
        o1,
        o2,
        Bit::O,
        Bit::I,
    ).as_index() + survivor_bit(s, o0, o1, o2, Bit::I, Bit::O).as_index() + survivor_bit(
        s,
        o0,
        o1,
        o2,
        Bit::I,
        Bit::I,
    ).as_index()
}

/// The decided bit for one table cell: the majority vote among the four
/// survivors. An exact two-two split decides zero, so the table is total.
#[verifier::opaque]
pub open spec fn lookahead_entry(s: SMState, o0: Signal, o1: Signal, o2: Signal) -> Bit {
    if vote_sum(s, o0, o1, o2) >= 3 {
        Bit::I
    } else {
        Bit::O
    }
}

/// Flat position of the cell for state `s` and received window `(a, b, c)`
/// inside the 256-entry table.
pub open spec fn table_index(s: SMState, a: Signal, b: Signal, c: Signal) -> int {
    ((s.as_index() * 4 + a.as_index()) * 4 + b.as_index()) * 4 + c.as_index()
}

fn survivor_exec(s: SMState, o0: Signal, o1: Signal, o2: Signal, b1: Bit, b2: Bit) -> (b: Bit)
    ensures
        b == survivor_bit(s, o0, o1, o2, b1, b2),
{
    let mut sm0 = StateMachine::new(s);
    let e0 = sm0.set(Bit::O);
    let e1 = sm0.set(b1);
    let e2 = sm0.set(b2);
    let d0 = e0.distance(o0) + e1.distance(o1) + e2.distance(o2);
    let mut sm1 = StateMachine::new(s);
    let f0 = sm1.set(Bit::I);
    let f1 = sm1.set(b1);
    let f2 = sm1.set(b2);
    let d1 = f0.distance(o0) + f1.distance(o1) + f2.distance(o2);
    if d0 <= d1 {
        Bit::O
    } else {
        Bit::I
    }
}

fn lookahead_entry_exec(s: SMState, o0: Signal, o1: Signal, o2: Signal) -> (b: Bit)
    ensures
        b == lookahead_entry(s, o0, o1, o2),
{
    proof {
        reveal(lookahead_entry);
    }
    let sum = survivor_exec(s, o0, o1, o2, Bit::O, Bit::O).to_index() + survivor_exec(
        s,
        o0,
        o1,
        o2,
        Bit::O,
        Bit::I,
    ).to_index() + survivor_exec(s, o0, o1, o2, Bit::I, Bit::O).to_index() + survivor_exec(
        s,
        o0,
        o1,
        o2,
        Bit::I,
        Bit::I,
    ).to_index();
    if sum >= 3 {
        Bit::I
    } else {
        Bit::O
    }
}

/// The look-ahead decoding table: for every starting state and every window
/// of three consecutive received hard symbols, the single decided output
/// bit. Built once, read-only afterwards.
#[derive(Debug)]
pub struct Trellis {
    /// The 256 decided bits, addressed by [`table_index`].
    pub table: Vec<Bit>,
}

impl Trellis {
    /// The table is fully built: 256 cells, each holding exactly the
    /// majority-vote decision for its state and window.
    pub open spec fn wf(self) -> bool {
        &&& self.table@.len() == 256
        &&& forall|s: SMState, a: Signal, b: Signal, c: Signal|
            self.table@[#[trigger] table_index(s, a, b, c)] == lookahead_entry(s, a, b, c)
    }

    /// Build the table by enumerating all 4 states and 64 symbol windows,
    /// replaying the encoder over every three-bit hypothesis for each.
    #[verifier::rlimit(60)]
    pub fn new() -> (t: Trellis)
        ensures
            t.wf(),
    {
        let mut table: Vec<Bit> = Vec::new();
        for si in 0..4usize
            invariant
                table@.len() == si * 64,
                forall|s: SMState, a: Signal, b: Signal, c: Signal|
                    #[trigger] table_index(s, a, b, c) < table@.len() ==> table@[table_index(
                        s,
                        a,
                        b,
                        c,
                    )] == lookahead_entry(s, a, b, c),
        {
            for ai in 0..4usize
                invariant
                    si < 4,
                    table@.len() == si * 64 + ai * 16,
                    forall|s: SMState, a: Signal, b: Signal, c: Signal|
                        #[trigger] table_index(s, a, b, c) < table@.len() ==> table@[table_index(
                            s,
                            a,
                            b,
                            c,
                        )] == lookahead_entry(s, a, b, c),
            {
                for bi in 0..4usize
                    invariant
                        si < 4,
                        ai < 4,
                        table@.len() == si * 64 + ai * 16 + bi * 4,
                        forall|s: SMState, a: Signal, b: Signal, c: Signal|
                            #[trigger] table_index(s, a, b, c) < table@.len() ==> table@[
                            table_index(s, a, b, c)] == lookahead_entry(s, a, b, c),
                {
                    for ci in 0..4usize
                        invariant
                            si < 4,
                            ai < 4,
                            bi < 4,
                            table@.len() == si * 64 + ai * 16 + bi * 4 + ci,
                            forall|s: SMState, a: Signal, b: Signal, c: Signal|
                                #[trigger] table_index(s, a, b, c) < table@.len() ==> table@[
                                table_index(s, a, b, c)] == lookahead_entry(s, a, b, c),
                    {
                        let s = SMState::from_index(si);
                        let a = Signal::from_index(ai);
                        let b = Signal::from_index(bi);
                        let c = Signal::from_index(ci);
                        let entry = lookahead_entry_exec(s, a, b, c);
                        proof {
                            assert(table_index(s, a, b, c) == table@.len());
                        }
                        table.push(entry);
                    }
                }
            }
        }
        Trellis { table }
    }

    /// Read the decided bit for the current state and the next three
    /// received hard symbols.
    pub fn get_next_bit(&self, sms: SMState, sss: (Signal, Signal, Signal)) -> (b: Bit)
        requires
            self.wf(),
        ensures
            b == lookahead_entry(sms, sss.0, sss.1, sss.2),
    {
        let i = ((sms.to_index() * 4 + sss.0.to_index()) * 4 + sss.1.to_index()) * 4
            + sss.2.to_index();
        proof {
            assert(i == table_index(sms, sss.0, sss.1, sss.2));
        }
        self.table[i]
    }
}

} // verus!
