//! The soft-decision pipeline's own encoder, expressed over a pair of raw
//! bits instead of the state enum: bit values, two-bit symbols, the BPSK
//! constellation mapping, and the shift-register state machine.

use vstd::prelude::*;

verus! {

/// One raw bit carried as an integer: well-formed values are `0` and `1`.
#[derive(Clone, Copy, Debug, PartialEq, Eq, Structural)]
pub struct Bit(pub usize);

impl Bit {
    /// The value is an actual bit.
    pub open spec fn wf(self) -> bool {
        self.0 <= 1
    }
}

/// A two-bit channel symbol, first and second constituent bit.
#[derive(Clone, Copy, Debug, PartialEq, Eq, Structural)]
pub struct Signal(pub Bit, pub Bit);

impl Signal {
    /// Both constituent bits are actual bits.
    pub open spec fn wf(self) -> bool {
        self.0.wf() && self.1.wf()
    }
}

/// Split a dense state index into its two bits, high bit first.
pub fn into_2bits(num: usize) -> (r: (Bit, Bit))
    requires
        num < 4,
    ensures
        r.0.wf(),
        r.1.wf(),
        pair_index(r) == num,
{
    if num == 0 {
        (Bit(0), Bit(0))
    } else if num == 1 {
        (Bit(0), Bit(1))
    } else if num == 2 {
        (Bit(1), Bit(0))
    } else {
        (Bit(1), Bit(1))
    }
}

/// The ideal constellation value of one bit: zero maps to minus one, one
/// maps to plus one.
pub open spec fn bpsk_val(b: Bit) -> int {
    if b.0 == 1 {
        1
    } else {
        -1
    }
}

/// Map a symbol to its ideal constellation point, one coordinate per bit.
pub fn bpsk(bits: Signal) -> (r: (isize, isize))
    requires
        bits.wf(),
    ensures
        r.0 == bpsk_val(bits.0),
        r.1 == bpsk_val(bits.1),
{
    let f: isize = if bits.0 .0 == 1 {
        1
    } else {
        -1
    };
    let s: isize = if bits.1 .0 == 1 {
        1
    } else {
        -1
    };
    (f, s)
}

/// Dense index of a state pair, high bit first.
pub open spec fn pair_index(s: (Bit, Bit)) -> int {
    2 * s.0.0 + s.1.0
}

/// Exclusive or of two bits.
pub open spec fn bit_xor(a: Bit, b: Bit) -> Bit {
    if (a.0 == 1) == (b.0 == 1) {
        Bit(0)
    } else {
        Bit(1)
    }
}

/// The next state pair: the input bit enters, the older remembered bit
/// falls out.
pub open spec fn next_pair(s: (Bit, Bit), b: Bit) -> (Bit, Bit) {
    (b, s.0)
}

/// The symbol emitted for input `b` in state `s`: the parity of all three
/// bits, then the parity of the input and the older remembered bit.
pub open spec fn output_pair(s: (Bit, Bit), b: Bit) -> Signal {
    Signal(bit_xor(bit_xor(b, s.0), s.1), bit_xor(b, s.1))
}

/// The state pair after folding a whole bit sequence in from `s`.
pub open spec fn encode2_state(s: (Bit, Bit), bits: Seq<Bit>) -> (Bit, Bit)
    decreases bits.len(),
{
    if bits.len() == 0 {
        s
    } else {
        next_pair(encode2_state(s, bits.drop_last()), bits.last())
    }
}

/// The symbol sequence emitted while folding `bits` in from `s`.
pub open spec fn encode2_out(s: (Bit, Bit), bits: Seq<Bit>) -> Seq<Signal>
    decreases bits.len(),
{
    if bits.len() == 0 {
        Seq::empty()
    } else {
        encode2_out(s, bits.drop_last()).push(
            output_pair(encode2_state(s, bits.drop_last()), bits.last()),
        )
    }
}

/// The shift-register encoder over a raw bit pair.
#[derive(Clone, Copy, Debug)]
pub struct StateMachine(pub Bit, pub Bit);

impl StateMachine {
    /// The remembered pair holds actual bits.
    pub open spec fn wf(self) -> bool {
        self.0.wf() && self.1.wf()
    }

    /// A machine starting at the given state pair.
    pub fn new(sms: (Bit, Bit)) -> (m: StateMachine)
        ensures
            m.0 == sms.0,
            m.1 == sms.1,
    {
        StateMachine(sms.0, sms.1)
    }

    /// Feed one input bit: the machine moves to the next state pair and
    /// returns the emitted symbol, both fixed by the transition tables.
    pub fn set(&mut self, bit: Bit) -> (sig: Signal)
        requires
            old(self).wf(),
            bit.wf(),
        ensures
            final(self).wf(),
            (final(self).0, final(self).1) == next_pair((old(self).0, old(self).1), bit),
            sig == output_pair((old(self).0, old(self).1), bit),
    {
        let s0 = self.0 .0;
        let s1 = self.1 .0;
        let b = bit.0;
        self.0 = Bit(b);
        self.1 = Bit(s0);
        if s0 == 0 && s1 == 0 {
            if b == 0 {
                Signal(Bit(0), Bit(0))
            } else {
                Signal(Bit(1), Bit(1))
            }
        } else if s0 == 0 && s1 == 1 {
            if b == 0 {
                Signal(Bit(1), Bit(1))
            } else {
                Signal(Bit(0), Bit(0))
            }
        } else if s0 == 1 && s1 == 0 {
            if b == 0 {
                Signal(Bit(1), Bit(0))
            } else {
                Signal(Bit(0), Bit(1))
            }
        } else {
            if b == 0 {
                Signal(Bit(0), Bit(1))
            } else {
                Signal(Bit(1), Bit(0))
            }
        }
    }
}

} // verus!
