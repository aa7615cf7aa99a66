//! The heuristic hard-decision decoder: it slides a three-symbol window over
//! the received sequence and reads each output bit from the prebuilt
//! look-ahead table, replaying the encoder to track the state.

use vstd::prelude::*;

use crate::trellis::{
    encode, encode_out, encode_state, lemma_encode_out_index, lookahead_entry, next_state,
    output_signal, tail_forced, Bit, SMState, Signal, StateMachine, Trellis,
};

verus! {

/// The decoder's state after `i` decoded steps: the fold of the table's
/// decisions over the first `i` windows, starting at the all-zero state.
pub open spec fn la_state(obs: Seq<Signal>, i: int) -> SMState
    decreases i,
{
    if i <= 0 {
        SMState::OO
    } else {
        let s = la_state(obs, i - 1);
        next_state(s, lookahead_entry(s, obs[i - 1], obs[i], obs[i + 1]))
    }
}

/// The bit the table decides at step `i`, from the state reached so far and
/// the window of three received symbols starting there.
pub open spec fn la_bit(obs: Seq<Signal>, i: int) -> Bit {
    lookahead_entry(la_state(obs, i), obs[i], obs[i + 1], obs[i + 2])
}

/// What the look-ahead decoder returns on a received hard-symbol sequence:
/// one table decision per window, then two forced zero tail bits.
pub open spec fn lookahead_decode(obs: Seq<Signal>) -> Seq<Bit> {
    Seq::new(
        obs.len(),
        |i: int|
            if i < obs.len() - 2 {
                la_bit(obs, i)
            } else {
                Bit::O
            },
    )
}

/// One simulated transmission decoded with the look-ahead table.
#[derive(Debug)]
pub struct ViterbiHard {
    /// The bit sequence that was sent.
    pub raw_request_data: Vec<Bit>,
    /// The symbol sequence the encoder emitted for it.
    pub signal_request_data: Vec<Signal>,
    /// The received hard symbols: the emitted ones after the channel
    /// requantized its noisy output.
    pub noised_request_data: Vec<Signal>,
    /// The decoded bit sequence, filled by [`ViterbiHard::decode`].
    pub raw_answer_data: Vec<Bit>,
    /// The state machine that replays transitions while decoding.
    pub state_machine: StateMachine,
}

impl ViterbiHard {
    /// Set up a decode run: encode the sent bits and store the received
    /// symbols the channel delivered for them.
    pub fn new(raw_request_data: Vec<Bit>, noised_request_data: Vec<Signal>) -> (v: ViterbiHard)
        requires
            raw_request_data@.len() >= 2,
            noised_request_data@.len() == raw_request_data@.len(),
        ensures
            v.raw_request_data@ == raw_request_data@,
            v.signal_request_data@ == encode_out(SMState::OO, raw_request_data@),
            v.noised_request_data@ == noised_request_data@,
            v.raw_answer_data@ == Seq::<Bit>::empty(),
            v.state_machine.state == SMState::OO,
    {
        let signal_request_data = encode(&raw_request_data);
        ViterbiHard {
            raw_request_data,
            signal_request_data,
            noised_request_data,
            raw_answer_data: Vec::new(),
            state_machine: StateMachine::new(SMState::OO),
        }
    }

    /// The bit sequence that was sent.
    pub fn get_raw_request_data(&self) -> (r: &Vec<Bit>)
        ensures
            r == &self.raw_request_data,
    {
        &self.raw_request_data
    }

    /// The decoded bit sequence.
    pub fn get_raw_answer_data(&self) -> (r: &Vec<Bit>)
        ensures
            r == &self.raw_answer_data,
    {
        &self.raw_answer_data
    }

    /// Decode the received sequence: look up one bit per window, advance the
    /// state machine with it, and append two zero tail bits unconditionally.
    pub fn decode(&mut self, trellis: &Trellis)
        requires
            trellis.wf(),
            old(self).noised_request_data@.len() >= 2,
            old(self).raw_answer_data@.len() == 0,
            old(self).state_machine.state == SMState::OO,
        ensures
            final(self).raw_answer_data@ == lookahead_decode(old(self).noised_request_data@),
            final(self).raw_request_data == old(self).raw_request_data,
            final(self).signal_request_data == old(self).signal_request_data,
            final(self).noised_request_data == old(self).noised_request_data,
    {
        let ghost obs = self.noised_request_data@;
        let n = self.noised_request_data.len();
        for i in 0..n - 2
            invariant
                trellis.wf(),
                self.noised_request_data == old(self).noised_request_data,
                self.noised_request_data@ == obs,
                self.raw_request_data == old(self).raw_request_data,
                self.signal_request_data == old(self).signal_request_data,
                obs.len() == n,
                n >= 2,
                self.raw_answer_data@.len() == i,
                forall|k: int| 0 <= k < i ==> self.raw_answer_data@[k] == la_bit(obs, k),
                self.state_machine.state == la_state(obs, i as int),
        {
            let bit = trellis.get_next_bit(
                self.state_machine.state,
                (
                    self.noised_request_data[i],
                    self.noised_request_data[i + 1],
                    self.noised_request_data[i + 2],
                ),
            );
            self.state_machine.set(bit);
            self.raw_answer_data.push(bit);
        }
        self.raw_answer_data.push(Bit::O);
        self.raw_answer_data.push(Bit::O);
        proof {
            assert(self.raw_answer_data@ =~= lookahead_decode(obs));
        }
    }
}

/// The table's decision on an undisturbed window agrees with the bit that
/// produced it: for every state and hypothesis, looking up the three symbols
/// the encoder itself emits returns the first hypothesis bit.
proof fn lemma_entry_on_true_window(s: SMState, b0: Bit, b1: Bit, b2: Bit)
    ensures
        lookahead_entry(
            s,
            output_signal(s, b0),
            output_signal(next_state(s, b0), b1),
            output_signal(next_state(next_state(s, b0), b1), b2),
        ) == b0,
{
    reveal(lookahead_entry);
}

/// While the received sequence is exactly the encoder's output, the decoder
/// tracks the encoder's state step for step.
proof fn lemma_la_state_tracks(bits: Seq<Bit>, i: int)
    requires
        0 <= i,
        i + 2 <= bits.len(),
    ensures
        la_state(encode_out(SMState::OO, bits), i) == encode_state(SMState::OO, bits.take(i)),
    decreases i,
{
    let obs = encode_out(SMState::OO, bits);
    lemma_encode_out_index(SMState::OO, bits);
    if i > 0 {
        lemma_la_state_tracks(bits, i - 1);
        let s = encode_state(SMState::OO, bits.take(i - 1));
        assert(bits.take(i).drop_last() =~= bits.take(i - 1));
        assert(bits.take(i - 1) =~= bits.take(i - 1 + 1).drop_last());
        assert(obs[i - 1] == output_signal(s, bits[i - 1]));
        assert(obs[i] == output_signal(next_state(s, bits[i - 1]), bits[i]));
        assert(bits.take(i + 1).drop_last() =~= bits.take(i));
        assert(obs[i + 1] == output_signal(
            next_state(next_state(s, bits[i - 1]), bits[i]),
            bits[i + 1],
        ));
        lemma_entry_on_true_window(s, bits[i - 1], bits[i], bits[i + 1]);
    }
}

/// While the received sequence is exactly the encoder's output, each table
/// decision reproduces the bit the encoder consumed at that step.
proof fn lemma_la_bit_tracks(bits: Seq<Bit>, k: int)
    requires
        0 <= k,
        k + 3 <= bits.len(),
    ensures
        la_bit(encode_out(SMState::OO, bits), k) == bits[k],
{
    let obs = encode_out(SMState::OO, bits);
    lemma_encode_out_index(SMState::OO, bits);
    lemma_la_state_tracks(bits, k);
    let s = encode_state(SMState::OO, bits.take(k));
    assert(bits.take(k + 1).drop_last() =~= bits.take(k));
    assert(bits.take(k + 2).drop_last() =~= bits.take(k + 1));
    assert(obs[k] == output_signal(s, bits[k]));
    assert(obs[k + 1] == output_signal(next_state(s, bits[k]), bits[k + 1]));
    assert(obs[k + 2] == output_signal(
        next_state(next_state(s, bits[k]), bits[k + 1]),
        bits[k + 2],
    ));
    lemma_entry_on_true_window(s, bits[k], bits[k + 1], bits[k + 2]);
}

/// Zero-noise round trip of the look-ahead decoder: on the undisturbed
/// output of the encoder for any tail-forced bit sequence, decoding returns
/// that sequence exactly.
pub proof fn lemma_lookahead_roundtrip(bits: Seq<Bit>)
    requires
        tail_forced(bits),
    ensures
        lookahead_decode(encode_out(SMState::OO, bits)) == bits,
{
    let obs = encode_out(SMState::OO, bits);
    let n = bits.len() as int;
    lemma_encode_out_index(SMState::OO, bits);
    let dec = lookahead_decode(obs);
    assert(dec.len() == n);
    assert forall|i: int| 0 <= i < n implies dec[i] == bits[i] by {
        if i < n - 2 {
            lemma_la_bit_tracks(bits, i);
        }
    }
    assert(dec =~= bits);
}

} // verus!
