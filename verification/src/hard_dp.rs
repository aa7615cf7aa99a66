//! The hard-decision Viterbi decoder: dynamic programming over the
//! four-state trellis with integer symbol distance as the path metric,
//! followed by a traceback along predecessor pointers. Ties during
//! relaxation keep the entry written first, so the lower-indexed
//! predecessor state (and the zero bit) wins deterministically.

use vstd::prelude::*;

use crate::trellis::{
    encode, encode_out, encode_state, lemma_encode_out_index, lemma_tail_forced_terminates,
    next_state, output_signal, tail_forced, Bit, SMState, Signal,
};

verus! {

/// Cost of walking `bits` from state `s`, where the step for `bits[k]` is
/// charged against the observation at position `t0 + k`: the sum of the
/// symbol distances between each emitted symbol and the received one.
pub open spec fn path_cost_at(s: SMState, bits: Seq<Bit>, obs: Seq<Signal>, t0: int) -> int
    decreases bits.len(),
{
    if bits.len() == 0 {
        0
    } else {
        path_cost_at(s, bits.drop_last(), obs, t0) + Signal::dist(
            output_signal(encode_state(s, bits.drop_last()), bits.last()),
            obs[t0 + bits.len() - 1],
        )
    }
}

/// Total distance between the symbols a bit sequence makes the encoder emit
/// (from the all-zero state) and the received sequence.
pub open spec fn path_cost(bits: Seq<Bit>, obs: Seq<Signal>) -> int {
    path_cost_at(SMState::OO, bits, obs, 0)
}

/// One entry of the path memo: whether the trellis node has been reached,
/// the best-so-far cumulative distance, and the predecessor state and input
/// bit of the path that achieved it. The predecessor fields carry no meaning
/// at time zero.
#[derive(Clone, Copy, Debug)]
struct Cell {
    filled: bool,
    pred_state: SMState,
    pred_bit: Bit,
    cost: usize,
}

/// Flat position of the memo entry for time `t` and state `s`.
spec fn midx(t: int, s: SMState) -> int {
    t * 4 + s.as_index()
}

/// A filled memo entry is internally consistent: at time zero it is the
/// zero-cost origin, later it points at a filled predecessor one step back
/// whose cost it extends by exactly the distance charged at that step.
spec fn cell_sound(m: Seq<Cell>, obs: Seq<Signal>, t: int, s: SMState) -> bool {
    m[midx(t, s)].filled ==> {
        let c = m[midx(t, s)];
        &&& c.cost <= 2 * t
        &&& (t == 0 ==> s == SMState::OO && c.cost == 0)
        &&& (t > 0 ==> {
            &&& m[midx(t - 1, c.pred_state)].filled
            &&& next_state(c.pred_state, c.pred_bit) == s
            &&& c.cost == m[midx(t - 1, c.pred_state)].cost + Signal::dist(
                output_signal(c.pred_state, c.pred_bit),
                obs[t - 1],
            )
        })
    }
}

/// Every memo entry up to time `hi` is internally consistent.
spec fn sound_upto(m: Seq<Cell>, obs: Seq<Signal>, hi: int) -> bool {
    forall|t: int, s: SMState| 0 <= t <= hi ==> #[trigger] cell_sound(m, obs, t, s)
}

/// The two trellis edges into a state: each state is reached by exactly two
/// (predecessor state, input bit) pairs, listed by ascending predecessor
/// index.
pub open spec fn pred_of(s: SMState) -> ((SMState, Bit), (SMState, Bit)) {
    match s {
        SMState::OO => ((SMState::OO, Bit::O), (SMState::OI, Bit::O)),
        SMState::OI => ((SMState::IO, Bit::O), (SMState::II, Bit::O)),
        SMState::IO => ((SMState::OO, Bit::I), (SMState::OI, Bit::I)),
        SMState::II => ((SMState::IO, Bit::I), (SMState::II, Bit::I)),
    }
}

/// Whether some input sequence of length `t` drives the encoder from the
/// all-zero state to `s`.
pub open spec fn reach(t: int, s: SMState) -> bool
    decreases t,
{
    if t <= 0 {
        s == SMState::OO
    } else {
        reach(t - 1, pred_of(s).0.0) || reach(t - 1, pred_of(s).1.0)
    }
}

/// The distance charged for entering over the edge `(ps, b)` at time `t`.
pub open spec fn step_cost(t: int, ps: SMState, b: Bit, obs: Seq<Signal>) -> int {
    Signal::dist(output_signal(ps, b), obs[t - 1])
}

/// The minimum cumulative distance over all length-`t` input sequences that
/// reach `s`, by the dynamic-programming recurrence over the two incoming
/// edges. Meaningful only where [`reach`] holds.
pub open spec fn min_cost(t: int, s: SMState, obs: Seq<Signal>) -> int
    decreases t,
{
    if t <= 0 {
        0
    } else {
        let pa = pred_of(s).0;
        let pb = pred_of(s).1;
        let c1 = min_cost(t - 1, pa.0, obs) + step_cost(t, pa.0, pa.1, obs);
        let c2 = min_cost(t - 1, pb.0, obs) + step_cost(t, pb.0, pb.1, obs);
        if reach(t - 1, pa.0) && reach(t - 1, pb.0) {
            if c1 <= c2 {
                c1
            } else {
                c2
            }
        } else if reach(t - 1, pa.0) {
            c1
        } else {
            c2
        }
    }
}

/// A memo entry is complete and minimal: every reachable node is filled, at
/// a cost no worse than the best path into it.
spec fn cell_min(m: Seq<Cell>, obs: Seq<Signal>, t: int, s: SMState) -> bool {
    reach(t, s) ==> m[midx(t, s)].filled && m[midx(t, s)].cost <= min_cost(t, s, obs)
}

/// Every memo entry up to time `hi` is complete and minimal.
spec fn min_upto(m: Seq<Cell>, obs: Seq<Signal>, hi: int) -> bool {
    forall|t: int, s: SMState| 0 <= t <= hi ==> #[trigger] cell_min(m, obs, t, s)
}

/// Mid-slice form of [`cell_min`]: the cell at time `t` already accounts
/// for every incoming edge whose predecessor index is below `j`.
spec fn cell_partial(m: Seq<Cell>, obs: Seq<Signal>, t: int, s: SMState, j: int) -> bool {
    let pa = pred_of(s).0;
    let pb = pred_of(s).1;
    &&& (pa.0.as_index() < j && reach(t - 1, pa.0) ==> m[midx(t, s)].filled && m[midx(t, s)].cost
        <= min_cost(t - 1, pa.0, obs) + step_cost(t, pa.0, pa.1, obs))
    &&& (pb.0.as_index() < j && reach(t - 1, pb.0) ==> m[midx(t, s)].filled && m[midx(t, s)].cost
        <= min_cost(t - 1, pb.0, obs) + step_cost(t, pb.0, pb.1, obs))
}

/// Mid-slice form of [`min_upto`] for the slice being built.
spec fn partial_upto(m: Seq<Cell>, obs: Seq<Signal>, t: int, j: int) -> bool {
    forall|s2: SMState| #[trigger] cell_partial(m, obs, t, s2, j)
}

/// The all-zero state is reachable at every time step, over the all-zero
/// input.
pub proof fn lemma_reach_oo(t: int)
    requires
        0 <= t,
    ensures
        reach(t, SMState::OO),
    decreases t,
{
    if t > 0 {
        lemma_reach_oo(t - 1);
    }
}

/// Extending a reachable predecessor by one edge reaches the next state, at
/// a best cost no worse than that edge offers.
proof fn lemma_pred_step(t: int, sp: SMState, b: Bit, obs: Seq<Signal>)
    requires
        t >= 1,
        reach(t - 1, sp),
    ensures
        reach(t, next_state(sp, b)),
        min_cost(t, next_state(sp, b), obs) <= min_cost(t - 1, sp, obs) + step_cost(t, sp, b, obs),
{
}

/// The dynamic-programming minimum is a lower bound on the cost of every
/// actual input sequence reaching the same node.
pub proof fn lemma_min_cost_le_path(p: Seq<Bit>, obs: Seq<Signal>)
    ensures
        reach(p.len() as int, encode_state(SMState::OO, p)),
        min_cost(p.len() as int, encode_state(SMState::OO, p), obs) <= path_cost(p, obs),
    decreases p.len(),
{
    if p.len() > 0 {
        lemma_min_cost_le_path(p.drop_last(), obs);
        let sp = encode_state(SMState::OO, p.drop_last());
        lemma_pred_step(p.len() as int, sp, p.last(), obs);
    }
}

/// Offer the target cell one more candidate path: the one reaching it from
/// state `s` via bit `b` at cost `base_cost` plus the distance charged
/// against the observation `o` at time `t1 - 1`. The cell keeps the smaller
/// cost; on a tie it keeps what it has.
fn relax(memo: &mut Vec<Cell>, t1: usize, s: SMState, b: Bit, base_cost: usize, o: Signal)
    requires
        t1 >= 1,
        t1 * 4 + 4 <= usize::MAX,
        midx(t1 as int, next_state(s, b)) < old(memo)@.len(),
        base_cost + 2 <= usize::MAX,
    ensures
        final(memo)@.len() == old(memo)@.len(),
        forall|k: int|
            0 <= k < old(memo)@.len() && k != midx(t1 as int, next_state(s, b))
                ==> final(memo)@[k] == old(memo)@[k],
        ({
            let w = midx(t1 as int, next_state(s, b));
            let cand = base_cost + Signal::dist(output_signal(s, b), o);
            let nc = final(memo)@[w];
            let oc = old(memo)@[w];
            &&& nc.filled
            &&& nc.cost <= cand
            &&& (oc.filled ==> nc.cost <= oc.cost)
            &&& (nc == oc || (nc.pred_state == s && nc.pred_bit == b && nc.cost == cand))
        }),
{
    let ns = next_state_exec(s, b);
    let sig = output_signal_exec(s, b);
    let cand = base_cost + sig.distance(o);
    let w = t1 * 4 + ns.to_index();
    proof {
        assert(w == midx(t1 as int, next_state(s, b)));
    }
    let cur = memo[w];
    if !cur.filled || cand < cur.cost {
        memo[w] = Cell { filled: true, pred_state: s, pred_bit: b, cost: cand };
    }
}

/// Executable form of the next-state table.
fn next_state_exec(s: SMState, b: Bit) -> (r: SMState)
    ensures
        r == next_state(s, b),
{
    let mut sm = crate::trellis::StateMachine::new(s);
    sm.set(b);
    sm.state
}

/// Executable form of the output table.
fn output_signal_exec(s: SMState, b: Bit) -> (r: Signal)
    ensures
        r == output_signal(s, b),
{
    let mut sm = crate::trellis::StateMachine::new(s);
    sm.set(b)
}

/// One simulated transmission decoded with the dynamic-programming
/// hard-decision decoder.
#[derive(Debug)]
pub struct ViterbiHardDP {
    /// The bit sequence that was sent.
    pub raw_request_data: Vec<Bit>,
    /// The symbol sequence the encoder emitted for it.
    pub signal_request_data: Vec<Signal>,
    /// The received hard symbols: the emitted ones after the channel
    /// requantized its noisy output.
    pub noised_request_data: Vec<Signal>,
    /// The decoded bit sequence, filled by [`ViterbiHardDP::decode`].
    pub raw_answer_data: Vec<Bit>,
}

impl ViterbiHardDP {
    /// Set up a decode run: encode the sent bits and store the received
    /// symbols the channel delivered for them.
    pub fn new(raw_request_data: Vec<Bit>, noised_request_data: Vec<Signal>) -> (v: ViterbiHardDP)
        requires
            raw_request_data@.len() >= 2,
            noised_request_data@.len() == raw_request_data@.len(),
        ensures
            v.raw_request_data@ == raw_request_data@,
            v.signal_request_data@ == encode_out(SMState::OO, raw_request_data@),
            v.noised_request_data@ == noised_request_data@,
            v.raw_answer_data@ == Seq::<Bit>::empty(),
    {
        let signal_request_data = encode(&raw_request_data);
        ViterbiHardDP {
            raw_request_data,
            signal_request_data,
            noised_request_data,
            raw_answer_data: Vec::new(),
        }
    }

    /// The bit sequence that was sent.
    pub fn get_raw_request_data(&self) -> (r: &Vec<Bit>)
        ensures
            r == &self.raw_request_data,
    {
        &self.raw_request_data
    }

    /// The decoded bit sequence.
    pub fn get_raw_answer_data(&self) -> (r: &Vec<Bit>)
        ensures
            r == &self.raw_answer_data,
    {
        &self.raw_answer_data
    }

    /// Viterbi hard decoding: fill the path memo over the whole trellis,
    /// then trace predecessor pointers back from the terminal all-zero
    /// state. The answer has the received length, drives the encoder back
    /// to the all-zero state, and among all bit sequences doing the same,
    /// none has a smaller total symbol distance to the received sequence. A
    /// path to the terminal state always exists (the all-zero input stays
    /// there), so decoding cannot fail.
    #[verifier::rlimit(100)]
    pub fn decode(&mut self)
        requires
            old(self).noised_request_data@.len() * 4 + 8 <= usize::MAX,
        ensures
            final(self).raw_request_data == old(self).raw_request_data,
            final(self).signal_request_data == old(self).signal_request_data,
            final(self).noised_request_data == old(self).noised_request_data,
            final(self).raw_answer_data@.len() == old(self).noised_request_data@.len(),
            encode_state(SMState::OO, final(self).raw_answer_data@) == SMState::OO,
            forall|p: Seq<Bit>|
                p.len() == old(self).noised_request_data@.len() && encode_state(SMState::OO, p)
                    == SMState::OO ==> path_cost(final(self).raw_answer_data@, old(
                    self,
                ).noised_request_data@) <= #[trigger] path_cost(p, old(self).noised_request_data@),
    {
        let ghost obs = self.noised_request_data@;
        let n = self.noised_request_data.len();

        // Fill the memo: one zero-cost origin, then relax slice by slice.
        let mut memo: Vec<Cell> = Vec::new();
        for k in 0..4 * (n + 1)
            invariant
                memo@.len() == k,
                forall|j: int| 0 <= j < k ==> !memo@[j].filled,
        {
            memo.push(Cell { filled: false, pred_state: SMState::OO, pred_bit: Bit::O, cost: 0 });
        }
        memo[0] = Cell { filled: true, pred_state: SMState::OO, pred_bit: Bit::O, cost: 0 };
        proof {
            assert forall|t: int, s: SMState| 0 <= t <= 0 implies #[trigger] cell_sound(
                memo@,
                obs,
                t,
                s,
            ) by {
                assert(midx(0, SMState::OO) == 0);
            }
            assert forall|t: int, s: SMState| 0 <= t <= 0 implies #[trigger] cell_min(
                memo@,
                obs,
                t,
                s,
            ) by {
                assert(midx(0, SMState::OO) == 0);
            }
        }
        for i in 0..n
            invariant
                self == old(self),
                self.noised_request_data@ == obs,
                obs.len() == n,
                n * 4 + 8 <= usize::MAX,
                memo@.len() == 4 * (n + 1),
                sound_upto(memo@, obs, i as int),
                min_upto(memo@, obs, i as int),
                memo@[midx(i as int, SMState::OO)].filled,
                forall|k2: int| 4 * (i + 1) <= k2 < memo@.len() ==> !memo@[k2].filled,
        {
            proof {
                assert forall|t: int, s2: SMState| 0 <= t <= i + 1 implies #[trigger] cell_sound(
                    memo@,
                    obs,
                    t,
                    s2,
                ) by {
                    if t <= i {
                        assert(cell_sound(memo@, obs, t, s2));
                    } else {
                        assert(midx(t, s2) >= 4 * (i + 1));
                        assert(!memo@[midx(t, s2)].filled);
                    }
                }
            }
            for j in 0..4usize
                invariant
                    self == old(self),
                    self.noised_request_data@ == obs,
                    obs.len() == n,
                    i < n,
                    n * 4 + 8 <= usize::MAX,
                    memo@.len() == 4 * (n + 1),
                    sound_upto(memo@, obs, i + 1),
                    min_upto(memo@, obs, i as int),
                    partial_upto(memo@, obs, i + 1, j as int),
                    memo@[midx(i as int, SMState::OO)].filled,
                    j >= 1 ==> memo@[midx(i + 1, SMState::OO)].filled,
                    forall|k2: int| 4 * (i + 2) <= k2 < memo@.len() ==> !memo@[k2].filled,
            {
                let s = SMState::from_index(j);
                let c = memo[i * 4 + j];
                proof {
                    assert(i * 4 + j == midx(i as int, s));
                    assert(cell_sound(memo@, obs, i as int, s));
                }
                if c.filled {
                    let o = self.noised_request_data[i];
                    let ghost memo_before = memo@;
                    relax(&mut memo, i + 1, s, Bit::O, c.cost, o);
                    let ghost memo_mid = memo@;
                    relax(&mut memo, i + 1, s, Bit::I, c.cost, o);
                    proof {
                        let w0 = midx(i + 1, next_state(s, Bit::O));
                        let w1 = midx(i + 1, next_state(s, Bit::I));
                        assert(next_state(s, Bit::O) != next_state(s, Bit::I));
                        assert(memo@[midx(i as int, s)] == c);
                        assert forall|t: int, s2: SMState| 0 <= t <= i + 1 implies #[trigger]
                        cell_sound(memo@, obs, t, s2) by {
                            assert(cell_sound(memo_before, obs, t, s2));
                            assert(cell_sound(memo_before, obs, i as int, s));
                            if midx(t, s2) == w0 {
                                assert(t == i + 1);
                                assert(s2 == next_state(s, Bit::O));
                                assert(memo@[w0] == memo_mid[w0]);
                                if memo_mid[w0] == memo_before[w0] {
                                    if memo@[w0].filled {
                                        let ps = memo@[w0].pred_state;
                                        assert(memo@[midx(t - 1, ps)] == memo_before[midx(
                                            t - 1,
                                            ps,
                                        )]);
                                    }
                                } else {
                                    assert(memo_mid[w0].pred_state == s && memo_mid[w0].pred_bit
                                        == Bit::O && memo_mid[w0].cost == c.cost + Signal::dist(
                                        output_signal(s, Bit::O),
                                        obs[i as int],
                                    ));
                                    assert(memo@[midx(t - 1, s)] == c);
                                }
                            } else if midx(t, s2) == w1 {
                                assert(t == i + 1);
                                assert(s2 == next_state(s, Bit::I));
                                assert(memo_mid[w1] == memo_before[w1]);
                                if memo@[w1] == memo_mid[w1] {
                                    if memo@[w1].filled {
                                        let ps = memo@[w1].pred_state;
                                        assert(memo@[midx(t - 1, ps)] == memo_before[midx(
                                            t - 1,
                                            ps,
                                        )]);
                                    }
                                } else {
                                    assert(memo@[w1].pred_state == s && memo@[w1].pred_bit
                                        == Bit::I && memo@[w1].cost == c.cost + Signal::dist(
                                        output_signal(s, Bit::I),
                                        obs[i as int],
                                    ));
                                    assert(memo@[midx(t - 1, s)] == c);
                                }
                            } else {
                                assert(memo@[midx(t, s2)] == memo_before[midx(t, s2)]);
                                if t > 0 && memo@[midx(t, s2)].filled {
                                    let ps = memo@[midx(t, s2)].pred_state;
                                    assert(memo@[midx(t - 1, ps)] == memo_before[midx(t - 1, ps)]);
                                }
                            }
                        }
                        if s == SMState::OO {
                            assert(next_state(SMState::OO, Bit::O) == SMState::OO);
                            assert(memo@[w0].filled);
                        }
                        // Entries at or below the current slice kept their
                        // completeness and minimality.
                        assert forall|t: int, s2: SMState| 0 <= t <= i implies #[trigger] cell_min(
                            memo@,
                            obs,
                            t,
                            s2,
                        ) by {
                            assert(cell_min(memo_before, obs, t, s2));
                            assert(memo@[midx(t, s2)] == memo_before[midx(t, s2)]);
                        }
                        // The two relaxations account for both edges out of
                        // this state: the next slice now covers predecessor
                        // indices up to and including this one.
                        assert forall|s2: SMState| #[trigger] cell_partial(
                            memo@,
                            obs,
                            i + 1,
                            s2,
                            j + 1,
                        ) by {
                            assert(partial_upto(memo_before, obs, i + 1, j as int));
                            assert(cell_partial(memo_before, obs, i + 1, s2, j as int));
                            assert(cell_min(memo_before, obs, i as int, s));
                            let pa = pred_of(s2).0;
                            let pb = pred_of(s2).1;
                            assert(memo@[w0] == memo_mid[w0]);
                            assert(memo_mid[w1] == memo_before[w1]);
                            assert(memo@[w0].filled && memo@[w1].filled);
                            assert(memo_before[w0].filled ==> memo@[w0].cost
                                <= memo_before[w0].cost);
                            assert(memo_before[w1].filled ==> memo@[w1].cost
                                <= memo_before[w1].cost);
                            if pa.0 == s {
                                assert(next_state(s, pa.1) == s2);
                            }
                            if pb.0 == s {
                                assert(next_state(s, pb.1) == s2);
                            }
                            if midx(i + 1, s2) != w0 && midx(i + 1, s2) != w1 {
                                assert(memo@[midx(i + 1, s2)] == memo_before[midx(i + 1, s2)]);
                                assert(pa.0 != s && pb.0 != s);
                            }
                        }
                    }
                } else {
                    proof {
                        assert forall|s2: SMState| #[trigger] cell_partial(
                            memo@,
                            obs,
                            i + 1,
                            s2,
                            j + 1,
                        ) by {
                            assert(partial_upto(memo@, obs, i + 1, j as int));
                            assert(cell_partial(memo@, obs, i + 1, s2, j as int));
                            assert(cell_min(memo@, obs, i as int, s));
                            // An edge from this state would need it to be
                            // reachable, hence filled; it is not.
                            if pred_of(s2).0.0 == s && reach(i as int, s) {
                                assert(memo@[midx(i as int, s)].filled);
                                assert(false);
                            }
                            if pred_of(s2).1.0 == s && reach(i as int, s) {
                                assert(memo@[midx(i as int, s)].filled);
                                assert(false);
                            }
                        }
                    }
                }
            }
            proof {
                assert forall|t: int, s2: SMState| 0 <= t <= i + 1 implies #[trigger] cell_min(
                    memo@,
                    obs,
                    t,
                    s2,
                ) by {
                    if t <= i {
                        assert(cell_min(memo@, obs, t, s2));
                    } else {
                        assert(partial_upto(memo@, obs, i + 1, 4));
                        assert(cell_partial(memo@, obs, i + 1, s2, 4));
                        assert(pred_of(s2).0.0.as_index() < 4 && pred_of(s2).1.0.as_index() < 4);
                    }
                }
            }
        }
        // The all-zero input keeps the encoder in the terminal state, so
        // the entry the traceback starts from is always filled.
        let ghost fcost = memo@[midx(n as int, SMState::OO)].cost as int;

        // Traceback: collect the input bits of the best path in reverse.
        let mut rev: Vec<Bit> = Vec::new();
        let ghost mut suffix = Seq::<Bit>::empty();
        let mut cur_s = SMState::OO;
        let mut cur_t = n;
        while cur_t > 0
            invariant
                obs.len() == n,
                n * 4 + 8 <= usize::MAX,
                memo@.len() == 4 * (n + 1),
                cur_t <= n,
                sound_upto(memo@, obs, n as int),
                memo@[midx(cur_t as int, cur_s)].filled,
                suffix.len() == n - cur_t,
                rev@.len() == suffix.len(),
                forall|k: int| 0 <= k < suffix.len() ==> rev@[k] == suffix[suffix.len() - 1 - k],
                encode_state(cur_s, suffix) == SMState::OO,
                memo@[midx(cur_t as int, cur_s)].cost + path_cost_at(
                    cur_s,
                    suffix,
                    obs,
                    cur_t as int,
                ) == fcost,
            decreases cur_t,
        {
            let w = cur_t * 4 + cur_s.to_index();
            let c = memo[w];
            proof {
                assert(w == midx(cur_t as int, cur_s));
                assert(cell_sound(memo@, obs, cur_t as int, cur_s));
                lemma_encode_state_prepend(c.pred_state, c.pred_bit, suffix);
                lemma_path_cost_prepend(c.pred_state, c.pred_bit, suffix, obs, cur_t as int - 1);
            }
            rev.push(c.pred_bit);
            proof {
                suffix = seq![c.pred_bit].add(suffix);
            }
            cur_s = c.pred_state;
            cur_t = cur_t - 1;
        }
        proof {
            assert(cell_sound(memo@, obs, 0, cur_s));
            assert(cur_s == SMState::OO);
            assert(path_cost(suffix, obs) == fcost);
        }

        // Reverse the collected bits into the answer.
        let mut answer: Vec<Bit> = Vec::new();
        for k in 0..n
            invariant
                n == rev@.len(),
                n == suffix.len(),
                answer@.len() == k,
                forall|k2: int| 0 <= k2 < suffix.len() ==> rev@[k2] == suffix[suffix.len() - 1 - k2],
                forall|k2: int| 0 <= k2 < k ==> answer@[k2] == suffix[k2],
        {
            answer.push(rev[n - 1 - k]);
        }
        proof {
            assert(answer@ =~= suffix);
            // Minimality: the memo's terminal cost bounds every terminal
            // path from below, and the answer attains it.
            lemma_reach_oo(n as int);
            assert(cell_min(memo@, obs, n as int, SMState::OO));
            assert forall|p: Seq<Bit>|
                p.len() == n && encode_state(SMState::OO, p) == SMState::OO implies path_cost(
                answer@,
                obs,
            ) <= #[trigger] path_cost(p, obs) by {
                lemma_min_cost_le_path(p, obs);
            }
        }
        self.raw_answer_data = answer;
    }
}

/// A path cost is a sum of distances, so it is never negative.
pub proof fn lemma_path_cost_nonneg(s: SMState, bits: Seq<Bit>, obs: Seq<Signal>, t0: int)
    ensures
        0 <= path_cost_at(s, bits, obs, t0),
    decreases bits.len(),
{
    if bits.len() > 0 {
        lemma_path_cost_nonneg(s, bits.drop_last(), obs, t0);
    }
}

/// A path cost reads only the observations its steps are charged against.
proof fn lemma_path_cost_congr(
    s: SMState,
    bits: Seq<Bit>,
    obs1: Seq<Signal>,
    obs2: Seq<Signal>,
    t0: int,
)
    requires
        forall|k: int| t0 <= k < t0 + bits.len() ==> obs1[k] == obs2[k],
    ensures
        path_cost_at(s, bits, obs1, t0) == path_cost_at(s, bits, obs2, t0),
    decreases bits.len(),
{
    if bits.len() > 0 {
        lemma_path_cost_congr(s, bits.drop_last(), obs1, obs2, t0);
    }
}

/// Against the encoder's own undisturbed output, the sent sequence costs
/// nothing: every emitted symbol matches the received one exactly.
pub proof fn lemma_self_cost_zero(bits: Seq<Bit>)
    ensures
        path_cost(bits, encode_out(SMState::OO, bits)) == 0,
    decreases bits.len(),
{
    let obs = encode_out(SMState::OO, bits);
    if bits.len() > 0 {
        lemma_self_cost_zero(bits.drop_last());
        lemma_encode_out_index(SMState::OO, bits);
        lemma_encode_out_index(SMState::OO, bits.drop_last());
        assert(obs.last() == output_signal(encode_state(SMState::OO, bits.drop_last()), bits.last()));
        assert forall|k: int| 0 <= k < bits.len() - 1 implies encode_out(
            SMState::OO,
            bits.drop_last(),
        )[k] == obs[k] by {
            assert(bits.drop_last().take(k) =~= bits.take(k));
        }
        lemma_path_cost_congr(
            SMState::OO,
            bits.drop_last(),
            obs,
            encode_out(SMState::OO, bits.drop_last()),
            0,
        );
    }
}

/// A zero-cost prefix against the encoder's own output agrees with the sent
/// bits: each step's distance is zero, symbols from one state are distinct
/// per input bit, so each decoded bit is forced.
proof fn lemma_zero_cost_prefix(bits: Seq<Bit>, p: Seq<Bit>, k: int)
    requires
        p.len() == bits.len(),
        0 <= k <= bits.len(),
        path_cost_at(SMState::OO, p.take(k), encode_out(SMState::OO, bits), 0) == 0,
    ensures
        p.take(k) == bits.take(k),
    decreases k,
{
    let obs = encode_out(SMState::OO, bits);
    if k == 0 {
        assert(p.take(0) =~= bits.take(0));
    } else {
        assert(p.take(k).drop_last() =~= p.take(k - 1));
        assert(p.take(k).last() == p[k - 1]);
        lemma_path_cost_nonneg(SMState::OO, p.take(k - 1), obs, 0);
        let st = encode_state(SMState::OO, p.take(k - 1));
        assert(path_cost_at(SMState::OO, p.take(k), obs, 0) == path_cost_at(
            SMState::OO,
            p.take(k - 1),
            obs,
            0,
        ) + Signal::dist(output_signal(st, p[k - 1]), obs[k - 1]));
        assert(Signal::dist(output_signal(st, p[k - 1]), obs[k - 1]) >= 0);
        lemma_zero_cost_prefix(bits, p, k - 1);
        lemma_encode_out_index(SMState::OO, bits);
        assert(obs[k - 1] == output_signal(encode_state(SMState::OO, bits.take(k - 1)), bits[k
            - 1]));
        assert(output_signal(st, p[k - 1]) == obs[k - 1]);
        assert(p[k - 1] == bits[k - 1]);
        assert(p.take(k) =~= bits.take(k));
    }
}

/// The heart of the zero-noise round trip for both dynamic-programming
/// decoders: against the undisturbed output of the encoder for a sent
/// sequence, any equally long path whose cost does not exceed the sent
/// sequence's own cost is the sent sequence itself.
pub proof fn lemma_min_cost_roundtrip(bits: Seq<Bit>, p: Seq<Bit>)
    requires
        p.len() == bits.len(),
        path_cost(p, encode_out(SMState::OO, bits)) <= path_cost(
            bits,
            encode_out(SMState::OO, bits),
        ),
    ensures
        p == bits,
{
    let obs = encode_out(SMState::OO, bits);
    lemma_self_cost_zero(bits);
    lemma_path_cost_nonneg(SMState::OO, p, obs, 0);
    assert(p.take(p.len() as int) =~= p);
    lemma_zero_cost_prefix(bits, p, bits.len() as int);
    assert(bits.take(bits.len() as int) =~= bits);
}

/// Zero-noise round trip of hard dynamic-programming decoding: what
/// [`ViterbiHardDP::decode`] guarantees of its answer, applied to the
/// undisturbed output of the encoder for a tail-forced sent sequence,
/// already forces the answer to be that sequence.
pub proof fn lemma_dp_zero_noise_roundtrip(bits: Seq<Bit>, answer: Seq<Bit>)
    requires
        tail_forced(bits),
        answer.len() == bits.len(),
        encode_state(SMState::OO, answer) == SMState::OO,
        forall|p: Seq<Bit>|
            p.len() == bits.len() && encode_state(SMState::OO, p) == SMState::OO ==> path_cost(
                answer,
                encode_out(SMState::OO, bits),
            ) <= #[trigger] path_cost(p, encode_out(SMState::OO, bits)),
    ensures
        answer == bits,
{
    lemma_tail_forced_terminates(SMState::OO, bits);
    lemma_encode_out_index(SMState::OO, bits);
    assert(path_cost(answer, encode_out(SMState::OO, bits)) <= path_cost(
        bits,
        encode_out(SMState::OO, bits),
    ));
    lemma_min_cost_roundtrip(bits, answer);
}

/// Feeding only zero bits keeps the machine in the all-zero state.
pub proof fn lemma_zeros_reach(n: nat)
    ensures
        encode_state(SMState::OO, Seq::new(n, |k: int| Bit::O)) == SMState::OO,
    decreases n,
{
    if n > 0 {
        lemma_zeros_reach((n - 1) as nat);
        assert(Seq::new(n, |k: int| Bit::O).drop_last() =~= Seq::new(
            (n - 1) as nat,
            |k: int| Bit::O,
        ));
    }
}

/// Walking one prepended bit first is the same as starting one transition
/// later.
proof fn lemma_encode_state_prepend(s: SMState, b: Bit, rest: Seq<Bit>)
    ensures
        encode_state(s, seq![b].add(rest)) == encode_state(next_state(s, b), rest),
    decreases rest.len(),
{
    if rest.len() == 0 {
        assert(seq![b].add(rest) =~= seq![b]);
        assert(seq![b].drop_last() =~= Seq::<Bit>::empty());
        assert(seq![b].last() == b);
        assert(encode_state(s, seq![b]) == next_state(encode_state(s, seq![b].drop_last()), b));
    } else {
        lemma_encode_state_prepend(s, b, rest.drop_last());
        assert(seq![b].add(rest).drop_last() =~= seq![b].add(rest.drop_last()));
        assert(seq![b].add(rest).last() == rest.last());
    }
}

/// The cost of a path splits into its first step and the rest.
proof fn lemma_path_cost_prepend(s: SMState, b: Bit, rest: Seq<Bit>, obs: Seq<Signal>, t0: int)
    ensures
        path_cost_at(s, seq![b].add(rest), obs, t0) == Signal::dist(output_signal(s, b), obs[t0])
            + path_cost_at(next_state(s, b), rest, obs, t0 + 1),
    decreases rest.len(),
{
    if rest.len() == 0 {
        assert(seq![b].add(rest) =~= seq![b]);
        assert(seq![b].drop_last() =~= Seq::<Bit>::empty());
        assert(seq![b].last() == b);
        assert(path_cost_at(s, seq![b], obs, t0) == path_cost_at(s, Seq::<Bit>::empty(), obs, t0)
            + Signal::dist(output_signal(encode_state(s, seq![b].drop_last()), b), obs[t0]));
    } else {
        lemma_path_cost_prepend(s, b, rest.drop_last(), obs, t0);
        lemma_encode_state_prepend(s, b, rest.drop_last());
        assert(seq![b].add(rest).drop_last() =~= seq![b].add(rest.drop_last()));
        assert(seq![b].add(rest).last() == rest.last());
    }
}

} // verus!
