//! The soft-decision Viterbi decoder: the same dynamic programming as the
//! hard decoder, but the channel output is kept unquantized and each step is
//! charged the squared Euclidean distance between the received point and the
//! ideal constellation point of the hypothesized symbol. Observations are
//! carried in fixed point: one unit of amplitude is `BPSK_SCALE`. Ties keep
//! the entry written first, so the lower-indexed predecessor wins.

use vstd::prelude::*;

use crate::binary::{
    bpsk_val, encode2_out, encode2_state, into_2bits, next_pair, output_pair, pair_index, Bit,
    Signal, StateMachine,
};

verus! {

/// Fixed-point representation of amplitude one: the constellation points
/// sit at plus and minus this value.
pub const BPSK_SCALE: i64 = 65536;

/// Largest admissible magnitude of a received coordinate: eight amplitude
/// units, comfortably beyond any plausible noise excursion.
pub const OBS_AMP: i64 = 524288;

/// Upper bound on the squared distance charged for one step.
pub const STEP_BOUND: i64 = 1099511627776;

/// A received soft observation: the two noisy channel coordinates in fixed
/// point, `BPSK_SCALE` per amplitude unit.
#[derive(Clone, Copy, Debug, PartialEq, Eq, Structural)]
pub struct NoisedSignal(pub i64, pub i64);

impl NoisedSignal {
    /// Both coordinates are within the admissible amplitude range.
    pub open spec fn wf(self) -> bool {
        -OBS_AMP <= self.0 <= OBS_AMP && -OBS_AMP <= self.1 <= OBS_AMP
    }
}

/// Squared Euclidean distance between the ideal constellation point of a
/// symbol and a received point.
pub open spec fn dist_sq(sig: Signal, o: NoisedSignal) -> int {
    (bpsk_val(sig.0) * BPSK_SCALE - o.0) * (bpsk_val(sig.0) * BPSK_SCALE - o.0) + (bpsk_val(sig.1)
        * BPSK_SCALE - o.1) * (bpsk_val(sig.1) * BPSK_SCALE - o.1)
}

fn dist_sq_exec(sig: Signal, o: NoisedSignal) -> (d: i64)
    requires
        sig.wf(),
        o.wf(),
    ensures
        d == dist_sq(sig, o),
        0 <= d <= STEP_BOUND,
{
    let p0: i64 = if sig.0 .0 == 1 {
        BPSK_SCALE
    } else {
        -BPSK_SCALE
    };
    let p1: i64 = if sig.1 .0 == 1 {
        BPSK_SCALE
    } else {
        -BPSK_SCALE
    };
    let d0 = p0 - o.0;
    let d1 = p1 - o.1;
    proof {
        assert(-589824 <= d0 <= 589824);
        assert(-589824 <= d1 <= 589824);
        assert(0 <= d0 * d0 <= 347892350976) by (nonlinear_arith)
            requires
                -589824 <= d0 <= 589824,
        ;
        assert(0 <= d1 * d1 <= 347892350976) by (nonlinear_arith)
            requires
                -589824 <= d1 <= 589824,
        ;
    }
    d0 * d0 + d1 * d1
}

/// Cost of walking `bits` from state pair `s`, where the step for `bits[k]`
/// is charged against the observation at position `t0 + k`: the sum of the
/// squared Euclidean distances between each emitted symbol's constellation
/// point and the received point.
pub open spec fn path_cost_at(
    s: (Bit, Bit),
    bits: Seq<Bit>,
    obs: Seq<NoisedSignal>,
    t0: int,
) -> int
    decreases bits.len(),
{
    if bits.len() == 0 {
        0
    } else {
        path_cost_at(s, bits.drop_last(), obs, t0) + dist_sq(
            output_pair(encode2_state(s, bits.drop_last()), bits.last()),
            obs[t0 + bits.len() - 1],
        )
    }
}

/// Total squared Euclidean distance between the constellation points a bit
/// sequence makes the encoder emit (from the all-zero pair) and the
/// received sequence.
pub open spec fn path_cost(bits: Seq<Bit>, obs: Seq<NoisedSignal>) -> int {
    path_cost_at((Bit(0), Bit(0)), bits, obs, 0)
}

/// The two trellis edges into a state pair, listed by ascending predecessor
/// index: the input bit that enters is the pair's newer bit, the
/// predecessor remembers the pair's older bit first.
pub open spec fn pred_of(s: (Bit, Bit)) -> (((Bit, Bit), Bit), ((Bit, Bit), Bit)) {
    (((s.1, Bit(0)), s.0), ((s.1, Bit(1)), s.0))
}

/// Whether some input sequence of length `t` drives the encoder from the
/// all-zero pair to `s`.
pub open spec fn reach(t: int, s: (Bit, Bit)) -> bool
    decreases t,
{
    if t <= 0 {
        s == (Bit(0), Bit(0))
    } else {
        reach(t - 1, pred_of(s).0.0) || reach(t - 1, pred_of(s).1.0)
    }
}

/// The squared distance charged for entering over the edge `(ps, b)` at
/// time `t`.
pub open spec fn step_cost(t: int, ps: (Bit, Bit), b: Bit, obs: Seq<NoisedSignal>) -> int {
    dist_sq(output_pair(ps, b), obs[t - 1])
}

/// The minimum cumulative squared distance over all length-`t` input
/// sequences that reach `s`, by the dynamic-programming recurrence over the
/// two incoming edges. Meaningful only where [`reach`] holds.
pub open spec fn min_cost(t: int, s: (Bit, Bit), obs: Seq<NoisedSignal>) -> int
    decreases t,
{
    if t <= 0 {
        0
    } else {
        let pa = pred_of(s).0;
        let pb = pred_of(s).1;
        let c1 = min_cost(t - 1, pa.0, obs) + step_cost(t, pa.0, pa.1, obs);
        let c2 = min_cost(t - 1, pb.0, obs) + step_cost(t, pb.0, pb.1, obs);
        if reach(t - 1, pa.0) && reach(t - 1, pb.0) {
            if c1 <= c2 {
                c1
            } else {
                c2
            }
        } else if reach(t - 1, pa.0) {
            c1
        } else {
            c2
        }
    }
}

/// Requantize a soft observation to the nearest hard symbol by independent
/// per-coordinate sign test: a non-negative coordinate reads as one, a
/// negative one as zero.
pub fn quantize(o: NoisedSignal) -> (s: Signal)
    ensures
        s.0 == (if o.0 >= 0 { Bit(1) } else { Bit(0) }),
        s.1 == (if o.1 >= 0 { Bit(1) } else { Bit(0) }),
        s.wf(),
{
    let f = if o.0 >= 0 {
        Bit(1)
    } else {
        Bit(0)
    };
    let sec = if o.1 >= 0 {
        Bit(1)
    } else {
        Bit(0)
    };
    Signal(f, sec)
}

/// One entry of the soft path memo; the predecessor fields carry no meaning
/// at time zero.
#[derive(Clone, Copy, Debug)]
struct Cell {
    filled: bool,
    pred_s0: Bit,
    pred_s1: Bit,
    pred_bit: Bit,
    cost: i64,
}

impl Cell {
    spec fn pred_pair(self) -> (Bit, Bit) {
        (self.pred_s0, self.pred_s1)
    }
}

/// Flat position of the memo entry for time `t` and state pair `s`.
spec fn midx(t: int, s: (Bit, Bit)) -> int {
    t * 4 + pair_index(s)
}

/// A filled soft memo entry is internally consistent, mirroring the hard
/// decoder's invariant with the squared-distance metric.
spec fn cell_sound(m: Seq<Cell>, obs: Seq<NoisedSignal>, t: int, s: (Bit, Bit)) -> bool {
    m[midx(t, s)].filled ==> {
        let c = m[midx(t, s)];
        &&& c.pred_s0.wf() && c.pred_s1.wf() && c.pred_bit.wf()
        &&& 0 <= c.cost <= t * STEP_BOUND
        &&& (t == 0 ==> s == (Bit(0), Bit(0)) && c.cost == 0)
        &&& (t > 0 ==> {
            &&& m[midx(t - 1, c.pred_pair())].filled
            &&& next_pair(c.pred_pair(), c.pred_bit) == s
            &&& c.cost == m[midx(t - 1, c.pred_pair())].cost + dist_sq(
                output_pair(c.pred_pair(), c.pred_bit),
                obs[t - 1],
            )
        })
    }
}

/// Every soft memo entry for a well-formed state pair up to time `hi` is
/// internally consistent.
spec fn sound_upto(m: Seq<Cell>, obs: Seq<NoisedSignal>, hi: int) -> bool {
    forall|t: int, s: (Bit, Bit)|
        0 <= t <= hi && s.0.wf() && s.1.wf() ==> #[trigger] cell_sound(m, obs, t, s)
}

/// A memo entry is complete and minimal: every reachable node is filled, at
/// a cost no worse than the best path into it.
spec fn cell_min(m: Seq<Cell>, obs: Seq<NoisedSignal>, t: int, s: (Bit, Bit)) -> bool {
    reach(t, s) ==> m[midx(t, s)].filled && m[midx(t, s)].cost <= min_cost(t, s, obs)
}

/// Every memo entry for a well-formed state pair up to time `hi` is
/// complete and minimal.
spec fn min_upto(m: Seq<Cell>, obs: Seq<NoisedSignal>, hi: int) -> bool {
    forall|t: int, s: (Bit, Bit)|
        0 <= t <= hi && s.0.wf() && s.1.wf() ==> #[trigger] cell_min(m, obs, t, s)
}

/// Mid-slice form of [`cell_min`]: the cell at time `t` already accounts
/// for every incoming edge whose predecessor index is below `j`.
spec fn cell_partial(m: Seq<Cell>, obs: Seq<NoisedSignal>, t: int, s: (Bit, Bit), j: int) -> bool {
    let pa = pred_of(s).0;
    let pb = pred_of(s).1;
    &&& (pair_index(pa.0) < j && reach(t - 1, pa.0) ==> m[midx(t, s)].filled && m[midx(t, s)].cost
        <= min_cost(t - 1, pa.0, obs) + step_cost(t, pa.0, pa.1, obs))
    &&& (pair_index(pb.0) < j && reach(t - 1, pb.0) ==> m[midx(t, s)].filled && m[midx(t, s)].cost
        <= min_cost(t - 1, pb.0, obs) + step_cost(t, pb.0, pb.1, obs))
}

/// Mid-slice form of [`min_upto`] for the slice being built.
spec fn partial_upto(m: Seq<Cell>, obs: Seq<NoisedSignal>, t: int, j: int) -> bool {
    forall|s2: (Bit, Bit)|
        s2.0.wf() && s2.1.wf() ==> #[trigger] cell_partial(m, obs, t, s2, j)
}

/// The all-zero pair is reachable at every time step, over the all-zero
/// input.
pub proof fn lemma_reach_oo(t: int)
    requires
        0 <= t,
    ensures
        reach(t, (Bit(0), Bit(0))),
    decreases t,
{
    if t > 0 {
        lemma_reach_oo(t - 1);
    }
}

/// Extending a reachable predecessor by one edge reaches the next pair, at
/// a best cost no worse than that edge offers.
proof fn lemma_pred_step(t: int, sp: (Bit, Bit), b: Bit, obs: Seq<NoisedSignal>)
    requires
        t >= 1,
        sp.0.wf(),
        sp.1.wf(),
        b.wf(),
        reach(t - 1, sp),
    ensures
        reach(t, next_pair(sp, b)),
        min_cost(t, next_pair(sp, b), obs) <= min_cost(t - 1, sp, obs) + step_cost(t, sp, b, obs),
{
}

/// The dynamic-programming minimum is a lower bound on the cost of every
/// actual input sequence reaching the same node.
pub proof fn lemma_min_cost_le_path(p: Seq<Bit>, obs: Seq<NoisedSignal>)
    requires
        forall|k: int| 0 <= k < p.len() ==> (#[trigger] p[k]).wf(),
    ensures
        reach(p.len() as int, encode2_state((Bit(0), Bit(0)), p)),
        min_cost(p.len() as int, encode2_state((Bit(0), Bit(0)), p), obs) <= path_cost(p, obs),
    decreases p.len(),
{
    if p.len() > 0 {
        assert(forall|k: int|
            0 <= k < p.drop_last().len() ==> (#[trigger] p.drop_last()[k]).wf());
        lemma_min_cost_le_path(p.drop_last(), obs);
        let sp = encode2_state((Bit(0), Bit(0)), p.drop_last());
        lemma_encode2_state_wf(p.drop_last());
        lemma_pred_step(p.len() as int, sp, p.last(), obs);
    }
}

/// Folding well-formed bits from the all-zero pair keeps the state pair
/// well formed.
proof fn lemma_encode2_state_wf(p: Seq<Bit>)
    requires
        forall|k: int| 0 <= k < p.len() ==> (#[trigger] p[k]).wf(),
    ensures
        encode2_state((Bit(0), Bit(0)), p).0.wf(),
        encode2_state((Bit(0), Bit(0)), p).1.wf(),
    decreases p.len(),
{
    if p.len() > 0 {
        assert(forall|k: int|
            0 <= k < p.drop_last().len() ==> (#[trigger] p.drop_last()[k]).wf());
        lemma_encode2_state_wf(p.drop_last());
    }
}

/// One simulated transmission decoded with the soft-decision decoder.
#[derive(Debug)]
pub struct ViterbiSoft {
    /// The bit sequence that was sent.
    pub raw_request_data: Vec<Bit>,
    /// The symbol sequence the encoder emitted for it.
    pub signal_request_data: Vec<Signal>,
    /// The received soft observations, unquantized, in fixed point.
    pub noised_request_data: Vec<NoisedSignal>,
    /// The decoded bit sequence, filled by [`ViterbiSoft::decode`].
    pub raw_answer_data: Vec<Bit>,
}

impl ViterbiSoft {
    /// Set up a decode run: encode the sent bits with the pair-state
    /// machine and store the soft observations the channel delivered.
    pub fn new(raw_request_data: Vec<Bit>, noised_request_data: Vec<NoisedSignal>) -> (v:
        ViterbiSoft)
        requires
            raw_request_data@.len() >= 2,
            noised_request_data@.len() == raw_request_data@.len(),
            forall|k: int| 0 <= k < raw_request_data@.len() ==> raw_request_data@[k].wf(),
        ensures
            v.raw_request_data@ == raw_request_data@,
            v.signal_request_data@ == encode2_out((Bit(0), Bit(0)), raw_request_data@),
            v.noised_request_data@ == noised_request_data@,
            v.raw_answer_data@ == Seq::<Bit>::empty(),
    {
        let mut sm = StateMachine::new((Bit(0), Bit(0)));
        let mut signal_request_data: Vec<Signal> = Vec::new();
        let n = raw_request_data.len();
        for i in 0..n
            invariant
                n == raw_request_data@.len(),
                forall|k: int| 0 <= k < n ==> raw_request_data@[k].wf(),
                signal_request_data@ == encode2_out(
                    (Bit(0), Bit(0)),
                    raw_request_data@.take(i as int),
                ),
                signal_request_data@.len() == i,
                sm.wf(),
                (sm.0, sm.1) == encode2_state((Bit(0), Bit(0)), raw_request_data@.take(i as int)),
        {
            let sig = sm.set(raw_request_data[i]);
            signal_request_data.push(sig);
            proof {
                assert(raw_request_data@.take(i + 1).drop_last() =~= raw_request_data@.take(
                    i as int,
                ));
                assert(raw_request_data@.take(i + 1).last() == raw_request_data@[i as int]);
            }
        }
        proof {
            assert(raw_request_data@.take(raw_request_data@.len() as int) =~= raw_request_data@);
        }
        ViterbiSoft {
            raw_request_data,
            signal_request_data,
            noised_request_data,
            raw_answer_data: Vec::new(),
        }
    }

    /// Viterbi soft decoding: identical dynamic programming to the hard
    /// decoder, with the squared Euclidean metric and a strictly-smaller
    /// relaxation rule. The answer has the received length, holds actual
    /// bits, drives the pair-state encoder back to the all-zero pair, and
    /// among all well-formed bit sequences doing the same, none has a
    /// smaller total squared distance to the received sequence. A path to
    /// the terminal pair always exists, so decoding cannot fail.
    #[verifier::rlimit(100)]
    pub fn decode(&mut self)
        requires
            old(self).noised_request_data@.len() <= 1048576,
            forall|k: int|
                0 <= k < old(self).noised_request_data@.len()
                    ==> (#[trigger] old(self).noised_request_data@[k]).wf(),
        ensures
            final(self).raw_request_data == old(self).raw_request_data,
            final(self).signal_request_data == old(self).signal_request_data,
            final(self).noised_request_data == old(self).noised_request_data,
            final(self).raw_answer_data@.len() == old(self).noised_request_data@.len(),
            forall|k: int|
                0 <= k < final(self).raw_answer_data@.len()
                    ==> (#[trigger] final(self).raw_answer_data@[k]).wf(),
            encode2_state((Bit(0), Bit(0)), final(self).raw_answer_data@) == (Bit(0), Bit(0)),
            forall|p: Seq<Bit>|
                p.len() == old(self).noised_request_data@.len() && (forall|k: int|
                    0 <= k < p.len() ==> (#[trigger] p[k]).wf()) && encode2_state(
                    (Bit(0), Bit(0)),
                    p,
                ) == (Bit(0), Bit(0)) ==> path_cost(final(self).raw_answer_data@, old(
                    self,
                ).noised_request_data@) <= #[trigger] path_cost(p, old(self).noised_request_data@),
    {
        let ghost obs = self.noised_request_data@;
        let n = self.noised_request_data.len();

        let mut memo: Vec<Cell> = Vec::new();
        for k in 0..4 * (n + 1)
            invariant
                memo@.len() == k,
                forall|j: int| 0 <= j < k ==> !memo@[j].filled,
        {
            memo.push(
                Cell { filled: false, pred_s0: Bit(0), pred_s1: Bit(0), pred_bit: Bit(0), cost: 0 },
            );
        }
        memo[0] = Cell { filled: true, pred_s0: Bit(0), pred_s1: Bit(0), pred_bit: Bit(0), cost: 0 };
        proof {
            assert forall|t: int, s: (Bit, Bit)|
                0 <= t <= 0 && s.0.wf() && s.1.wf() implies #[trigger] cell_sound(
                memo@,
                obs,
                t,
                s,
            ) by {
                assert(midx(0, (Bit(0), Bit(0))) == 0);
                if memo@[midx(t, s)].filled {
                    assert(pair_index(s) == 0);
                    assert(s.0.0 == 0 && s.1.0 == 0);
                }
            }
            assert forall|t: int, s: (Bit, Bit)|
                0 <= t <= 0 && s.0.wf() && s.1.wf() implies #[trigger] cell_min(
                memo@,
                obs,
                t,
                s,
            ) by {
                assert(midx(0, (Bit(0), Bit(0))) == 0);
            }
        }
        for i in 0..n
            invariant
                self == old(self),
                self.noised_request_data@ == obs,
                obs.len() == n,
                n <= 1048576,
                forall|k: int| 0 <= k < n ==> (#[trigger] obs[k]).wf(),
                memo@.len() == 4 * (n + 1),
                sound_upto(memo@, obs, i as int),
                min_upto(memo@, obs, i as int),
                memo@[midx(i as int, (Bit(0), Bit(0)))].filled,
                forall|k2: int| 4 * (i + 1) <= k2 < memo@.len() ==> !memo@[k2].filled,
        {
            proof {
                assert forall|t: int, s2: (Bit, Bit)|
                    0 <= t <= i + 1 && s2.0.wf() && s2.1.wf() implies #[trigger] cell_sound(
                    memo@,
                    obs,
                    t,
                    s2,
                ) by {
                    if t <= i {
                        assert(cell_sound(memo@, obs, t, s2));
                    } else {
                        assert(midx(t, s2) >= 4 * (i + 1));
                        assert(!memo@[midx(t, s2)].filled);
                    }
                }
            }
            for j in 0..4usize
                invariant
                    self == old(self),
                    self.noised_request_data@ == obs,
                    obs.len() == n,
                    i < n,
                    n <= 1048576,
                    forall|k: int| 0 <= k < n ==> (#[trigger] obs[k]).wf(),
                    memo@.len() == 4 * (n + 1),
                    sound_upto(memo@, obs, i + 1),
                    min_upto(memo@, obs, i as int),
                    partial_upto(memo@, obs, i + 1, j as int),
                    memo@[midx(i as int, (Bit(0), Bit(0)))].filled,
                    j >= 1 ==> memo@[midx(i + 1, (Bit(0), Bit(0)))].filled,
                    forall|k2: int| 4 * (i + 2) <= k2 < memo@.len() ==> !memo@[k2].filled,
            {
                let s = into_2bits(j);
                let c = memo[i * 4 + j];
                proof {
                    assert(i * 4 + j == midx(i as int, s));
                    assert(cell_sound(memo@, obs, i as int, s));
                }
                if c.filled {
                    let o = self.noised_request_data[i];
                    let ghost memo_before = memo@;
                    relax_soft(&mut memo, i + 1, s, Bit(0), c.cost, o);
                    let ghost memo_mid = memo@;
                    relax_soft(&mut memo, i + 1, s, Bit(1), c.cost, o);
                    proof {
                        let w0 = midx(i + 1, next_pair(s, Bit(0)));
                        let w1 = midx(i + 1, next_pair(s, Bit(1)));
                        assert(next_pair(s, Bit(0)) != next_pair(s, Bit(1)));
                        assert(memo@[midx(i as int, s)] == c);
                        assert forall|t: int, s2: (Bit, Bit)|
                            0 <= t <= i + 1 && s2.0.wf() && s2.1.wf() implies #[trigger]
                        cell_sound(memo@, obs, t, s2) by {
                            assert(cell_sound(memo_before, obs, t, s2));
                            assert(cell_sound(memo_before, obs, i as int, s));
                            if midx(t, s2) == w0 {
                                assert(memo@[w0] == memo_mid[w0]);
                                if memo_mid[w0] == memo_before[w0] {
                                    if memo@[w0].filled && t > 0 {
                                        let ps = memo@[w0].pred_pair();
                                        assert(memo@[midx(t - 1, ps)] == memo_before[midx(
                                            t - 1,
                                            ps,
                                        )]);
                                    }
                                } else {
                                    assert(t == i + 1 && s2 == next_pair(s, Bit(0)));
                                    assert(memo@[midx(t - 1, s)] == c);
                                }
                            } else if midx(t, s2) == w1 {
                                assert(memo_mid[w1] == memo_before[w1]);
                                if memo@[w1] == memo_mid[w1] {
                                    if memo@[w1].filled && t > 0 {
                                        let ps = memo@[w1].pred_pair();
                                        assert(memo@[midx(t - 1, ps)] == memo_before[midx(
                                            t - 1,
                                            ps,
                                        )]);
                                    }
                                } else {
                                    assert(t == i + 1 && s2 == next_pair(s, Bit(1)));
                                    assert(memo@[midx(t - 1, s)] == c);
                                }
                            } else {
                                assert(memo@[midx(t, s2)] == memo_before[midx(t, s2)]);
                                if t > 0 && memo@[midx(t, s2)].filled {
                                    let ps = memo@[midx(t, s2)].pred_pair();
                                    assert(memo@[midx(t - 1, ps)] == memo_before[midx(t - 1, ps)]);
                                }
                            }
                        }
                        if pair_index(s) == 0 {
                            assert(s == (Bit(0), Bit(0)));
                            assert(next_pair(s, Bit(0)) == (Bit(0), Bit(0)));
                            assert(memo@[w0].filled);
                        }
                        // Entries at or below the current slice kept their
                        // completeness and minimality.
                        assert forall|t: int, s2: (Bit, Bit)|
                            0 <= t <= i && s2.0.wf() && s2.1.wf() implies #[trigger] cell_min(
                            memo@,
                            obs,
                            t,
                            s2,
                        ) by {
                            assert(cell_min(memo_before, obs, t, s2));
                            assert(memo@[midx(t, s2)] == memo_before[midx(t, s2)]);
                        }
                        // The two relaxations account for both edges out of
                        // this state: the next slice now covers predecessor
                        // indices up to and including this one.
                        assert forall|s2: (Bit, Bit)|
                            s2.0.wf() && s2.1.wf() implies #[trigger] cell_partial(
                            memo@,
                            obs,
                            i + 1,
                            s2,
                            j + 1,
                        ) by {
                            assert(partial_upto(memo_before, obs, i + 1, j as int));
                            assert(cell_partial(memo_before, obs, i + 1, s2, j as int));
                            assert(cell_min(memo_before, obs, i as int, s));
                            let pa = pred_of(s2).0;
                            let pb = pred_of(s2).1;
                            assert(memo@[w0] == memo_mid[w0]);
                            assert(memo_mid[w1] == memo_before[w1]);
                            assert(memo@[w0].filled && memo@[w1].filled);
                            assert(memo_before[w0].filled ==> memo@[w0].cost
                                <= memo_before[w0].cost);
                            assert(memo_before[w1].filled ==> memo@[w1].cost
                                <= memo_before[w1].cost);
                            if pa.0 == s {
                                assert(next_pair(s, pa.1) == s2);
                            }
                            if pb.0 == s {
                                assert(next_pair(s, pb.1) == s2);
                            }
                            if midx(i + 1, s2) != w0 && midx(i + 1, s2) != w1 {
                                assert(memo@[midx(i + 1, s2)] == memo_before[midx(i + 1, s2)]);
                                assert(pa.0 != s && pb.0 != s);
                            }
                        }
                    }
                } else {
                    proof {
                        assert forall|s2: (Bit, Bit)|
                            s2.0.wf() && s2.1.wf() implies #[trigger] cell_partial(
                            memo@,
                            obs,
                            i + 1,
                            s2,
                            j + 1,
                        ) by {
                            assert(partial_upto(memo@, obs, i + 1, j as int));
                            assert(cell_partial(memo@, obs, i + 1, s2, j as int));
                            assert(cell_min(memo@, obs, i as int, s));
                            // An edge from this state would need it to be
                            // reachable, hence filled; it is not.
                            if pred_of(s2).0.0 == s && reach(i as int, s) {
                                assert(memo@[midx(i as int, s)].filled);
                                assert(false);
                            }
                            if pred_of(s2).1.0 == s && reach(i as int, s) {
                                assert(memo@[midx(i as int, s)].filled);
                                assert(false);
                            }
                        }
                    }
                }
            }
            proof {
                assert forall|t: int, s2: (Bit, Bit)|
                    0 <= t <= i + 1 && s2.0.wf() && s2.1.wf() implies #[trigger] cell_min(
                    memo@,
                    obs,
                    t,
                    s2,
                ) by {
                    if t <= i {
                        assert(cell_min(memo@, obs, t, s2));
                    } else {
                        assert(partial_upto(memo@, obs, i + 1, 4));
                        assert(cell_partial(memo@, obs, i + 1, s2, 4));
                        assert(pair_index(pred_of(s2).0.0) < 4 && pair_index(pred_of(s2).1.0) < 4);
                    }
                }
            }
        }
        let ghost fcost = memo@[midx(n as int, (Bit(0), Bit(0)))].cost as int;

        // Traceback along predecessor pointers from the terminal pair.
        let mut rev: Vec<Bit> = Vec::new();
        let ghost mut suffix = Seq::<Bit>::empty();
        let mut cs0 = Bit(0);
        let mut cs1 = Bit(0);
        let mut cur_t = n;
        while cur_t > 0
            invariant
                obs.len() == n,
                n <= 1048576,
                memo@.len() == 4 * (n + 1),
                cur_t <= n,
                cs0.wf(),
                cs1.wf(),
                sound_upto(memo@, obs, n as int),
                memo@[midx(cur_t as int, (cs0, cs1))].filled,
                suffix.len() == n - cur_t,
                rev@.len() == suffix.len(),
                forall|k: int| 0 <= k < suffix.len() ==> rev@[k] == suffix[suffix.len() - 1 - k],
                forall|k: int| 0 <= k < suffix.len() ==> (#[trigger] suffix[k]).wf(),
                encode2_state((cs0, cs1), suffix) == (Bit(0), Bit(0)),
                memo@[midx(cur_t as int, (cs0, cs1))].cost + path_cost_at(
                    (cs0, cs1),
                    suffix,
                    obs,
                    cur_t as int,
                ) == fcost,
            decreases cur_t,
        {
            let w = cur_t * 4 + (2 * cs0.0 + cs1.0);
            let c = memo[w];
            proof {
                assert(w == midx(cur_t as int, (cs0, cs1)));
                assert(cell_sound(memo@, obs, cur_t as int, (cs0, cs1)));
                lemma_encode2_prepend(c.pred_pair(), c.pred_bit, suffix);
                lemma_path_cost_prepend(c.pred_pair(), c.pred_bit, suffix, obs, cur_t as int - 1);
            }
            rev.push(c.pred_bit);
            proof {
                suffix = seq![c.pred_bit].add(suffix);
            }
            cs0 = c.pred_s0;
            cs1 = c.pred_s1;
            cur_t = cur_t - 1;
        }
        proof {
            assert(cell_sound(memo@, obs, 0, (cs0, cs1)));
            assert((cs0, cs1) == (Bit(0), Bit(0)));
            assert(path_cost(suffix, obs) == fcost);
        }

        let mut answer: Vec<Bit> = Vec::new();
        for k in 0..n
            invariant
                n == rev@.len(),
                n == suffix.len(),
                answer@.len() == k,
                forall|k2: int| 0 <= k2 < suffix.len() ==> rev@[k2] == suffix[suffix.len() - 1 - k2],
                forall|k2: int| 0 <= k2 < k ==> answer@[k2] == suffix[k2],
        {
            answer.push(rev[n - 1 - k]);
        }
        proof {
            assert(answer@ =~= suffix);
            // Minimality: the memo's terminal cost bounds every terminal
            // path from below, and the answer attains it.
            lemma_reach_oo(n as int);
            assert(cell_min(memo@, obs, n as int, (Bit(0), Bit(0))));
            assert forall|p: Seq<Bit>|
                p.len() == n && (forall|k: int| 0 <= k < p.len() ==> (#[trigger] p[k]).wf())
                    && encode2_state((Bit(0), Bit(0)), p) == (Bit(0), Bit(0)) implies path_cost(
                answer@,
                obs,
            ) <= #[trigger] path_cost(p, obs) by {
                lemma_min_cost_le_path(p, obs);
            }
        }
        self.raw_answer_data = answer;
    }
}

/// Offer the target soft cell one more candidate path, keeping the smaller
/// cost; on a tie it keeps what it has.
fn relax_soft(memo: &mut Vec<Cell>, t1: usize, s: (Bit, Bit), b: Bit, base_cost: i64, o: NoisedSignal)
    requires
        t1 >= 1,
        t1 * 4 + 4 <= usize::MAX,
        s.0.wf(),
        s.1.wf(),
        b.wf(),
        o.wf(),
        midx(t1 as int, next_pair(s, b)) < old(memo)@.len(),
        0 <= base_cost,
        base_cost + STEP_BOUND <= i64::MAX,
    ensures
        final(memo)@.len() == old(memo)@.len(),
        0 <= dist_sq(output_pair(s, b), o) <= STEP_BOUND,
        forall|k: int|
            0 <= k < old(memo)@.len() && k != midx(t1 as int, next_pair(s, b)) ==> final(memo)@[k]
                == old(memo)@[k],
        ({
            let w = midx(t1 as int, next_pair(s, b));
            let cand = base_cost + dist_sq(output_pair(s, b), o);
            let nc = final(memo)@[w];
            let oc = old(memo)@[w];
            &&& nc.filled
            &&& nc.cost <= cand
            &&& (oc.filled ==> nc.cost <= oc.cost)
            &&& (nc == oc || (nc.pred_s0 == s.0 && nc.pred_s1 == s.1 && nc.pred_bit == b && nc.cost
                == cand))
        }),
{
    let mut sm = StateMachine::new(s);
    let sig = sm.set(b);
    let cand = base_cost + dist_sq_exec(sig, o);
    let w = t1 * 4 + (2 * sm.0 .0 + sm.1 .0);
    proof {
        assert(w == midx(t1 as int, next_pair(s, b)));
    }
    let cur = memo[w];
    if !cur.filled || cand < cur.cost {
        memo[w] = Cell { filled: true, pred_s0: s.0, pred_s1: s.1, pred_bit: b, cost: cand };
    }
}

/// The noiseless observation of a symbol: its exact constellation point in
/// fixed point.
pub open spec fn exact_observation(sig: Signal) -> NoisedSignal {
    NoisedSignal((bpsk_val(sig.0) * BPSK_SCALE) as i64, (bpsk_val(sig.1) * BPSK_SCALE) as i64)
}

/// The noiseless observation sequence for a sent bit sequence: one exact
/// constellation point per emitted symbol.
pub open spec fn exact_observations(bits: Seq<Bit>) -> Seq<NoisedSignal> {
    Seq::new(
        bits.len(),
        |i: int| exact_observation(encode2_out((Bit(0), Bit(0)), bits)[i]),
    )
}

/// A squared distance is never negative.
proof fn lemma_dist_sq_nonneg(sig: Signal, o: NoisedSignal)
    ensures
        0 <= dist_sq(sig, o),
{
    let a = bpsk_val(sig.0) * BPSK_SCALE - o.0;
    let b = bpsk_val(sig.1) * BPSK_SCALE - o.1;
    assert(a * a >= 0) by (nonlinear_arith);
    assert(b * b >= 0) by (nonlinear_arith);
}

/// A path cost is a sum of squared distances, so it is never negative.
pub proof fn lemma_path_cost_nonneg(s: (Bit, Bit), bits: Seq<Bit>, obs: Seq<NoisedSignal>, t0: int)
    ensures
        0 <= path_cost_at(s, bits, obs, t0),
    decreases bits.len(),
{
    if bits.len() > 0 {
        lemma_path_cost_nonneg(s, bits.drop_last(), obs, t0);
        lemma_dist_sq_nonneg(
            output_pair(encode2_state(s, bits.drop_last()), bits.last()),
            obs[t0 + bits.len() - 1],
        );
    }
}

/// A zero squared distance to a symbol's own constellation point forces the
/// symbols equal, for well-formed symbols: the points of distinct symbols
/// differ in a coordinate.
proof fn lemma_dist_sq_zero(sig: Signal, t: Signal)
    requires
        sig.wf(),
        t.wf(),
        dist_sq(sig, exact_observation(t)) == 0,
    ensures
        sig == t,
{
    let a = bpsk_val(sig.0) * BPSK_SCALE - bpsk_val(t.0) * BPSK_SCALE;
    let b = bpsk_val(sig.1) * BPSK_SCALE - bpsk_val(t.1) * BPSK_SCALE;
    assert(a * a >= 0) by (nonlinear_arith);
    assert(b * b >= 0) by (nonlinear_arith);
    assert(a == 0) by (nonlinear_arith)
        requires
            a * a == 0,
    ;
    assert(b == 0) by (nonlinear_arith)
        requires
            b * b == 0,
    ;
}

/// A symbol is at squared distance zero from its own constellation point.
proof fn lemma_dist_sq_self(sig: Signal)
    ensures
        dist_sq(sig, exact_observation(sig)) == 0,
{
    let a = bpsk_val(sig.0) * BPSK_SCALE;
    let b = bpsk_val(sig.1) * BPSK_SCALE;
    assert(a == a as i64 && b == b as i64);
    let da = a - a as i64;
    let db = b - b as i64;
    assert(da * da == 0) by (nonlinear_arith)
        requires
            da == 0,
    ;
    assert(db * db == 0) by (nonlinear_arith)
        requires
            db == 0,
    ;
}

/// The emitted sequence is one symbol per input bit, each fixed by the
/// state reached over the preceding bits.
proof fn lemma_encode2_out_index(s: (Bit, Bit), bits: Seq<Bit>)
    ensures
        encode2_out(s, bits).len() == bits.len(),
        forall|i: int|
            0 <= i < bits.len() ==> encode2_out(s, bits)[i] == output_pair(
                encode2_state(s, bits.take(i)),
                bits[i],
            ),
    decreases bits.len(),
{
    if bits.len() > 0 {
        lemma_encode2_out_index(s, bits.drop_last());
        assert(bits.drop_last() =~= bits.take(bits.len() - 1));
        assert(forall|i: int|
            0 <= i < bits.len() - 1 ==> bits.drop_last().take(i) =~= bits.take(i));
    }
}

/// A path cost reads only the observations its steps are charged against.
proof fn lemma_path_cost_congr(
    s: (Bit, Bit),
    bits: Seq<Bit>,
    obs1: Seq<NoisedSignal>,
    obs2: Seq<NoisedSignal>,
    t0: int,
)
    requires
        forall|k: int| t0 <= k < t0 + bits.len() ==> obs1[k] == obs2[k],
    ensures
        path_cost_at(s, bits, obs1, t0) == path_cost_at(s, bits, obs2, t0),
    decreases bits.len(),
{
    if bits.len() > 0 {
        lemma_path_cost_congr(s, bits.drop_last(), obs1, obs2, t0);
    }
}

/// Against its own noiseless observations, the sent sequence costs
/// nothing: every constellation point matches the received one exactly.
pub proof fn lemma_self_cost_zero(bits: Seq<Bit>)
    ensures
        path_cost(bits, exact_observations(bits)) == 0,
    decreases bits.len(),
{
    let obs = exact_observations(bits);
    if bits.len() > 0 {
        lemma_self_cost_zero(bits.drop_last());
        lemma_encode2_out_index((Bit(0), Bit(0)), bits);
        lemma_encode2_out_index((Bit(0), Bit(0)), bits.drop_last());
        let st = encode2_state((Bit(0), Bit(0)), bits.drop_last());
        assert(bits.take(bits.len() - 1) =~= bits.drop_last());
        assert(obs[bits.len() - 1] == exact_observation(output_pair(st, bits.last())));
        lemma_dist_sq_self(output_pair(st, bits.last()));
        assert(dist_sq(output_pair(st, bits.last()), obs[bits.len() - 1]) == 0);
        assert forall|k: int| 0 <= k < bits.len() - 1 implies exact_observations(
            bits.drop_last(),
        )[k] == obs[k] by {
            assert(bits.drop_last().take(k) =~= bits.take(k));
        }
        lemma_path_cost_congr(
            (Bit(0), Bit(0)),
            bits.drop_last(),
            obs,
            exact_observations(bits.drop_last()),
            0,
        );
    }
}

/// A zero-cost prefix against the noiseless observations agrees with the
/// sent bits: each step's squared distance is zero, and from one state the
/// two emitted symbols differ, so each decoded bit is forced.
proof fn lemma_zero_cost_prefix(bits: Seq<Bit>, p: Seq<Bit>, k: int)
    requires
        forall|k2: int| 0 <= k2 < bits.len() ==> (#[trigger] bits[k2]).wf(),
        forall|k2: int| 0 <= k2 < p.len() ==> (#[trigger] p[k2]).wf(),
        p.len() == bits.len(),
        0 <= k <= bits.len(),
        path_cost_at((Bit(0), Bit(0)), p.take(k), exact_observations(bits), 0) == 0,
    ensures
        p.take(k) == bits.take(k),
    decreases k,
{
    let obs = exact_observations(bits);
    if k == 0 {
        assert(p.take(0) =~= bits.take(0));
    } else {
        assert(p.take(k).drop_last() =~= p.take(k - 1));
        assert(p.take(k).last() == p[k - 1]);
        lemma_path_cost_nonneg((Bit(0), Bit(0)), p.take(k - 1), obs, 0);
        let st = encode2_state((Bit(0), Bit(0)), p.take(k - 1));
        lemma_dist_sq_nonneg(output_pair(st, p[k - 1]), obs[k - 1]);
        assert(path_cost_at((Bit(0), Bit(0)), p.take(k), obs, 0) == path_cost_at(
            (Bit(0), Bit(0)),
            p.take(k - 1),
            obs,
            0,
        ) + dist_sq(output_pair(st, p[k - 1]), obs[k - 1]));
        lemma_zero_cost_prefix(bits, p, k - 1);
        lemma_encode2_out_index((Bit(0), Bit(0)), bits);
        let tst = encode2_state((Bit(0), Bit(0)), bits.take(k - 1));
        assert(obs[k - 1] == exact_observation(output_pair(tst, bits[k - 1])));
        assert(forall|k2: int|
            0 <= k2 < p.take(k - 1).len() ==> (#[trigger] p.take(k - 1)[k2]).wf());
        lemma_encode2_state_wf(p.take(k - 1));
        lemma_dist_sq_zero(output_pair(st, p[k - 1]), output_pair(tst, bits[k - 1]));
        assert(p[k - 1] == bits[k - 1]);
        assert(p.take(k) =~= bits.take(k));
    }
}

/// The heart of the zero-noise round trip for soft decoding: against the
/// noiseless observations of a sent sequence, any equally long well-formed
/// path whose cost does not exceed the sent sequence's own cost is the sent
/// sequence itself.
pub proof fn lemma_min_cost_roundtrip(bits: Seq<Bit>, p: Seq<Bit>)
    requires
        forall|k: int| 0 <= k < bits.len() ==> (#[trigger] bits[k]).wf(),
        forall|k: int| 0 <= k < p.len() ==> (#[trigger] p[k]).wf(),
        p.len() == bits.len(),
        path_cost(p, exact_observations(bits)) <= path_cost(bits, exact_observations(bits)),
    ensures
        p == bits,
{
    let obs = exact_observations(bits);
    lemma_self_cost_zero(bits);
    lemma_path_cost_nonneg((Bit(0), Bit(0)), p, obs, 0);
    assert(p.take(p.len() as int) =~= p);
    lemma_zero_cost_prefix(bits, p, bits.len() as int);
    assert(bits.take(bits.len() as int) =~= bits);
}

/// Zero-noise round trip of soft decoding: what [`ViterbiSoft::decode`]
/// guarantees of its answer, applied to the noiseless observations of a
/// sent sequence that returns to the all-zero pair, already forces the
/// answer to be that sequence.
pub proof fn lemma_soft_zero_noise_roundtrip(bits: Seq<Bit>, answer: Seq<Bit>)
    requires
        forall|k: int| 0 <= k < bits.len() ==> (#[trigger] bits[k]).wf(),
        forall|k: int| 0 <= k < answer.len() ==> (#[trigger] answer[k]).wf(),
        encode2_state((Bit(0), Bit(0)), bits) == (Bit(0), Bit(0)),
        answer.len() == bits.len(),
        encode2_state((Bit(0), Bit(0)), answer) == (Bit(0), Bit(0)),
        forall|p: Seq<Bit>|
            p.len() == bits.len() && (forall|k: int| 0 <= k < p.len() ==> (#[trigger] p[k]).wf())
                && encode2_state((Bit(0), Bit(0)), p) == (Bit(0), Bit(0)) ==> path_cost(
                answer,
                exact_observations(bits),
            ) <= #[trigger] path_cost(p, exact_observations(bits)),
    ensures
        answer == bits,
{
    assert(path_cost(answer, exact_observations(bits)) <= path_cost(
        bits,
        exact_observations(bits),
    ));
    lemma_min_cost_roundtrip(bits, answer);
}

/// The cost of a path splits into its first step and the rest.
proof fn lemma_path_cost_prepend(
    s: (Bit, Bit),
    b: Bit,
    rest: Seq<Bit>,
    obs: Seq<NoisedSignal>,
    t0: int,
)
    ensures
        path_cost_at(s, seq![b].add(rest), obs, t0) == dist_sq(output_pair(s, b), obs[t0])
            + path_cost_at(next_pair(s, b), rest, obs, t0 + 1),
    decreases rest.len(),
{
    if rest.len() == 0 {
        assert(seq![b].add(rest) =~= seq![b]);
        assert(seq![b].drop_last() =~= Seq::<Bit>::empty());
        assert(seq![b].last() == b);
        assert(path_cost_at(s, seq![b], obs, t0) == path_cost_at(s, Seq::<Bit>::empty(), obs, t0)
            + dist_sq(output_pair(encode2_state(s, seq![b].drop_last()), b), obs[t0]));
    } else {
        lemma_path_cost_prepend(s, b, rest.drop_last(), obs, t0);
        lemma_encode2_prepend(s, b, rest.drop_last());
        assert(seq![b].add(rest).drop_last() =~= seq![b].add(rest.drop_last()));
        assert(seq![b].add(rest).last() == rest.last());
    }
}

/// Walking one prepended bit first is the same as starting one transition
/// later.
proof fn lemma_encode2_prepend(s: (Bit, Bit), b: Bit, rest: Seq<Bit>)
    ensures
        encode2_state(s, seq![b].add(rest)) == encode2_state(next_pair(s, b), rest),
    decreases rest.len(),
{
    if rest.len() == 0 {
        assert(seq![b].add(rest) =~= seq![b]);
        assert(seq![b].drop_last() =~= Seq::<Bit>::empty());
        assert(seq![b].last() == b);
        assert(encode2_state(s, seq![b]) == next_pair(encode2_state(s, seq![b].drop_last()), b));
    } else {
        lemma_encode2_prepend(s, b, rest.drop_last());
        assert(seq![b].add(rest).drop_last() =~= seq![b].add(rest.drop_last()));
        assert(seq![b].add(rest).last() == rest.last());
    }
}

} // verus!
