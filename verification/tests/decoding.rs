use rand::Rng;
use rand::SeedableRng;

use viterbi::binary;
use viterbi::hard::ViterbiHard;
use viterbi::hard_dp::ViterbiHardDP;
use viterbi::soft::{quantize, NoisedSignal, ViterbiSoft, BPSK_SCALE};
use viterbi::trellis::{encode, random_bits, Bit, SMState, Signal, StateMachine, Trellis};

fn bits(v: &[usize]) -> Vec<Bit> {
    v.iter().map(|&b| if b == 1 { Bit::I } else { Bit::O }).collect()
}

fn sig(i: usize) -> Signal {
    match i {
        0 => Signal::OO,
        1 => Signal::OI,
        2 => Signal::IO,
        _ => Signal::II,
    }
}

#[test]
fn encode_known_sequence() {
    let sent = bits(&[1, 0, 1, 1, 0, 0]);
    let symbols = encode(&sent);
    let expected = vec![sig(3), sig(2), sig(0), sig(1), sig(1), sig(3)];
    assert_eq!(symbols, expected);
}

#[test]
fn state_machine_known_transitions() {
    let mut sm = StateMachine::new(SMState::OO);
    assert_eq!(sm.set(Bit::I), Signal::II);
    assert_eq!(sm.state, SMState::IO);
    assert_eq!(sm.set(Bit::O), Signal::IO);
    assert_eq!(sm.state, SMState::OI);
    assert_eq!(sm.set(Bit::I), Signal::OO);
    assert_eq!(sm.state, SMState::IO);
}

#[test]
fn encode_step_distinct_transitions() {
    for i in 0..4usize {
        let s = match i {
            0 => SMState::OO,
            1 => SMState::OI,
            2 => SMState::IO,
            _ => SMState::II,
        };
        let mut sm0 = StateMachine::new(s);
        let out0 = sm0.set(Bit::O);
        let mut sm1 = StateMachine::new(s);
        let out1 = sm1.set(Bit::I);
        assert_ne!(sm0.state, sm1.state);
        assert_ne!(out0, out1);
    }
}

#[test]
fn distance_is_a_metric() {
    for a in 0..4usize {
        for b in 0..4usize {
            let d = sig(a).distance(sig(b));
            assert_eq!(d, sig(b).distance(sig(a)));
            assert_eq!(d == 0, a == b);
            assert!(d <= 2);
            for c in 0..4usize {
                assert!(sig(a).distance(sig(c)) <= d + sig(b).distance(sig(c)));
            }
        }
    }
}

#[test]
fn distance_known_values() {
    assert_eq!(Signal::OO.distance(Signal::II), 2);
    assert_eq!(Signal::OI.distance(Signal::IO), 2);
    assert_eq!(Signal::OO.distance(Signal::OI), 1);
    assert_eq!(Signal::IO.distance(Signal::IO), 0);
}

#[test]
fn lookahead_table_is_total_and_deterministic() {
    let t1 = Trellis::new();
    let t2 = Trellis::new();
    assert_eq!(t1.table.len(), 256);
    assert_eq!(t1.table, t2.table);
}

#[test]
fn lookahead_roundtrip_zero_noise() {
    let trellis = Trellis::new();
    let sent = bits(&[1, 0, 1, 1, 0, 0]);
    let symbols = encode(&sent);
    let mut v = ViterbiHard::new(sent.clone(), symbols);
    v.decode(&trellis);
    assert_eq!(v.get_raw_answer_data(), &sent);
}

#[test]
fn hard_dp_roundtrip_zero_noise() {
    let sent = bits(&[1, 0, 1, 1, 0, 0]);
    let symbols = encode(&sent);
    let mut v = ViterbiHardDP::new(sent.clone(), symbols);
    v.decode();
    assert_eq!(v.get_raw_answer_data(), &sent);
}

#[test]
fn hard_dp_corrects_single_symbol_error() {
    let sent = bits(&[1, 0, 1, 1, 0, 0, 1, 0, 0, 0]);
    let mut symbols = encode(&sent);
    // Corrupt one symbol by one bit; the minimum-distance path still wins.
    symbols[3] = match symbols[3] {
        Signal::OO => Signal::OI,
        Signal::OI => Signal::OO,
        Signal::IO => Signal::II,
        Signal::II => Signal::IO,
    };
    let mut v = ViterbiHardDP::new(sent.clone(), symbols);
    v.decode();
    assert_eq!(v.get_raw_answer_data(), &sent);
}

fn bits2(v: &[usize]) -> Vec<binary::Bit> {
    v.iter().map(|&b| binary::Bit(b)).collect()
}

fn exact_soft(symbols: &[binary::Signal]) -> Vec<NoisedSignal> {
    symbols
        .iter()
        .map(|s| {
            let (a, b) = binary::bpsk(*s);
            NoisedSignal(a as i64 * BPSK_SCALE, b as i64 * BPSK_SCALE)
        })
        .collect()
}

#[test]
fn into_2bits_and_bpsk_known_values() {
    assert_eq!(binary::into_2bits(2), (binary::Bit(1), binary::Bit(0)));
    assert_eq!(binary::into_2bits(1), (binary::Bit(0), binary::Bit(1)));
    assert_eq!(binary::bpsk(binary::Signal(binary::Bit(0), binary::Bit(1))), (-1, 1));
    assert_eq!(binary::bpsk(binary::Signal(binary::Bit(1), binary::Bit(0))), (1, -1));
}

#[test]
fn binary_state_machine_matches_enum_machine() {
    // The pair-state encoder is isomorphic to the enum one.
    let input = [1usize, 1, 0, 1, 0, 0, 1, 0];
    let mut sm_enum = StateMachine::new(SMState::OO);
    let mut sm_pair = binary::StateMachine::new((binary::Bit(0), binary::Bit(0)));
    for &b in input.iter() {
        let se = sm_enum.set(if b == 1 { Bit::I } else { Bit::O });
        let sp = sm_pair.set(binary::Bit(b));
        let enum_idx = se.to_index();
        let pair_idx = 2 * sp.0 .0 + sp.1 .0;
        assert_eq!(enum_idx, pair_idx);
    }
}

#[test]
fn soft_roundtrip_zero_noise() {
    let sent = bits2(&[1, 0, 1, 1, 0, 0]);
    let mut sm = binary::StateMachine::new((binary::Bit(0), binary::Bit(0)));
    let symbols: Vec<binary::Signal> = sent.iter().map(|b| sm.set(*b)).collect();
    let noised = exact_soft(&symbols);
    let mut v = ViterbiSoft::new(sent.clone(), noised);
    v.decode();
    assert_eq!(v.raw_answer_data, sent);
}

#[test]
fn quantize_by_sign() {
    assert_eq!(quantize(NoisedSignal(5, -3)), binary::Signal(binary::Bit(1), binary::Bit(0)));
    assert_eq!(quantize(NoisedSignal(0, 1)), binary::Signal(binary::Bit(1), binary::Bit(1)));
    assert_eq!(quantize(NoisedSignal(-1, -1)), binary::Signal(binary::Bit(0), binary::Bit(0)));
}

#[test]
fn random_bits_are_tail_forced() {
    let v = random_bits(16);
    assert_eq!(v.len(), 16);
    assert_eq!(v[14], Bit::O);
    assert_eq!(v[15], Bit::O);
}

fn box_muller_from(rng: &mut rand::rngs::StdRng) -> f64 {
    let u1: f64 = 1.0 - rng.gen::<f64>();
    let u2: f64 = rng.gen::<f64>();
    (-2.0 * u1.ln()).sqrt() * (2.0 * std::f64::consts::PI * u2).cos()
}

#[test]
fn seeded_low_noise_decodes_correctly() {
    // Low noise with a fixed seed: all three decoders should still
    // reproduce the sent sequence.
    let mut rng = rand::rngs::StdRng::seed_from_u64(42);
    let sigma = 0.01f64;
    let sent = bits(&[1, 0, 1, 1, 0, 0]);
    let symbols = encode(&sent);

    // Continuous channel output, one pair per symbol.
    let soft_obs: Vec<(f64, f64)> = symbols
        .iter()
        .map(|s| {
            let idx = s.to_index();
            let a = if idx >= 2 { 1.0 } else { -1.0 };
            let b = if idx % 2 == 1 { 1.0 } else { -1.0 };
            (a + sigma * box_muller_from(&mut rng), b + sigma * box_muller_from(&mut rng))
        })
        .collect();

    // Hard observations: per-coordinate sign test, non-negative reads one.
    let hard_obs: Vec<Signal> = soft_obs
        .iter()
        .map(|&(a, b)| {
            let idx = (if a >= 0.0 { 2 } else { 0 }) + (if b >= 0.0 { 1 } else { 0 });
            sig(idx)
        })
        .collect();

    let trellis = Trellis::new();
    let mut vh = ViterbiHard::new(sent.clone(), hard_obs.clone());
    vh.decode(&trellis);
    assert_eq!(vh.get_raw_answer_data(), &sent);

    let mut vd = ViterbiHardDP::new(sent.clone(), hard_obs);
    vd.decode();
    assert_eq!(vd.get_raw_answer_data(), &sent);

    let sent2 = bits2(&[1, 0, 1, 1, 0, 0]);
    let noised: Vec<NoisedSignal> = soft_obs
        .iter()
        .map(|&(a, b)| {
            NoisedSignal((a * BPSK_SCALE as f64) as i64, (b * BPSK_SCALE as f64) as i64)
        })
        .collect();
    let mut vs = ViterbiSoft::new(sent2.clone(), noised);
    vs.decode();
    assert_eq!(vs.raw_answer_data, sent2);
}

#[test]
fn roundtrip_all_short_tail_forced_sequences() {
    // Zero-noise round trip over every tail-forced sequence of length six.
    let trellis = Trellis::new();
    for mask in 0..16usize {
        let raw: Vec<usize> =
            (0..4).map(|i| (mask >> i) & 1).chain([0usize, 0]).collect();
        let sent = bits(&raw);
        let symbols = encode(&sent);

        let mut vh = ViterbiHard::new(sent.clone(), symbols.clone());
        vh.decode(&trellis);
        assert_eq!(vh.get_raw_answer_data(), &sent);

        let mut vd = ViterbiHardDP::new(sent.clone(), symbols);
        vd.decode();
        assert_eq!(vd.get_raw_answer_data(), &sent);
    }
}
