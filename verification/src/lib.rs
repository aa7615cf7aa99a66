//! Simulation core for a rate-1/2, memory-2 convolutional code: the encoder
//! state machine, a heuristic look-ahead table decoder, and hard- and
//! soft-decision Viterbi decoders over the four-state trellis.

pub mod binary;
pub mod hard;
pub mod hard_dp;
pub mod soft;
pub mod trellis;
