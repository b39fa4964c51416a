//! Geometry, hard-coded and checked against the checkpoint's tensor shapes at load: a wrong
//! constant shows up as a shape mismatch rather than as quiet garbage.

pub mod flow;
pub mod hift;
pub mod llm;

use vstd::prelude::*;

verus! {

pub const SAMPLE_RATE: usize = 24000;

/// Speech tokens per second.
pub const TOKEN_RATE: usize = 25;

/// Mel frames per speech token.
pub const TOKEN_MEL_RATIO: usize = 2;

/// Mel channels.
pub const MEL_DIM: usize = 80;

/// The rates agree: a second of speech tokens, at their mel frames and the vocoder's samples for
/// each, is a second of samples.
pub proof fn rates_agree()
    ensures
        TOKEN_RATE * TOKEN_MEL_RATIO * hift::UPSAMPLE_TOTAL == SAMPLE_RATE,
        hift::UPSAMPLE_TOTAL == 8 * 5 * 3 * hift::HOP,
        flow::FF_INNER == 2 * flow::DIM,
        flow::HEADS * flow::HEAD_DIM == flow::DIM,
        llm::GQA * llm::N_KV == llm::N_HEADS,
        llm::N_HEADS * llm::HEAD_DIM == llm::DIM,
{
}

} // verus!
