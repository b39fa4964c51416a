//! Geometry, hard-coded and checked against the checkpoint's tensor shapes.

pub mod codec;
pub mod predictor;
pub mod speaker;
pub mod talker;

use vstd::prelude::*;

verus! {

pub const SAMPLE_RATE: usize = 24000;

/// Samples per frame.
pub const SAMPLES_PER_FRAME: usize = 1920;

/// The talker predicts codebook 0, the predictor the others.
pub const CODE_GROUPS: usize = 16;

/// The constants agree with one another: the two upsampling stacks multiply out to the samples of
/// a frame, at 25 frames to two seconds; the talker and the predictor fill every codebook between
/// them; every control id lies above the live range and inside the vocabulary; and the
/// predictor's heads do not tile its width, while the talker's do.
pub proof fn geometry_is_consistent()
    ensures
        2 * 2 * 8 * 5 * 4 * 3 == SAMPLES_PER_FRAME,
        2 * SAMPLE_RATE == 25 * SAMPLES_PER_FRAME,
        predictor::HEADS_OUT + 1 == CODE_GROUPS,
        codec::QUANTIZERS == CODE_GROUPS,
        codec::SEMANTIC_QUANTIZERS + codec::ACOUSTIC_QUANTIZERS == CODE_GROUPS,
        talker::CODES == codec::CODEBOOK,
        codec::ENCODER_VALID_QUANTIZERS == CODE_GROUPS,
        codec::ENCODER_QUANTIZERS > codec::ENCODER_VALID_QUANTIZERS,
        talker::CODES <= talker::CODEC_PAD < talker::VOCAB,
        talker::CODES <= talker::CODEC_BOS < talker::VOCAB,
        talker::CODES <= talker::CODEC_EOS < talker::VOCAB,
        talker::CODES <= talker::CODEC_THINK < talker::VOCAB,
        talker::CODES <= talker::CODEC_NOTHINK < talker::VOCAB,
        talker::CODES <= talker::CODEC_THINK_BOS < talker::VOCAB,
        talker::CODES <= talker::CODEC_THINK_EOS < talker::VOCAB,
        predictor::HEADS * predictor::HEAD_DIM != predictor::DIM,
        talker::HEADS * talker::HEAD_DIM == talker::DIM,
        talker::GQA * talker::N_KV == talker::HEADS,
        predictor::GQA * predictor::N_KV == predictor::HEADS,
        predictor::EMBED_DIM == talker::DIM,
        speaker::ENC_DIM == talker::DIM,
{
}

} // verus!
