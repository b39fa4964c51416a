//! The codec decoder: codes to audio.

use crate::cosyvoice::cfg::hift;
use vstd::prelude::*;

verus! {

/// Codebooks: one semantic, the others acoustic.
pub const QUANTIZERS: usize = 16;

pub const SEMANTIC_QUANTIZERS: usize = 1;

pub const ACOUSTIC_QUANTIZERS: usize = 15;

/// Entries per codebook, the semantic one too.
pub const CODEBOOK: usize = 2048;

/// Each codebook's vector width.
pub const QUANTIZER_INNER: usize = 256;

/// The width at which the two quantizer stacks are summed.
pub const CODEBOOK_DIM: usize = 512;

/// The encoder is trained deeper than used.
pub const ENCODER_QUANTIZERS: usize = 32;

pub const ENCODER_VALID_QUANTIZERS: usize = 16;

pub const LATENT_DIM: usize = 1024;

pub const PRE_CONV_KERNEL: usize = 3;

pub const TF_LAYERS: usize = 8;

pub const TF_DIM: usize = 512;

pub const TF_HEADS: usize = 16;

pub const TF_N_KV: usize = 16;

pub const TF_HEAD_DIM: usize = 64;

pub const TF_FFN: usize = 1024;

/// Frames that the transformer attends over.
pub const TF_SLIDING_WINDOW: usize = 72;

pub const DECODER_DIM: usize = 1536;

pub const OUT_CONV_KERNEL: usize = 7;

/// The width that the final convolution sees.
pub const OUT_CHANNELS: usize = 96;

/// Frames decoded at a time.
pub const CHUNK_FRAMES: usize = 300;

/// Frames of left context, whose audio is discarded.
pub const CHUNK_LEFT_CONTEXT: usize = 25;

/// Positions that the transformer's cache holds: a chunk and its context, with room to spare.
pub const TF_CAPACITY: usize = 1308;

/// The upsampling ratios in front of the decoder blocks.
pub fn upsampling_ratios() -> (r: [usize; 2])
    ensures
        r@ == seq![2usize, 2],
{
    [2, 2]
}

/// The upsampling rates of the decoder blocks.
pub fn upsample_rates() -> (r: [usize; 4])
    ensures
        r@ == seq![8usize, 5, 4, 3],
{
    [8, 5, 4, 3]
}

/// Channels after each decoder block: the decoder's width halved once per block.
pub fn stage_channels(i: usize) -> (r: usize)
    requires
        i + 1 < usize::BITS,
    ensures
        r == hift::halved(DECODER_DIM as nat, (i + 1) as nat),
{
    let mut r: usize = DECODER_DIM;
    let mut k: usize = 0;
    while k <= i
        invariant
            k <= i + 1,
            i + 1 < usize::BITS,
            r == hift::halved(DECODER_DIM as nat, k as nat),
        decreases i + 1 - k,
    {
        r = r / 2;
        k += 1;
    }
    r
}

/// The last stage's channels are what the final convolution sees; a chunk with its context fits
/// the cache.
pub proof fn stages_end_at_the_output_width()
    ensures
        hift::halved(DECODER_DIM as nat, 4) == OUT_CHANNELS,
        CHUNK_FRAMES + CHUNK_LEFT_CONTEXT <= TF_CAPACITY,
        TF_CAPACITY == (CHUNK_FRAMES + CHUNK_LEFT_CONTEXT) * 4 + 8,
        TF_HEADS % TF_N_KV == 0,
{
    reveal_with_fuel(hift::halved, 5);
}

} // verus!
