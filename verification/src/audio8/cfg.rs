//! Model geometry. Hard-coded rather than parsed: a configuration field that silently changed
//! shape underneath the code would be worse than a constant.

use vstd::prelude::*;

verus! {

pub const DIM: usize = 896;

pub const N_HEAD: usize = 14;

pub const N_KV: usize = 2;

pub const HEAD_DIM: usize = 64;

pub const FFN: usize = 4864;

pub const N_LAYER: usize = 24;

pub const N_FAST_LAYER: usize = 4;

pub const MAX_SEQ_LEN: usize = 2048;

pub const VOCAB: usize = 155776;

pub const NUM_CODEBOOKS: usize = 10;

pub const CODEBOOK_SIZE: usize = 4096;

/// The residual codebooks hold 1024 entries, not 4096.
pub const RESIDUAL_CODEBOOK_SIZE: usize = 1024;

pub const SEMANTIC_BEGIN_ID: u32 = 151678;

pub const SEMANTIC_END_ID: u32 = 155773;

pub const EOS_TOKEN_ID: u32 = 151645;

pub const PAD_TOKEN_ID: u32 = 151643;

/// 4096 semantic ids plus the end marker: the only rows the semantic mask leaves finite.
pub const REACHABLE: usize = 4097;

pub const RAS_WINDOW_SIZE: usize = 10;

pub const SAMPLE_RATE: usize = 44100;

pub const CODEC_FRAME_SIZE: usize = 2048;

pub const CODEC_POST_N_LAYER: usize = 8;

pub const CODEC_POST_N_HEAD: usize = 16;

pub const CODEC_POST_N_KV: usize = 8;

pub const CODEC_POST_FFN: usize = 1216;

pub const CODEC_WINDOW: usize = 128;

pub const CODEC_DIM: usize = 1024;

pub const CODEBOOK_DIM: usize = 8;

/// A token that stands for a code of the first codebook.
pub open spec fn semantic(t: u32) -> bool {
    SEMANTIC_BEGIN_ID <= t <= SEMANTIC_END_ID
}

/// The semantic ids cover the first codebook exactly, the end marker lies below them, and the
/// reachable rows are those ids and the marker.
pub proof fn semantic_ids_cover_the_codebook()
    ensures
        SEMANTIC_END_ID - SEMANTIC_BEGIN_ID + 1 == CODEBOOK_SIZE,
        EOS_TOKEN_ID < SEMANTIC_BEGIN_ID,
        SEMANTIC_END_ID < VOCAB,
        REACHABLE == CODEBOOK_SIZE + 1,
        N_HEAD * HEAD_DIM == DIM,
        N_HEAD % N_KV == 0,
{
}

} // verus!
