//! The depth transformer for the codebooks after the first: one step per codebook and frame.

use vstd::prelude::*;

verus! {

/// Half the talker's width.
pub const DIM: usize = 1024;

pub const LAYERS: usize = 5;

pub const HEADS: usize = 16;

pub const N_KV: usize = 8;

/// The heads are twice as wide as the model: deriving this from `DIM` gives another model.
pub const HEAD_DIM: usize = 128;

pub const FFN: usize = 3072;

pub const GQA: usize = 2;

pub const QK_NORM: bool = true;

pub const ATTENTION_BIAS: bool = false;

pub const VOCAB: usize = 2048;

/// The first codebook comes from the talker.
pub const HEADS_OUT: usize = 15;

/// The embedding tables are at the talker's width.
pub const EMBED_DIM: usize = 2048;

pub const TOP_K: usize = 50;

} // verus!
