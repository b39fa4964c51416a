//! The flow-matching decoder.

use vstd::prelude::*;

verus! {

/// Speech tokens only, no control rows.
pub const TOKEN_VOCAB: usize = 6561;

pub const SPK_EMBED_DIM: usize = 192;

/// The speaker embedding is projected to this width.
pub const SPK_DIM: usize = 80;

pub const PRE_LOOKAHEAD_LEN: usize = 3;

pub const PRE_LOOKAHEAD_CHANNELS: usize = 1024;

pub const DIM: usize = 1024;

pub const DEPTH: usize = 22;

pub const HEADS: usize = 16;

pub const HEAD_DIM: usize = 64;

/// The feed-forward inner width.
pub const FF_INNER: usize = 2048;

pub const TIME_EMBED_DIM: usize = 256;

/// The convolutional position embedding: two grouped convolutions.
pub const CONV_POS_KERNEL: usize = 31;

pub const CONV_POS_GROUPS: usize = 16;

/// Euler steps.
pub const N_TIMESTEPS: usize = 10;

/// Mel frames of the fixed initial noise.
pub const RAND_NOISE_FRAMES: usize = 15000;

} // verus!
