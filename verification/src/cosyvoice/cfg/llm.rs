//! The language model.

use vstd::prelude::*;

verus! {

pub const DIM: usize = 896;

pub const LAYERS: usize = 24;

pub const N_HEADS: usize = 14;

pub const N_KV: usize = 2;

pub const HEAD_DIM: usize = 64;

pub const FFN: usize = 4864;

/// How many query heads share one key-value head.
pub const GQA: usize = 7;

/// Speech-token vocabulary proper; ids at or above this are control tokens.
pub const SPEECH_TOKENS: usize = 6561;

/// The speech tokens plus 200 control slots.
pub const VOCAB: usize = SPEECH_TOKENS + 200;

pub const SOS: usize = SPEECH_TOKENS;

pub const EOS: usize = SPEECH_TOKENS + 1;

pub const TASK_ID: usize = SPEECH_TOKENS + 2;

/// The marker that must appear in the concatenated prompt text.
pub const ENDOFPROMPT: u32 = 151646;

pub const TOP_K: usize = 25;

/// The emitted tokens that the repetition guard looks back over.
pub const RAS_WIN: usize = 10;

/// Generated tokens per text token, the stopping bounds.
pub const MIN_TOKEN_RATIO: usize = 2;

pub const MAX_TOKEN_RATIO: usize = 20;

/// Positions that the caches hold.
pub const CAPACITY: usize = 4096;

} // verus!
