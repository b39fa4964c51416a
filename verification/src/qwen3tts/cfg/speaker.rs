//! The speaker encoder's output, which is one position of the talker's stream.

use vstd::prelude::*;

verus! {

pub const ENC_DIM: usize = 2048;

pub const SAMPLE_RATE: usize = 24000;

} // verus!
