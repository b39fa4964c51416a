//! The vocoder.

use vstd::prelude::*;

verus! {

pub const IN_CHANNELS: usize = 80;

pub const BASE_CHANNELS: usize = 512;

/// The fundamental and eight harmonics.
pub const HARMONICS: usize = 9;

pub const N_FFT: usize = 16;

pub const HOP: usize = 4;

/// Magnitude and phase channels packed together.
pub const SPEC_CHANNELS: usize = N_FFT + 2;

/// Samples per mel frame: the upsampling rates times the hop.
pub const UPSAMPLE_TOTAL: usize = 480;

/// The first convolution looks this many frames forward.
pub const CONV_PRE_LOOKAHEAD: usize = 4;

pub const F0_COND_CHANNELS: usize = 512;

/// The upsampling rates, stage by stage.
pub fn upsample_rates() -> (r: [usize; 3])
    ensures
        r@ == seq![8usize, 5, 3],
{
    [8, 5, 3]
}

/// The upsampling kernels, stage by stage.
pub fn upsample_kernels() -> (r: [usize; 3])
    ensures
        r@ == seq![16usize, 11, 7],
{
    [16, 11, 7]
}

pub fn resblock_kernels() -> (r: [usize; 3])
    ensures
        r@ == seq![3usize, 7, 11],
{
    [3, 7, 11]
}

pub fn source_resblock_kernels() -> (r: [usize; 3])
    ensures
        r@ == seq![7usize, 7, 11],
{
    [7, 7, 11]
}

pub fn dilations() -> (r: [usize; 3])
    ensures
        r@ == seq![1usize, 3, 5],
{
    [1, 3, 5]
}

/// The base channels halved `n` times.
pub open spec fn halved(base: nat, n: nat) -> nat
    decreases n,
{
    if n == 0 {
        base
    } else {
        halved(base, (n - 1) as nat) / 2
    }
}

/// Channels after each upsample stage: the base halved once per stage.
pub fn stage_channels(i: usize) -> (r: usize)
    requires
        i + 1 < usize::BITS,
    ensures
        r == halved(BASE_CHANNELS as nat, (i + 1) as nat),
{
    let mut r: usize = BASE_CHANNELS;
    let mut k: usize = 0;
    while k <= i
        invariant
            k <= i + 1,
            i + 1 < usize::BITS,
            r == halved(BASE_CHANNELS as nat, k as nat),
        decreases i + 1 - k,
    {
        r = r / 2;
        k += 1;
    }
    r
}

/// Halving once more halves the channels, and not at all keeps them.
pub proof fn halving_halves(base: nat, n: nat)
    ensures
        halved(base, 0) == base,
        2 * halved(base, n + 1) <= halved(base, n) <= 2 * halved(base, n + 1) + 1,
{
}

} // verus!
