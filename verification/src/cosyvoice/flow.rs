//! The flow decoder's geometry: the shapes it is loaded with, and how prompt and speech share
//! the mel.

use crate::assemble::extend_copied;
use crate::cosyvoice::cfg;
use crate::cosyvoice::cfg::flow as k;
use crate::grid::copy_vec;
use vstd::prelude::*;

verus! {

/// Why the decoder does not load, or does not run.
#[derive(Clone, Copy, PartialEq, Eq, Structural, Debug)]
pub enum FlowError {
    /// The fixed noise is shorter than it has to be.
    Noise { frames: usize },
    /// The token embedding has another number of rows.
    Embedding { rows: usize },
    /// Another number of blocks.
    Blocks { got: usize },
    /// The look-ahead kernel has another width.
    Lookahead { kernel: usize },
    /// The prompt mel is longer than the whole target.
    Prompt { frames: usize, total: usize },
    /// More frames than the fixed noise has.
    Frames { wanted: usize, available: usize },
}

/// Holds the fixed noise against the frames it has to cover.
pub fn check_noise(frames: usize) -> (r: Result<(), FlowError>)
    ensures
        match r {
            Ok(_) => frames >= k::RAND_NOISE_FRAMES,
            Err(e) => e == (FlowError::Noise { frames }) && frames < k::RAND_NOISE_FRAMES,
        },
{
    if frames < k::RAND_NOISE_FRAMES {
        return Err(FlowError::Noise { frames });
    }
    Ok(())
}

/// Holds the loaded shapes against the configuration.
pub fn check_geometry(rows: usize, blocks: usize, kernel: usize) -> (r: Result<(), FlowError>)
    ensures
        match r {
            Ok(_) => rows == k::TOKEN_VOCAB && blocks == k::DEPTH && kernel == k::PRE_LOOKAHEAD_LEN
                + 1,
            Err(FlowError::Embedding { rows: n }) => n == rows && rows != k::TOKEN_VOCAB,
            Err(FlowError::Blocks { got }) => got == blocks && rows == k::TOKEN_VOCAB && blocks
                != k::DEPTH,
            Err(FlowError::Lookahead { kernel: n }) => n == kernel && rows == k::TOKEN_VOCAB
                && blocks == k::DEPTH && kernel != k::PRE_LOOKAHEAD_LEN + 1,
            Err(_) => false,
        },
{
    if rows != k::TOKEN_VOCAB {
        return Err(FlowError::Embedding { rows });
    }
    if blocks != k::DEPTH {
        return Err(FlowError::Blocks { got: blocks });
    }
    if kernel != k::PRE_LOOKAHEAD_LEN + 1 {
        return Err(FlowError::Lookahead { kernel });
    }
    Ok(())
}

/// A row of channels with the first head's moved behind all others.
pub open spec fn head0_last<T>(row: Seq<T>) -> Seq<T> {
    row.subrange(k::HEAD_DIM as int, row.len() as int) + row.take(k::HEAD_DIM as int)
}

/// Moves the first head behind all others. Attention is independent across heads, so this only
/// relabels them, as long as every projection agrees.
pub fn move_head0_last<T: Copy>(row: &[T]) -> (out: Vec<T>)
    requires
        row@.len() == k::HEADS * k::HEAD_DIM,
    ensures
        out@ == head0_last(row@),
{
    let mut out = crate::assemble::copy_range(row, k::HEAD_DIM, row.len());
    let head = crate::assemble::copy_range(row, 0, k::HEAD_DIM);
    extend_copied(&mut out, head.as_slice());
    assert(row@.subrange(0, k::HEAD_DIM as int) =~= row@.take(k::HEAD_DIM as int));
    out
}

/// Every channel of a head, after the first head has moved: head `h` stands one place earlier,
/// and the first stands last.
pub proof fn heads_are_relabelled<T>(row: Seq<T>, h: int, c: int)
    requires
        row.len() == k::HEADS * k::HEAD_DIM,
        0 <= c < k::HEAD_DIM,
        0 <= h < k::HEADS,
    ensures
        h > 0 ==> head0_last(row)[(h - 1) * k::HEAD_DIM + c] == row[h * k::HEAD_DIM + c],
        head0_last(row)[(k::HEADS - 1) * k::HEAD_DIM + c] == row[c],
{
}

/// Each item held for `times` places.
pub open spec fn held(n: int, times: int) -> Seq<int> {
    Seq::new((n * times) as nat, |i: int| i / times)
}

/// The token that each mel frame reads: every token is held for [`cfg::TOKEN_MEL_RATIO`] frames.
pub fn mu_positions(n: usize) -> (v: Vec<usize>)
    requires
        n * cfg::TOKEN_MEL_RATIO <= usize::MAX,
    ensures
        v@.len() == n * cfg::TOKEN_MEL_RATIO,
        forall|i: int|
            0 <= i < v@.len() ==> #[trigger] v@[i] == held(n as int, cfg::TOKEN_MEL_RATIO as int)[i],
{
    let mut v: Vec<usize> = Vec::new();
    let mut i: usize = 0;
    while i < n * cfg::TOKEN_MEL_RATIO
        invariant
            n * cfg::TOKEN_MEL_RATIO <= usize::MAX,
            i <= n * cfg::TOKEN_MEL_RATIO,
            v@.len() == i,
            forall|j: int|
                0 <= j < i ==> #[trigger] v@[j] == held(
                    n as int,
                    cfg::TOKEN_MEL_RATIO as int,
                )[j],
        decreases n * cfg::TOKEN_MEL_RATIO - i,
    {
        v.push(i / cfg::TOKEN_MEL_RATIO);
        i += 1;
    }
    v
}

/// Frames of silence behind a prompt mel of `len` frames in a target of `total`.
pub fn conditioning(len: usize, total: usize) -> (r: Result<usize, FlowError>)
    ensures
        match r {
            Ok(pad) => len + pad == total,
            Err(e) => e == (FlowError::Prompt { frames: len, total }) && len > total,
        },
{
    if len > total {
        return Err(FlowError::Prompt { frames: len, total });
    }
    Ok(total - len)
}

/// Frames that the solver takes of the fixed noise.
pub fn noise_frames(wanted: usize, available: usize) -> (r: Result<usize, FlowError>)
    ensures
        match r {
            Ok(n) => n == wanted && wanted <= available,
            Err(e) => e == (FlowError::Frames { wanted, available }) && wanted > available,
        },
{
    if wanted > available {
        return Err(FlowError::Frames { wanted, available });
    }
    Ok(wanted)
}

/// One synthesis: the tokens that go in, the mel frames they come to, and the frames to keep.
pub struct Pass {
    pub tokens: Vec<u32>,
    /// Mel frames in all.
    pub total: usize,
    /// Frames of silence behind the prompt mel.
    pub pad: usize,
    /// Frames of the prompt, which are cut off.
    pub skip: usize,
    /// Frames to keep.
    pub keep: usize,
}

/// Lays out a synthesis: the prompt's tokens in front of the speech's, both held for their mel
/// frames, and the prompt's frames trimmed afterwards. `mel` is the length of the prompt's mel,
/// `available` that of the fixed noise.
pub fn synthesize(prompt: &Vec<u32>, tokens: &Vec<u32>, mel: usize, available: usize) -> (r: Result<
    Pass,
    FlowError,
>)
    requires
        (prompt@.len() + tokens@.len()) * cfg::TOKEN_MEL_RATIO <= usize::MAX,
    ensures
        ({
            let total = (prompt@.len() + tokens@.len()) * cfg::TOKEN_MEL_RATIO;
            match r {
                Ok(p) => p.tokens@ == prompt@ + tokens@ && p.total == total && p.skip == mel
                    && p.pad == total - mel && p.keep == total - mel && total <= available,
                Err(FlowError::Prompt { frames, total: t }) => frames == mel && t == total && mel
                    > total,
                Err(FlowError::Frames { wanted, available: a }) => wanted == total && a
                    == available && mel <= total && total > available,
                Err(_) => false,
            }
        }),
{
    let mut all = copy_vec(prompt);
    extend_copied(&mut all, tokens.as_slice());
    let total: usize = all.len() * cfg::TOKEN_MEL_RATIO;
    let pad: usize = match conditioning(mel, total) {
        Ok(n) => n,
        Err(e) => {
            return Err(e);
        },
    };
    match noise_frames(total, available) {
        Ok(n) => Ok(Pass { tokens: all, total: n, pad, skip: mel, keep: total - mel }),
        Err(e) => Err(e),
    }
}

/// Where the prompt's mel has its two frames for each of its tokens, the frames kept are exactly
/// those of the speech tokens.
pub proof fn only_the_speech_is_kept(prompt: int, tokens: int, mel: int)
    requires
        mel == prompt * cfg::TOKEN_MEL_RATIO,
        0 <= prompt,
        0 <= tokens,
    ensures
        mel <= (prompt + tokens) * cfg::TOKEN_MEL_RATIO,
        (prompt + tokens) * cfg::TOKEN_MEL_RATIO - mel == tokens * cfg::TOKEN_MEL_RATIO,
{
}

/// Holding repeats each position in place: position `k` fills the places from `k * times` up to
/// those of the next.
pub proof fn each_position_is_held(n: int, times: int, k: int, j: int)
    requires
        0 < times,
        0 <= k < n,
        0 <= j < times,
    ensures
        held(n, times).len() == n * times,
        0 <= k * times + j < n * times,
        held(n, times)[k * times + j] == k,
{
    assert(0 <= k * times + j < n * times) by (nonlinear_arith)
        requires
            0 < times,
            0 <= k < n,
            0 <= j < times,
    ;
    vstd::arithmetic::div_mod::lemma_fundamental_div_mod_converse_div(k * times + j, times, k, j);
}

/// Of the sixteen heads of 64 channels the first comes to stand last, and the others move up.
pub proof fn the_first_head_comes_last<T>(row: Seq<T>, c: int)
    requires
        row.len() == 1024,
        0 <= c < 1024,
    ensures
        head0_last(row).len() == 1024,
        c < 960 ==> head0_last(row)[c] == row[c + 64],
        c >= 960 ==> head0_last(row)[c] == row[c - 960],
{
}

} // verus!
