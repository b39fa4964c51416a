//! The vocoder's geometry: the shapes it is loaded with, and the lengths of its stages.

use crate::cosyvoice::cfg::hift as k;
use crate::cosyvoice::cfg::hift::{stage_channels, upsample_rates};
use vstd::prelude::*;

verus! {

/// Why the vocoder does not load.
#[derive(Clone, Copy, PartialEq, Eq, Structural, Debug)]
pub enum HiftError {
    /// The first convolution's kernel is not its look-ahead and one.
    ConvPre { kernel: usize },
    /// The last convolution has another number of channels.
    ConvPost { channels: usize },
    /// The source layer takes another number of harmonics.
    Harmonics { got: usize },
    /// An upsampling stage has other channels.
    Channels { stage: usize, out: usize, input: usize },
    /// An upsampling stage has another stride.
    Stride { stage: usize, stride: usize },
}

/// An upsampling stage as it was loaded.
#[derive(Clone, Copy, PartialEq, Eq, Structural, Debug)]
pub struct Up {
    pub out: usize,
    pub input: usize,
    pub stride: usize,
}

/// Channels that go into stage `i`.
pub open spec fn stage_input(i: int) -> nat {
    k::halved(k::BASE_CHANNELS as nat, i as nat)
}

/// The upsampling rate of stage `i`.
pub open spec fn rate(i: int) -> usize {
    seq![8usize, 5, 3][i]
}

/// Stage `i` has the channels that the configuration implies.
pub open spec fn channels_fit(u: Up, i: int) -> bool {
    u.input == stage_input(i) && u.out == stage_input(i + 1)
}

/// Stage `i` is what the configuration implies.
pub open spec fn stage_fits(u: Up, i: int) -> bool {
    channels_fit(u, i) && u.stride == rate(i)
}

/// Holds the loaded shapes against the configuration: a wrong constant fails here, at load,
/// rather than as quiet garbage later. `pre` is the first convolution's kernel, `post` the last
/// one's channels.
pub fn check_geometry(pre: usize, post: usize, harmonics: usize, ups: &[Up; 3]) -> (r: Result<
    (),
    HiftError,
>)
    ensures
        ({
            let heads = pre == k::CONV_PRE_LOOKAHEAD + 1 && post == k::SPEC_CHANNELS && harmonics
                == k::HARMONICS;
            match r {
                Ok(_) => heads && forall|i: int|
                    0 <= i < 3 ==> stage_fits(#[trigger] ups@[i], i),
                Err(HiftError::ConvPre { kernel }) => kernel == pre && pre != k::CONV_PRE_LOOKAHEAD
                    + 1,
                Err(HiftError::ConvPost { channels }) => channels == post && pre
                    == k::CONV_PRE_LOOKAHEAD + 1 && post != k::SPEC_CHANNELS,
                Err(HiftError::Harmonics { got }) => got == harmonics && pre
                    == k::CONV_PRE_LOOKAHEAD + 1 && post == k::SPEC_CHANNELS && harmonics
                    != k::HARMONICS,
                Err(HiftError::Channels { stage, out, input }) => heads && stage < 3
                    && !channels_fit(ups@[stage as int], stage as int) && out == ups@[stage as int].out
                    && input == ups@[stage as int].input && forall|i: int|
                    0 <= i < stage ==> stage_fits(#[trigger] ups@[i], i),
                Err(HiftError::Stride { stage, stride }) => heads && stage < 3 && channels_fit(
                    ups@[stage as int],
                    stage as int,
                ) && stride == ups@[stage as int].stride && stride != rate(stage as int)
                    && forall|i: int| 0 <= i < stage ==> stage_fits(#[trigger] ups@[i], i),
            }
        }),
{
    if pre != k::CONV_PRE_LOOKAHEAD + 1 {
        return Err(HiftError::ConvPre { kernel: pre });
    }
    if post != k::SPEC_CHANNELS {
        return Err(HiftError::ConvPost { channels: post });
    }
    if harmonics != k::HARMONICS {
        return Err(HiftError::Harmonics { got: harmonics });
    }
    let rates = upsample_rates();
    let mut i: usize = 0;
    while i < 3
        invariant
            i <= 3,
            rates@ == seq![8usize, 5, 3],
            pre == k::CONV_PRE_LOOKAHEAD + 1,
            post == k::SPEC_CHANNELS,
            harmonics == k::HARMONICS,
            forall|j: int| 0 <= j < i ==> stage_fits(#[trigger] ups@[j], j),
        decreases 3 - i,
    {
        let want_in: usize = if i == 0 {
            k::BASE_CHANNELS
        } else {
            stage_channels(i - 1)
        };
        let want_out: usize = stage_channels(i);
        let u = ups[i];
        if u.input != want_in || u.out != want_out {
            return Err(HiftError::Channels { stage: i, out: u.out, input: u.input });
        }
        if u.stride != rates[i] {
            return Err(HiftError::Stride { stage: i, stride: u.stride });
        }
        i += 1;
    }
    Ok(())
}

/// The strides by which the source's spectrum is brought to the length of each stage: for stage
/// `i`, the product of the rates of the stages behind it.
pub open spec fn down_stride(i: int) -> int
    decreases 2 - i,
{
    if i >= 2 {
        1
    } else {
        rate(i + 1) * down_stride(i + 1)
    }
}

proof fn lemma_down_strides()
    ensures
        down_stride(0) == 15,
        down_stride(1) == 3,
        down_stride(2) == 1,
{
    assert(rate(1) == 5 && rate(2) == 3);
    assert(down_stride(2) == 1);
    assert(down_stride(1) == 3 * down_stride(2));
    assert(down_stride(0) == 5 * down_stride(1));
}

/// The strides, stage by stage.
pub fn down_strides() -> (r: [usize; 3])
    ensures
        forall|i: int| 0 <= i < 3 ==> #[trigger] r@[i] == down_stride(i),
{
    proof {
        lemma_down_strides();
    }
    [15, 3, 1]
}

/// Samples for some mel frames.
pub fn samples_for(frames: usize) -> (r: usize)
    requires
        frames * k::UPSAMPLE_TOTAL <= usize::MAX,
    ensures
        r == frames * k::UPSAMPLE_TOTAL,
{
    frames * k::UPSAMPLE_TOTAL
}

/// Positions of stage `i` for `frames` mel frames.
pub open spec fn stage_len(frames: int, i: int) -> int
    decreases i + 1,
{
    if i < 0 {
        frames
    } else {
        stage_len(frames, i - 1) * rate(i)
    }
}

/// The last stage, with one frame put in front by reflection, is as long as the source's
/// spectrum, and its inverse transform is as long as the source: 480 samples for each mel frame.
pub proof fn the_stages_line_up(frames: int)
    requires
        0 <= frames,
    ensures
        stage_len(frames, 2) + 1 == frames * k::UPSAMPLE_TOTAL / (k::HOP as int) + 1,
        stage_len(frames, 2) * k::HOP == frames * k::UPSAMPLE_TOTAL,
        forall|i: int|
            0 <= i < 3 ==> #[trigger] stage_len(frames, i) * down_stride(i) == stage_len(frames, 2),
{
    reveal_with_fuel(stage_len, 5);
    lemma_down_strides();
    assert(stage_len(frames, 0) == frames * 8);
    assert(stage_len(frames, 1) == frames * 8 * 5);
    assert(stage_len(frames, 2) == frames * 8 * 5 * 3);
}

/// The three stages have 512, 256 and 128 channels coming in and half as many going out, and
/// stretch the signal by 8, 5 and 3.
pub proof fn the_stages_are_these(u: Up, frames: int)
    ensures
        stage_fits(u, 0) <==> u.input == 512 && u.out == 256 && u.stride == 8,
        stage_fits(u, 1) <==> u.input == 256 && u.out == 128 && u.stride == 5,
        stage_fits(u, 2) <==> u.input == 128 && u.out == 64 && u.stride == 3,
        down_stride(0) == 15,
        down_stride(1) == 3,
        down_stride(2) == 1,
        stage_len(frames, 0) == 8 * frames,
        stage_len(frames, 1) == 40 * frames,
        stage_len(frames, 2) == 120 * frames,
{
    reveal_with_fuel(k::halved, 4);
    reveal_with_fuel(down_stride, 3);
    reveal_with_fuel(stage_len, 4);
    assert(rate(0) == 8 && rate(1) == 5 && rate(2) == 3);
    assert(down_stride(1) == rate(2) * down_stride(2));
    assert(down_stride(0) == rate(1) * down_stride(1));
    assert(rate(1) * down_stride(1) == 5 * 3) by (nonlinear_arith)
        requires
            rate(1) == 5,
            down_stride(1) == 3,
    ;
    let (a, b) = (stage_len(frames, 0), stage_len(frames, 1));
    assert(stage_len(frames, 2) == b * rate(2));
    assert(b * rate(2) == 3 * b) by (nonlinear_arith)
        requires
            rate(2) == 3,
    ;
    assert(b == a * rate(1));
    assert(a * rate(1) == 5 * a) by (nonlinear_arith)
        requires
            rate(1) == 5,
    ;
}

} // verus!
