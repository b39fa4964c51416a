//! The short-time Fourier transform's framing: which sample stands where. The transform itself
//! is two matrix products around it.

use crate::assemble::extend_copied;
use vstd::prelude::*;

verus! {

/// The position that position `p` of a signal padded by reflection reads, `left` being the
/// padding in front. Reflection leaves out the edge sample: padding by one on the left puts the
/// second sample there, not the first.
pub open spec fn reflected(len: int, left: int, p: int) -> int {
    if p < left {
        left - p
    } else if p < left + len {
        p - left
    } else {
        len - 2 - (p - left - len)
    }
}

/// The positions that a signal of `len` samples, padded by reflection, reads.
pub open spec fn reflected_positions(len: int, left: int, right: int) -> Seq<int> {
    Seq::new((left + len + right) as nat, |p: int| reflected(len, left, p))
}

/// Padding by reflection: the positions to read, or none where the signal is too short to be
/// mirrored that far.
pub fn reflect_positions(len: usize, left: usize, right: usize) -> (r: Option<Vec<usize>>)
    requires
        left + len + right <= usize::MAX,
    ensures
        match r {
            Some(v) => (left == 0 || left < len) && (right == 0 || right < len) && v@.len() == left
                + len + right && forall|p: int|
                0 <= p < v@.len() ==> #[trigger] v@[p] == reflected(len as int, left as int, p)
                    && v@[p] < len,
            None => (left > 0 && left >= len) || (right > 0 && right >= len),
        },
{
    if (left > 0 && left >= len) || (right > 0 && right >= len) {
        return None;
    }
    let mut v: Vec<usize> = Vec::new();
    let mut p: usize = 0;
    while p < left + len + right
        invariant
            left + len + right <= usize::MAX,
            left == 0 || left < len,
            right == 0 || right < len,
            p <= left + len + right,
            v@.len() == p,
            forall|q: int|
                0 <= q < p ==> #[trigger] v@[q] == reflected(len as int, left as int, q) && v@[q]
                    < len,
        decreases left + len + right - p,
    {
        let at: usize = if p < left {
            left - p
        } else if p < left + len {
            p - left
        } else {
            len - 2 - (p - left - len)
        };
        v.push(at);
        p += 1;
    }
    Some(v)
}

/// The samples at some positions.
pub open spec fn read_at<T>(x: Seq<T>, positions: Seq<int>) -> Seq<T> {
    Seq::new(positions.len(), |i: int| x[positions[i]])
}

/// A signal padded by reflection, `left` samples in front and `right` behind.
pub fn reflect_pad_1d<T: Copy>(x: &[T], left: usize, right: usize) -> (r: Option<Vec<T>>)
    requires
        left + x@.len() + right <= usize::MAX,
    ensures
        match r {
            Some(v) => (left == 0 || left < x@.len()) && (right == 0 || right < x@.len()) && v@
                == read_at(x@, reflected_positions(x@.len() as int, left as int, right as int)),
            None => (left > 0 && left >= x@.len()) || (right > 0 && right >= x@.len()),
        },
{
    let positions = match reflect_positions(x.len(), left, right) {
        Some(v) => v,
        None => {
            return None;
        },
    };
    let ghost want = read_at(x@, reflected_positions(x@.len() as int, left as int, right as int));
    let mut out: Vec<T> = Vec::new();
    let mut p: usize = 0;
    while p < positions.len()
        invariant
            p <= positions@.len() == want.len(),
            want == read_at(x@, reflected_positions(x@.len() as int, left as int, right as int)),
            want.len() == left + x@.len() + right,
            forall|q: int|
                0 <= q < positions@.len() ==> #[trigger] positions@[q] == reflected(
                    x@.len() as int,
                    left as int,
                    q,
                ) && positions@[q] < x@.len(),
            out@.len() == p,
            forall|q: int| 0 <= q < p ==> #[trigger] out@[q] == want[q],
        decreases positions@.len() - p,
    {
        let at: usize = positions[p];
        out.push(x[at]);
        p += 1;
    }
    assert(out@ =~= want);
    Some(out)
}

/// The framing of a transform of `n_fft` points at `hop` samples apart.
#[derive(Clone, Copy, PartialEq, Eq, Structural, Debug)]
pub struct Stft {
    pub n_fft: usize,
    pub hop: usize,
}

/// `taps` lists, in frame order, the frames that reach position `p` of the overlap-added signal,
/// each with the tap that lands there.
pub open spec fn taps_of(
    taps: Seq<(usize, usize)>,
    n_fft: int,
    hop: int,
    frames: int,
    p: int,
) -> bool {
    &&& forall|i: int|
        0 <= i < taps.len() ==> (#[trigger] taps[i]).0 < frames && taps[i].1 < n_fft && taps[i].0
            * hop + taps[i].1 == p
    &&& forall|i: int, j: int| 0 <= i < j < taps.len() ==> (#[trigger] taps[i]).0 < (#[trigger] taps[j]).0
    &&& forall|t: int|
        0 <= t < frames && 0 <= p - #[trigger] frame_start(t, hop) < n_fft ==> exists|i: int|
            0 <= i < taps.len() && (#[trigger] taps[i]).0 == t
}

/// Where frame `t` begins.
pub open spec fn frame_start(t: int, hop: int) -> int {
    t * hop
}

impl Stft {
    /// An even number of points and a hop.
    pub open spec fn wf(self) -> bool {
        self.n_fft > 0 && self.n_fft % 2 == 0 && self.hop > 0
    }

    /// The frequency bins of a real signal.
    pub fn bins(&self) -> (r: usize)
        ensures
            r == self.n_fft / 2 + 1,
    {
        self.n_fft / 2 + 1
    }

    /// Frames for a signal of `len` samples that is centred, padded by half a frame on each side.
    pub fn frames_for(&self, len: usize) -> (r: usize)
        requires
            self.hop > 0,
            len < usize::MAX,
        ensures
            r == len / self.hop + 1,
    {
        let q: usize = len / self.hop;
        assert(q <= len) by (nonlinear_arith)
            requires
                q == len / self.hop,
                self.hop > 0,
        ;
        q + 1
    }

    /// The frames of a centred signal: frame `t` is the `n_fft` samples from `t * hop` of the
    /// signal padded by reflection. None where the signal is not longer than half a frame.
    pub fn frame<T: Copy>(&self, x: &[T]) -> (r: Option<Vec<Vec<T>>>)
        requires
            self.wf(),
            x@.len() + self.n_fft < usize::MAX,
        ensures
            match r {
                Some(rows) => x@.len() > self.n_fft / 2 && rows@.len() == x@.len() / (
                self.hop as nat) + 1 && forall|t: int|
                    0 <= t < rows@.len() ==> (#[trigger] rows@[t])@ == read_at(
                        x@,
                        reflected_positions(
                            x@.len() as int,
                            (self.n_fft / 2) as int,
                            (self.n_fft / 2) as int,
                        ),
                    ).subrange(frame_start(t, self.hop as int), frame_start(t, self.hop as int)
                        + self.n_fft),
                None => x@.len() <= self.n_fft / 2,
            },
    {
        let half: usize = self.n_fft / 2;
        let padded = match reflect_pad_1d(x, half, half) {
            Some(v) => v,
            None => {
                return None;
            },
        };
        let frames: usize = self.frames_for(x.len());
        let hop: usize = self.hop;
        let n_fft: usize = self.n_fft;
        let mut rows: Vec<Vec<T>> = Vec::new();
        let mut t: usize = 0;
        let mut start: usize = 0;
        while t < frames
            invariant
                t <= frames == x@.len() / (hop as nat) + 1,
                hop == self.hop > 0,
                n_fft == self.n_fft,
                x@.len() + n_fft < usize::MAX,
                padded@.len() == x@.len() + n_fft,
                t < frames ==> start == frame_start(t as int, hop as int),
                rows@.len() == t,
                forall|k: int|
                    0 <= k < t ==> (#[trigger] rows@[k])@ == padded@.subrange(
                        frame_start(k, hop as int),
                        frame_start(k, hop as int) + n_fft,
                    ),
            decreases frames - t,
        {
            assert(t * hop <= x@.len()) by (nonlinear_arith)
                requires
                    t < x@.len() / (hop as nat) + 1,
                    hop > 0,
            ;
            let mut row: Vec<T> = Vec::new();
            let piece = crate::assemble::copy_range(padded.as_slice(), start, start + n_fft);
            extend_copied(&mut row, piece.as_slice());
            assert(row@ =~= padded@.subrange(start as int, start + n_fft));
            rows.push(row);
            t += 1;
            if t < frames {
                assert(t * hop == (t - 1) * hop + hop && t * hop <= x@.len()) by (nonlinear_arith)
                    requires
                        t < x@.len() / (hop as nat) + 1,
                        hop > 0,
                ;
                start = start + hop;
            }
        }
        Some(rows)
    }

    /// Samples of the overlap-added signal, before the padding is trimmed.
    pub fn total(&self, frames: usize) -> (r: usize)
        requires
            frames > 0,
            (frames - 1) * self.hop + self.n_fft <= usize::MAX,
        ensures
            r == (frames - 1) * self.hop + self.n_fft,
    {
        assert((frames - 1) * self.hop >= 0) by (nonlinear_arith)
            requires
                frames > 0,
                self.hop >= 0,
        ;
        (frames - 1) * self.hop + self.n_fft
    }

    /// Samples of the inverse: what is left once half a frame is trimmed on each side.
    pub fn inverse_len(&self, frames: usize) -> (r: usize)
        requires
            frames > 0,
            (frames - 1) * self.hop + self.n_fft <= usize::MAX,
        ensures
            r == (frames - 1) * self.hop,
    {
        self.total(frames) - self.n_fft
    }

    /// The frames and taps that add up to sample `p` of the overlap-added signal.
    pub fn taps_at(&self, frames: usize, p: usize) -> (taps: Vec<(usize, usize)>)
        requires
            self.hop > 0,
            frames * self.hop <= usize::MAX,
        ensures
            taps_of(taps@, self.n_fft as int, self.hop as int, frames as int, p as int),
    {
        let hop: usize = self.hop;
        let mut taps: Vec<(usize, usize)> = Vec::new();
        let mut t: usize = 0;
        let mut start: usize = 0;
        while t < frames
            invariant
                t <= frames,
                hop == self.hop,
                frames * hop <= usize::MAX,
                start == t * hop,
                forall|i: int|
                    0 <= i < taps@.len() ==> (#[trigger] taps@[i]).0 < t && taps@[i].1 < self.n_fft
                        && taps@[i].0 * hop + taps@[i].1 == p,
                forall|i: int, j: int|
                    0 <= i < j < taps@.len() ==> (#[trigger] taps@[i]).0 < (#[trigger] taps@[j]).0,
                forall|s: int|
                    0 <= s < t && 0 <= p - #[trigger] frame_start(s, hop as int) < self.n_fft
                        ==> exists|i: int| 0 <= i < taps@.len() && (#[trigger] taps@[i]).0 == s,
            decreases frames - t,
        {
            let ghost was = taps@;
            if start <= p && p - start < self.n_fft {
                taps.push((t, p - start));
                assert(taps@[was.len() as int].0 == t);
            }
            assert forall|s: int|
                0 <= s < t + 1 && 0 <= p - #[trigger] frame_start(s, hop as int)
                    < self.n_fft implies exists|i: int|
                0 <= i < taps@.len() && (#[trigger] taps@[i]).0 == s by {
                if s < t {
                    let i = choose|i: int| 0 <= i < was.len() && (#[trigger] was[i]).0 == s;
                    assert(taps@[i] == was[i]);
                }
            }
            assert((t + 1) * hop == t * hop + hop && (t + 1) * hop <= frames * hop)
                by (nonlinear_arith)
                requires
                    t < frames,
            ;
            start = start + hop;
            t += 1;
        }
        taps
    }
}

/// Analysis and synthesis keep the length of a signal that is a whole number of hops.
pub proof fn the_inverse_keeps_the_length(len: nat, hop: nat)
    requires
        hop > 0,
        len % hop == 0,
    ensures
        ((len / hop + 1) - 1) * hop == len,
{
    vstd::arithmetic::div_mod::lemma_fundamental_div_mod(len as int, hop as int);
    assert((len / hop) * hop == hop * (len / hop)) by (nonlinear_arith);
}

/// Padding keeps the signal in the middle, and mirrors it at both ends.
pub proof fn reflection_mirrors_the_signal(len: int, left: int, right: int, k: int)
    requires
        0 <= left < len,
        0 <= right < len,
    ensures
        0 <= k < len ==> reflected(len, left, left + k) == k,
        0 < k <= left ==> reflected(len, left, left - k) == k,
        0 < k <= right ==> reflected(len, left, left + len - 1 + k) == len - 1 - k,
{
}

/// A padded signal holds the signal, and on either side as much of it as the padding takes,
/// mirrored about its first and its last sample.
pub proof fn padding_mirrors_the_ends<T>(x: Seq<T>, left: int, right: int, k: int)
    requires
        0 <= left < x.len(),
        0 <= right < x.len(),
    ensures
        ({
            let y = read_at(x, reflected_positions(x.len() as int, left, right));
            let n = x.len();
            &&& y.len() == left + n + right
            &&& 0 <= k < n ==> y[left + k] == x[k]
            &&& 0 < k <= left ==> y[left - k] == x[k]
            &&& 0 < k <= right ==> y[left + n - 1 + k] == x[n - 1 - k]
        }),
{
}

/// The taps of a sample are the frames that reach over it, each at its own start.
pub proof fn every_frame_over_a_sample_taps_it(
    taps: Seq<(usize, usize)>,
    n_fft: int,
    hop: int,
    frames: int,
    p: int,
    t: int,
)
    requires
        taps_of(taps, n_fft, hop, frames, p),
        0 <= t < frames,
        frames <= usize::MAX,
    ensures
        (exists|i: int| 0 <= i < taps.len() && (#[trigger] taps[i]).0 == t) <==> t * hop <= p < t
            * hop + n_fft,
        forall|i: int|
            0 <= i < taps.len() && (#[trigger] taps[i]).0 == t ==> taps[i].1 == p - t * hop,
{
    assert(frame_start(t, hop) == t * hop);
}

/// Frames start a hop apart, the first at the start of the padded signal.
pub proof fn frames_start_a_hop_apart(t: int, hop: int)
    ensures
        frame_start(0, hop) == 0,
        frame_start(t + 1, hop) == frame_start(t, hop) + hop,
{
    assert(0 * hop == 0) by (nonlinear_arith);
    assert((t + 1) * hop == t * hop + hop) by (nonlinear_arith);
}

} // verus!
