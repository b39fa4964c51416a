//! Decoding codes to audio: frames turned codebook by codebook, and long utterances in chunks
//! with left context.

use crate::assemble::copy_range;
use crate::assemble::extend_copied;
use crate::grid;
use crate::grid::transpose;
use crate::qwen3tts::cfg;
use crate::qwen3tts::cfg::codec as k;
use vstd::prelude::*;

verus! {

/// Why frames cannot be decoded.
#[derive(Clone, Copy, PartialEq, Eq, Structural, Debug)]
pub enum CodecError {
    /// There are none.
    NoFrames,
    /// A frame does not have one code for each codebook.
    Frame { codes: usize },
}

/// The first frame of the wrong size.
pub open spec fn first_bad(frames: Seq<Seq<u32>>, i: int) -> bool {
    &&& 0 <= i < frames.len()
    &&& frames[i].len() != k::QUANTIZERS
    &&& forall|j: int| 0 <= j < i ==> (#[trigger] frames[j]).len() == k::QUANTIZERS
}

/// Frame by frame to codebook by codebook: the quantizers index one at a time.
pub fn by_codebook(frames: &Vec<Vec<u32>>) -> (r: Result<Vec<Vec<u32>>, CodecError>)
    ensures
        match r {
            Ok(v) => grid::rectangular(grid::rows_view(frames@), k::QUANTIZERS as nat)
                && grid::rows_view(v@) == grid::transposed(
                grid::rows_view(frames@),
                k::QUANTIZERS as nat,
            ),
            Err(CodecError::Frame { codes }) => exists|i: int|
                #[trigger] first_bad(grid::rows_view(frames@), i) && codes == frames@[i]@.len(),
            Err(CodecError::NoFrames) => false,
        },
{
    let ghost all = grid::rows_view(frames@);
    let mut i: usize = 0;
    while i < frames.len()
        invariant
            i <= frames@.len(),
            all == grid::rows_view(frames@),
            forall|j: int| 0 <= j < i ==> (#[trigger] all[j]).len() == k::QUANTIZERS,
        decreases frames@.len() - i,
    {
        assert(all[i as int] == frames@[i as int]@);
        if frames[i].len() != k::QUANTIZERS {
            assert(first_bad(all, i as int));
            return Err(CodecError::Frame { codes: frames[i].len() });
        }
        i += 1;
    }
    Ok(transpose(frames, k::QUANTIZERS))
}

/// What one forward pass takes: at least one frame, each complete.
pub fn forward_input(frames: &Vec<Vec<u32>>) -> (r: Result<Vec<Vec<u32>>, CodecError>)
    ensures
        match r {
            Ok(v) => frames@.len() > 0 && grid::rectangular(
                grid::rows_view(frames@),
                k::QUANTIZERS as nat,
            ) && grid::rows_view(v@) == grid::transposed(
                grid::rows_view(frames@),
                k::QUANTIZERS as nat,
            ),
            Err(CodecError::NoFrames) => frames@.len() == 0,
            Err(CodecError::Frame { codes }) => exists|i: int|
                #[trigger] first_bad(grid::rows_view(frames@), i) && codes == frames@[i]@.len(),
        },
{
    if frames.len() == 0 {
        return Err(CodecError::NoFrames);
    }
    by_codebook(frames)
}

/// A stretch of frames decoded in one pass.
#[derive(Clone, Copy, PartialEq, Eq, Structural, Debug)]
pub struct Chunk {
    /// The first frame whose audio is kept.
    pub start: usize,
    /// One past the last.
    pub end: usize,
    /// Frames in front of `start` that are decoded for context.
    pub context: usize,
}

/// The chunk that starts at `start` of `n` frames.
pub open spec fn chunk_at(start: int, n: int) -> Chunk {
    Chunk {
        start: start as usize,
        end: (if n - start <= k::CHUNK_FRAMES {
            n
        } else {
            start + k::CHUNK_FRAMES
        }) as usize,
        context: (if start < k::CHUNK_LEFT_CONTEXT {
            start
        } else {
            k::CHUNK_LEFT_CONTEXT as int
        }) as usize,
    }
}

/// The chunks of `n` frames from `start` on.
pub open spec fn chunks_from(start: int, n: int) -> Seq<Chunk>
    decreases n - start,
{
    if start >= n {
        Seq::empty()
    } else {
        seq![chunk_at(start, n)] + chunks_from(
            if n - start <= k::CHUNK_FRAMES {
                n
            } else {
                start + k::CHUNK_FRAMES
            },
            n,
        )
    }
}

/// How `n` frames are decoded: in chunks with left context, so that memory stays bounded and
/// every chunk has real history in front of it.
pub fn chunk_plan(n: usize) -> (v: Vec<Chunk>)
    ensures
        v@ == chunks_from(0, n as int),
{
    let mut v: Vec<Chunk> = Vec::new();
    let mut start: usize = 0;
    let ghost want = chunks_from(0, n as int);
    assert(v@ + want =~= want);
    while start < n
        invariant
            start <= n,
            v@ + chunks_from(start as int, n as int) == want,
        decreases n - start,
    {
        let end: usize = if n - start <= k::CHUNK_FRAMES {
            n
        } else {
            start + k::CHUNK_FRAMES
        };
        let context: usize = if start < k::CHUNK_LEFT_CONTEXT {
            start
        } else {
            k::CHUNK_LEFT_CONTEXT
        };
        let c = Chunk { start, end, context };
        assert(c == chunk_at(start as int, n as int));
        let ghost done = v@;
        let ghost rest = chunks_from(end as int, n as int);
        v.push(c);
        assert(done.push(c) + rest =~= done + (seq![c] + rest));
        start = end;
    }
    assert(v@ + Seq::<Chunk>::empty() =~= v@);
    v
}

/// The frames that a chunk's pass takes: its context and itself.
pub fn chunk_frames(frames: &Vec<Vec<u32>>, c: &Chunk) -> (v: Vec<Vec<u32>>)
    requires
        c.context <= c.start <= c.end <= frames@.len(),
    ensures
        grid::rows_view(v@) == grid::rows_view(frames@).subrange(c.start - c.context, c.end as int),
{
    let ghost all = grid::rows_view(frames@);
    let from: usize = c.start - c.context;
    let mut v: Vec<Vec<u32>> = Vec::new();
    let mut i: usize = from;
    assert(grid::rows_view(v@) =~= all.subrange(from as int, from as int));
    while i < c.end
        invariant
            from <= i <= c.end <= frames@.len(),
            all == grid::rows_view(frames@),
            grid::rows_view(v@) == all.subrange(from as int, i as int),
        decreases c.end - i,
    {
        let ghost done = grid::rows_view(v@);
        let f = grid::copy_vec(&frames[i]);
        v.push(f);
        assert(grid::rows_view(v@) =~= done.push(all[i as int]));
        assert(all.subrange(from as int, i + 1) =~= all.subrange(from as int, i as int).push(
            all[i as int],
        ));
        i += 1;
    }
    v
}

/// Keeps a chunk's audio: what its pass gave, without that of the context.
pub fn keep_chunk<T: Copy>(out: &mut Vec<T>, wav: &[T], context: usize)
    requires
        context * cfg::SAMPLES_PER_FRAME <= wav@.len(),
    ensures
        final(out)@ == old(out)@ + wav@.subrange(
            context * cfg::SAMPLES_PER_FRAME,
            wav@.len() as int,
        ),
{
    assert(context * cfg::SAMPLES_PER_FRAME <= wav.len());
    let dropped: usize = context * cfg::SAMPLES_PER_FRAME;
    let kept = copy_range(wav, dropped, wav.len());
    extend_copied(out, kept.as_slice());
}

/// The audio kept of several chunks, one behind the other.
pub open spec fn kept<T>(chunks: Seq<Chunk>, wavs: Seq<Seq<T>>) -> Seq<T>
    decreases chunks.len(),
{
    if chunks.len() == 0 {
        Seq::empty()
    } else {
        kept(chunks.drop_last(), wavs.drop_last()) + wavs.last().subrange(
            chunks.last().context * cfg::SAMPLES_PER_FRAME,
            wavs.last().len() as int,
        )
    }
}

/// A pass gives the samples of the frames it takes, context included.
pub open spec fn passes_are_exact<T>(chunks: Seq<Chunk>, wavs: Seq<Seq<T>>) -> bool {
    &&& wavs.len() == chunks.len()
    &&& forall|i: int|
        0 <= i < chunks.len() ==> (#[trigger] wavs[i]).len() == (chunks[i].end - chunks[i].start
            + chunks[i].context) * cfg::SAMPLES_PER_FRAME
}

/// Chunks one behind the other: each starts where the one before it stopped, none is empty or
/// over the limit, the context never reaches before the first frame, and a pass fits the cache.
pub open spec fn contiguous(chunks: Seq<Chunk>, from: int, to: int) -> bool
    decreases chunks.len(),
{
    if chunks.len() == 0 {
        from == to
    } else {
        let c = chunks.last();
        &&& contiguous(chunks.drop_last(), from, c.start as int)
        &&& c.start < c.end
        &&& c.end == to
        &&& c.end - c.start <= k::CHUNK_FRAMES
        &&& c.context <= c.start
        &&& c.context <= k::CHUNK_LEFT_CONTEXT
        &&& c.end - c.start + c.context <= k::TF_CAPACITY
    }
}

proof fn lemma_contiguous_push(chunks: Seq<Chunk>, from: int, mid: int, n: int)
    requires
        contiguous(chunks, from, mid),
        0 <= mid < n <= usize::MAX,
    ensures
        contiguous(chunks.push(chunk_at(mid, n)), from, chunk_at(mid, n).end as int),
{
    assert(chunks.push(chunk_at(mid, n)).drop_last() =~= chunks);
}

proof fn lemma_chunks(done: Seq<Chunk>, start: int, n: int)
    requires
        contiguous(done, 0, start),
        0 <= start <= n <= usize::MAX,
    ensures
        contiguous(done + chunks_from(start, n), 0, n),
    decreases n - start,
{
    if start < n {
        let c = chunk_at(start, n);
        lemma_contiguous_push(done, 0, start, n);
        lemma_chunks(done.push(c), c.end as int, n);
        assert(done.push(c) + chunks_from(c.end as int, n) =~= done + (seq![c] + chunks_from(
            c.end as int,
            n,
        )));
    } else {
        assert(done + Seq::<Chunk>::empty() =~= done);
    }
}

/// The chunks of an utterance cover its frames, each once and in order.
pub proof fn chunks_cover_the_frames(n: int)
    requires
        0 <= n <= usize::MAX,
    ensures
        contiguous(chunks_from(0, n), 0, n),
{
    lemma_chunks(Seq::empty(), 0, n);
    assert(Seq::<Chunk>::empty() + chunks_from(0, n) =~= chunks_from(0, n));
}

proof fn lemma_kept_len<T>(chunks: Seq<Chunk>, wavs: Seq<Seq<T>>, to: int)
    requires
        contiguous(chunks, 0, to),
        passes_are_exact(chunks, wavs),
    ensures
        kept(chunks, wavs).len() == to * cfg::SAMPLES_PER_FRAME,
    decreases chunks.len(),
{
    if chunks.len() > 0 {
        let c = chunks.last();
        let n = chunks.len() - 1;
        assert(chunks[n] == c);
        assert(wavs[n].len() == (chunks[n].end - chunks[n].start + chunks[n].context)
            * cfg::SAMPLES_PER_FRAME);
        assert forall|i: int| 0 <= i < chunks.drop_last().len() implies (
        #[trigger] wavs.drop_last()[i]).len() == (chunks.drop_last()[i].end
            - chunks.drop_last()[i].start + chunks.drop_last()[i].context)
            * cfg::SAMPLES_PER_FRAME by {
            assert(wavs[i].len() == (chunks[i].end - chunks[i].start + chunks[i].context)
                * cfg::SAMPLES_PER_FRAME);
        }
        lemma_kept_len(chunks.drop_last(), wavs.drop_last(), c.start as int);
    }
}

/// Decoding in chunks loses no audio and keeps none twice: what is kept is exactly the samples of
/// the frames.
pub proof fn chunked_audio_is_exact<T>(n: int, wavs: Seq<Seq<T>>)
    requires
        0 <= n <= usize::MAX,
        passes_are_exact(chunks_from(0, n), wavs),
    ensures
        kept(chunks_from(0, n), wavs).len() == n * cfg::SAMPLES_PER_FRAME,
{
    chunks_cover_the_frames(n);
    lemma_kept_len(chunks_from(0, n), wavs, n);
}

/// The frames are decoded 300 at a time, each lot behind the 25 frames before it or as many as
/// there are.
pub proof fn chunks_are_three_hundred_frames(n: int, c: int)
    requires
        0 <= n <= usize::MAX,
        0 <= c < chunks_from(0, n).len(),
    ensures
        ({
            let x = chunks_from(0, n)[c];
            &&& x.start == 300 * c
            &&& x.start < n
            &&& x.end == if 300 * c + 300 < n {
                300 * c + 300
            } else {
                n
            }
            &&& x.context == if c == 0 {
                0int
            } else {
                25int
            }
            &&& c == chunks_from(0, n).len() - 1 <==> x.end == n
        }),
{
    lemma_chunk(0, n, c);
}

proof fn lemma_chunk(from: int, n: int, c: int)
    requires
        0 <= from,
        n <= usize::MAX,
        from % 300 == 0,
        0 <= c < chunks_from(from, n).len(),
    ensures
        ({
            let x = chunks_from(from, n)[c];
            let start = from + 300 * c;
            &&& x.start == start
            &&& start < n
            &&& x.end == if start + 300 < n {
                start + 300
            } else {
                n
            }
            &&& x.context == if start == 0 {
                0int
            } else {
                25int
            }
            &&& c == chunks_from(from, n).len() - 1 <==> x.end == n
        }),
    decreases n - from,
{
    if n - from > 300 {
        let rest = chunks_from(from + 300, n);
        assert(chunks_from(from, n) == seq![chunk_at(from, n)] + rest);
        if c > 0 {
            lemma_chunk(from + 300, n, c - 1);
            assert(chunks_from(from, n)[c] == rest[c - 1]);
        } else {
            assert(rest.len() > 0);
        }
    } else {
        assert(chunks_from(n, n) =~= Seq::<Chunk>::empty());
        assert(chunks_from(from, n).len() == 1);
    }
}

#[verifier::rlimit(50)]
proof fn lemma_kept<T>(chunks: Seq<Chunk>, wavs: Seq<Seq<T>>, to: int, c: int)
    requires
        contiguous(chunks, 0, to),
        passes_are_exact(chunks, wavs),
        0 <= c < chunks.len(),
    ensures
        kept(chunks, wavs).len() == to * 1920,
        0 <= chunks[c].start <= chunks[c].end <= to,
        wavs[c].len() == (chunks[c].end - chunks[c].start + chunks[c].context) * 1920,
        kept(chunks, wavs).subrange(chunks[c].start * 1920, chunks[c].end * 1920)
            == wavs[c].subrange(chunks[c].context * 1920, wavs[c].len() as int),
    decreases chunks.len(),
{
    let n = chunks.len() - 1;
    let (b, w) = (chunks.drop_last(), wavs.drop_last());
    let x = chunks[n];
    assert(passes_are_exact(b, w)) by {
        assert forall|i: int| 0 <= i < b.len() implies (#[trigger] w[i]).len() == (b[i].end
            - b[i].start + b[i].context) * cfg::SAMPLES_PER_FRAME by {
            assert(w[i] == wavs[i]);
        }
    }
    assert(wavs[n].len() == (x.end - x.start + x.context) * 1920);
    let all = kept(chunks, wavs);
    let before = kept(b, w);
    assert(before.len() == x.start * 1920) by {
        if n > 0 {
            lemma_kept(b, w, x.start as int, 0);
        } else {
            assert(contiguous(b, 0, x.start as int));
            assert(before =~= Seq::<T>::empty());
        }
    }
    if c < n {
        lemma_kept(b, w, x.start as int, c);
        assert(all.subrange(chunks[c].start * 1920, chunks[c].end * 1920) =~= before.subrange(
            b[c].start * 1920,
            b[c].end * 1920,
        ));
    } else {
        assert(all.subrange(x.start * 1920, x.end * 1920) =~= wavs[c].subrange(
            x.context * 1920,
            wavs[c].len() as int,
        ));
    }
}

/// Every chunk is heard in its place: the audio of its frames, 1920 samples each, is what its pass
/// gave behind the samples of its context.
pub proof fn every_chunk_is_heard_in_its_place<T>(n: int, wavs: Seq<Seq<T>>, c: int)
    requires
        0 <= n <= usize::MAX,
        passes_are_exact(chunks_from(0, n), wavs),
        0 <= c < chunks_from(0, n).len(),
    ensures
        ({
            let x = chunks_from(0, n)[c];
            &&& kept(chunks_from(0, n), wavs).len() == n * 1920
            &&& 0 <= x.start <= x.end <= n
            &&& kept(chunks_from(0, n), wavs).subrange(x.start * 1920, x.end * 1920)
                == wavs[c].subrange(x.context * 1920, wavs[c].len() as int)
        }),
{
    chunks_cover_the_frames(n);
    lemma_kept(chunks_from(0, n), wavs, n, c);
}

/// The frame that is reported is the first without sixteen codes.
pub proof fn the_first_odd_frame_is_reported(frames: Seq<Seq<u32>>, i: int)
    requires
        first_bad(frames, i),
    ensures
        0 <= i < frames.len(),
        frames[i].len() != 16,
        forall|j: int| 0 <= j < i ==> (#[trigger] frames[j]).len() == 16,
{
}

} // verus!
