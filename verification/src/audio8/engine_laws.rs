//! What an utterance is made of.

use crate::assemble;
use crate::assemble::Piece;
use crate::assemble_laws;
use crate::audio8::engine;
use crate::audio8::engine::Spoken;
use crate::chars;
use crate::engine::{Capabilities, Cloning, SynthesisRequest};
use crate::quant;
use crate::voice;
use crate::words_laws;
use vstd::prelude::*;

verus! {

/// The request sets the gaps: every piece is heard as it is, and between two of one paragraph, or of
/// two, lie as many silent samples as fit into the time that the request gives, 44100 to a second.
pub proof fn the_request_sets_the_gaps<T>(
    request: SynthesisRequest,
    pieces: Seq<Piece<T>>,
    zero: T,
) -> (at: Seq<int>)
    requires
        pieces.len() > 0,
    ensures
        at.len() == pieces.len(),
        at[0] == 0,
        engine::uttered(request, assemble::piece_views(pieces), zero).len() == at.last()
            + pieces.last().samples@.len(),
        forall|j: int|
            0 <= j < pieces.len() ==> engine::uttered(
                request,
                assemble::piece_views(pieces),
                zero,
            ).subrange(#[trigger] at[j], at[j] + pieces[j].samples@.len()) == pieces[j].samples@,
        forall|j: int, k: int|
            0 <= j && k == j + 1 && k < pieces.len() ==> {
                let gap = #[trigger] at[k] - (#[trigger] at[j] + pieces[j].samples@.len());
                let millis = if pieces[j].para == pieces[k].para {
                    request.gaps.segment_ms
                } else {
                    request.gaps.paragraph_ms
                };
                &&& 1000 * gap <= 44100 * millis < 1000 * gap + 1000
                &&& forall|i: int|
                    at[k] - gap <= i < at[k] ==> #[trigger] engine::uttered(
                        request,
                        assemble::piece_views(pieces),
                        zero,
                    )[i] == zero
            },
{
    let (s, p) = (request.gaps.segment_ms as int, request.gaps.paragraph_ms as int);
    let gap = assemble::gap_of(zero, 44100, s);
    let para_gap = assemble::gap_of(zero, 44100, p);
    assemble_laws::a_gap_is_as_long_as_it_says(zero, 44100, s);
    assemble_laws::a_gap_is_as_long_as_it_says(zero, 44100, p);
    let out = engine::uttered(request, assemble::piece_views(pieces), zero);
    let at = assemble_laws::every_piece_is_heard_in_its_place(pieces, gap, para_gap);
    assert forall|j: int, k: int| 0 <= j && k == j + 1 && k < pieces.len() implies {
        let g = #[trigger] at[k] - (#[trigger] at[j] + pieces[j].samples@.len());
        let millis = if pieces[j].para == pieces[k].para {
            request.gaps.segment_ms
        } else {
            request.gaps.paragraph_ms
        };
        &&& 1000 * g <= 44100 * millis < 1000 * g + 1000
        &&& forall|i: int| at[k] - g <= i < at[k] ==> #[trigger] out[i] == zero
    } by {
        let end = at[j] + pieces[j].samples@.len();
        let between = if pieces[j].para == pieces[k].para {
            gap
        } else {
            para_gap
        };
        assert(out.subrange(end, at[k]) == between);
        assert forall|i: int| end <= i < at[k] implies #[trigger] out[i] == zero by {
            assert(out.subrange(end, at[k])[i - end] == between[i - end]);
        }
    }
    at
}

/// The segments that sound are those with frames, in reading order.
pub proof fn the_segments_with_frames_sound(codes: Seq<Vec<Vec<u32>>>)
    ensures
        forall|k: int, l: int|
            0 <= k < l < engine::sounding(codes).len() ==> #[trigger] engine::sounding(codes)[k] < #[trigger] engine::sounding(codes)[l],
        forall|k: int| 0 <= k < engine::sounding(codes).len() ==> 0 <= #[trigger] engine::sounding(codes)[k] < codes.len(),
        forall|i: int|
            0 <= i < codes.len() ==> (#[trigger] engine::sounding(codes).contains(i) <==> codes[i]@[0]@.len() > 0),
    decreases codes.len(),
{
    if codes.len() > 0 {
        let b = codes.drop_last();
        let n = codes.len() - 1;
        the_segments_with_frames_sound(b);
        let was = engine::sounding(b);
        let all = engine::sounding(codes);
        assert forall|i: int| 0 <= i < codes.len() implies (#[trigger] all.contains(i) <==> codes[i]@[0]@.len() > 0) by {
            if i < n {
                assert(b[i] == codes[i]);
                if was.contains(i) {
                    let k = choose|k: int| 0 <= k < was.len() && was[k] == i;
                    assert(all[k] == i);
                }
                if all.contains(i) {
                    let k = choose|k: int| 0 <= k < all.len() && all[k] == i;
                    assert(was[k] == i);
                }
            } else {
                if codes[n]@[0]@.len() > 0 {
                    assert(all[was.len() as int] == n);
                } else if all.contains(n) {
                    let k = choose|k: int| 0 <= k < all.len() && all[k] == n;
                    assert(was[k] == n);
                }
            }
        }
        assert forall|k: int, l: int| 0 <= k < l < all.len() implies #[trigger] all[k]
            < #[trigger] all[l] by {
            if l < was.len() {
                assert(was[k] < was[l]);
            } else {
                assert(was[k] < n);
            }
        }
        assert forall|k: int| 0 <= k < all.len() implies 0 <= #[trigger] all[k] < codes.len() by {
            if k < was.len() {
                assert(0 <= was[k] < n);
            }
        }
    }
}

/// What the engine says of itself: 44.1 kHz, a frame for every 2048 samples, cloning from an asset.
pub proof fn the_engine_describes_itself(c: Capabilities)
    requires
        engine::described(c),
    ensures
        c.sample_rate == 44100,
        c.frame_rate.frames == 44100,
        c.frame_rate.seconds == 2048,
        c.cloning == Cloning::PrecomputedAsset,
        !c.streaming,
        c.available,
        c.reason is None,
        quant::listed(c.quantization@) =~= seq!["f32"@, "q8_0"@, "q5_0"@, "q4_1"@, "q4_0"@],
{
}

/// A voice is told where its transcript has a character that is no white space.
pub proof fn a_transcript_is_told_by_its_words(request: SynthesisRequest)
    ensures
        request.voice is None ==> !engine::untold(request),
        request.voice matches Some(v) ==> (engine::untold(request) <==> forall|i: int|
            0 <= i < v.text@.len() ==> chars::white_space(#[trigger] v.text@[i])),
{
    if let Some(v) = request.voice {
        let s = v.text@;
        let (a, b) = words_laws::trimming_takes_off_the_ends(s);
        if a < b {
            assert(!chars::white_space(s[a]));
        } else {
            assert forall|i: int| 0 <= i < s.len() implies chars::white_space(#[trigger] s[i]) by {
                if i >= a {
                    assert(b <= i);
                }
            }
        }
    }
}

/// What is decoded follows the segments: those with frames, in reading order, each with its own
/// paragraph and its own frames.
pub proof fn decoding_follows_the_segments(
    out: Seq<Spoken>,
    segments: Seq<(usize, String)>,
    codes: Seq<Vec<Vec<u32>>>,
    k: int,
)
    requires
        engine::spoken_of(out, segments, codes),
        0 <= k < out.len(),
    ensures
        out[k].index < codes.len(),
        codes[out[k].index as int]@[0]@.len() > 0,
        out[k].para == segments[out[k].index as int].0,
        out[k].frames == codes[out[k].index as int]@[0]@.len(),
        forall|l: int| k < l < out.len() ==> out[k].index < (#[trigger] out[l]).index,
        forall|i: int|
            0 <= i < codes.len() && (#[trigger] codes[i])@[0]@.len() > 0 ==> exists|l: int|
                0 <= l < out.len() && (#[trigger] out[l]).index == i,
{
    the_segments_with_frames_sound(codes);
    let v = engine::sounding(codes);
    assert(out[k].index == v[k]);
    assert(v.contains(v[k]));
    assert forall|l: int| k < l < out.len() implies out[k].index < (#[trigger] out[l]).index by {
        assert(out[l].index == v[l]);
    }
    assert forall|i: int| 0 <= i < codes.len() && (#[trigger] codes[i])@[0]@.len() > 0 implies exists|
        l: int,
    |
        0 <= l < out.len() && (#[trigger] out[l]).index == i by {
        assert(v.contains(i));
        let l = choose|l: int| 0 <= l < v.len() && v[l] == i;
        assert(out[l].index == i);
    }
}

/// A request is taken without a voice or with one built for this engine, whose codes can be read.
pub proof fn a_request_is_taken_with_its_own_voice(request: SynthesisRequest)
    ensures
        request.voice is None ==> engine::taken(request) && engine::coded(request),
        request.voice matches Some(v) ==> (engine::taken(request) <==> v.engine@ == "audio8"@),
        request.voice matches Some(v) ==> (engine::coded(request) <==> voice::found(
            v.tensors@,
            "reference_codes"@,
        ) is Some && voice::gives_rows(voice::found(v.tensors@, "reference_codes"@)->0)),
{
}

} // verus!
