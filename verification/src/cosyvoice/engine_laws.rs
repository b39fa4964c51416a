//! What a flow call takes and what becomes of its waveform.

use crate::assemble;
use crate::assemble::Piece;
use crate::assemble_laws;
use crate::cosyvoice::engine;
use crate::cosyvoice::engine::{Call, Conditioning, Span};
use crate::cosyvoice::llm::Segment;
use crate::engine::{Capabilities, Cloning, SynthesisRequest};
use crate::quant;
use crate::tokens::Tokens;
use crate::voice;
use crate::voice::Voice;
use candle_core::{Device, Tensor};
use vstd::prelude::*;

verus! {

/// Every speech token keeps its place: the tokens of a group's member stand in the call in the order
/// in which they were generated, behind those of the members before it; and the call's waveform is
/// cut into as many segments, each with its own paragraph and length.
pub proof fn every_speech_token_keeps_its_place(c: Call, spans: Seq<Span>, group: Seq<usize>) -> (from:
    Seq<int>)
    requires
        engine::call_of(c, spans, group),
    ensures
        from.len() == group.len() + 1,
        from[0] == 0,
        from.last() == c.tokens@.len(),
        forall|j: int, k: int|
            0 <= j && k == j + 1 && k < from.len() ==> #[trigger] from[k] == #[trigger] from[j]
                + spans[group[j] as int].speech@.len(),
        forall|j: int|
            0 <= j < group.len() ==> 0 <= #[trigger] from[j] && from[j]
                + spans[group[j] as int].speech@.len() <= c.tokens@.len() && c.tokens@.subrange(
                from[j],
                from[j] + spans[group[j] as int].speech@.len(),
            ) == spans[group[j] as int].speech@,
        c.paras@.len() == group.len(),
        c.lens@.len() == group.len(),
        forall|j: int|
            0 <= j < group.len() ==> #[trigger] c.paras@[j] == spans[group[j] as int].para
                && c.lens@[j] == spans[group[j] as int].speech@.len(),
{
    assert forall|j: int| 0 <= j < group.len() implies #[trigger] c.paras@[j]
        == spans[group[j] as int].para && c.lens@[j] == spans[group[j] as int].speech@.len() by {
        assert(c.lens@[j] == spans[group[j] as int].speech@.len());
    }
    lemma_group_speech(spans, group)
}

proof fn lemma_group_speech(spans: Seq<Span>, group: Seq<usize>) -> (from: Seq<int>)
    ensures
        from.len() == group.len() + 1,
        from[0] == 0,
        from.last() == engine::group_speech(spans, group).len(),
        forall|j: int, k: int|
            0 <= j && k == j + 1 && k < from.len() ==> #[trigger] from[k] == #[trigger] from[j]
                + spans[group[j] as int].speech@.len(),
        forall|j: int|
            0 <= j < group.len() ==> 0 <= #[trigger] from[j] && from[j]
                + spans[group[j] as int].speech@.len() <= engine::group_speech(spans, group).len()
                && engine::group_speech(spans, group).subrange(
                from[j],
                from[j] + spans[group[j] as int].speech@.len(),
            ) == spans[group[j] as int].speech@,
    decreases group.len(),
{
    if group.len() == 0 {
        seq![0int]
    } else {
        let rest = group.drop_last();
        let was = lemma_group_speech(spans, rest);
        let before = engine::group_speech(spans, rest);
        let all = engine::group_speech(spans, group);
        let last = spans[group.last() as int].speech@;
        let from = was.push((before.len() + last.len()) as int);
        assert forall|j: int, k: int| 0 <= j && k == j + 1 && k < from.len() implies #[trigger] from[k]
            == #[trigger] from[j] + spans[group[j] as int].speech@.len() by {
            if k < was.len() {
                assert(was[k] == was[j] + spans[rest[j] as int].speech@.len());
            }
        }
        assert forall|j: int| 0 <= j < group.len() implies 0 <= #[trigger] from[j] && from[j]
            + spans[group[j] as int].speech@.len() <= all.len() && all.subrange(
            from[j],
            from[j] + spans[group[j] as int].speech@.len(),
        ) == spans[group[j] as int].speech@ by {
            let part = spans[group[j] as int].speech@;
            if j < rest.len() {
                assert(rest[j] == group[j] && was[j] == from[j]);
                assert(all.subrange(from[j], from[j] + part.len()) =~= before.subrange(
                    was[j],
                    was[j] + part.len(),
                ));
            } else {
                assert(from[j] == before.len());
                assert(all.subrange(from[j], from[j] + part.len()) =~= part);
            }
        }
        from
    }
}

/// The request sets the gaps: every piece is heard as it is, and between two of one paragraph, or of
/// two, lie as many silent samples as fit into the time that the request gives, 24000 to a second.
pub proof fn the_request_sets_the_gaps<T>(
    request: SynthesisRequest,
    pieces: Seq<Piece<T>>,
    zero: T,
) -> (at: Seq<int>)
    requires
        pieces.len() > 0,
    ensures
        at.len() == pieces.len(),
        at[0] == 0,
        engine::uttered(request, assemble::piece_views(pieces), zero).len() == at.last()
            + pieces.last().samples@.len(),
        forall|j: int|
            0 <= j < pieces.len() ==> engine::uttered(
                request,
                assemble::piece_views(pieces),
                zero,
            ).subrange(#[trigger] at[j], at[j] + pieces[j].samples@.len()) == pieces[j].samples@,
        forall|j: int, k: int|
            0 <= j && k == j + 1 && k < pieces.len() ==> {
                let gap = #[trigger] at[k] - (#[trigger] at[j] + pieces[j].samples@.len());
                let millis = if pieces[j].para == pieces[k].para {
                    request.gaps.segment_ms
                } else {
                    request.gaps.paragraph_ms
                };
                &&& 1000 * gap <= 24000 * millis < 1000 * gap + 1000
                &&& forall|i: int|
                    at[k] - gap <= i < at[k] ==> #[trigger] engine::uttered(
                        request,
                        assemble::piece_views(pieces),
                        zero,
                    )[i] == zero
            },
{
    let (s, p) = (request.gaps.segment_ms as int, request.gaps.paragraph_ms as int);
    let gap = assemble::gap_of(zero, 24000, s);
    let para_gap = assemble::gap_of(zero, 24000, p);
    assemble_laws::a_gap_is_as_long_as_it_says(zero, 24000, s);
    assemble_laws::a_gap_is_as_long_as_it_says(zero, 24000, p);
    let out = engine::uttered(request, assemble::piece_views(pieces), zero);
    let at = assemble_laws::every_piece_is_heard_in_its_place(pieces, gap, para_gap);
    assert forall|j: int, k: int| 0 <= j && k == j + 1 && k < pieces.len() implies {
        let g = #[trigger] at[k] - (#[trigger] at[j] + pieces[j].samples@.len());
        let millis = if pieces[j].para == pieces[k].para {
            request.gaps.segment_ms
        } else {
            request.gaps.paragraph_ms
        };
        &&& 1000 * g <= 24000 * millis < 1000 * g + 1000
        &&& forall|i: int| at[k] - g <= i < at[k] ==> #[trigger] out[i] == zero
    } by {
        let end = at[j] + pieces[j].samples@.len();
        let between = if pieces[j].para == pieces[k].para {
            gap
        } else {
            para_gap
        };
        assert(out.subrange(end, at[k]) == between);
        assert forall|i: int| end <= i < at[k] implies #[trigger] out[i] == zero by {
            assert(out.subrange(end, at[k])[i - end] == between[i - end]);
        }
    }
    at
}

/// The segments that are voiced are those with speech tokens, in reading order.
pub proof fn the_segments_with_speech_are_voiced(generated: Seq<Vec<u32>>)
    ensures
        forall|k: int, l: int|
            0 <= k < l < engine::voiced(generated).len() ==> #[trigger] engine::voiced(generated)[k] < #[trigger] engine::voiced(generated)[l],
        forall|k: int| 0 <= k < engine::voiced(generated).len() ==> 0 <= #[trigger] engine::voiced(generated)[k] < generated.len(),
        forall|i: int|
            0 <= i < generated.len() ==> (#[trigger] engine::voiced(generated).contains(i) <==> generated[i]@.len() > 0),
    decreases generated.len(),
{
    if generated.len() > 0 {
        let b = generated.drop_last();
        let n = generated.len() - 1;
        the_segments_with_speech_are_voiced(b);
        let was = engine::voiced(b);
        let all = engine::voiced(generated);
        assert forall|i: int| 0 <= i < generated.len() implies (#[trigger] all.contains(i) <==> generated[i]@.len() > 0) by {
            if i < n {
                assert(b[i] == generated[i]);
                if was.contains(i) {
                    let k = choose|k: int| 0 <= k < was.len() && was[k] == i;
                    assert(all[k] == i);
                }
                if all.contains(i) {
                    let k = choose|k: int| 0 <= k < all.len() && all[k] == i;
                    assert(was[k] == i);
                }
            } else {
                if generated[n]@.len() > 0 {
                    assert(all[was.len() as int] == n);
                } else if all.contains(n) {
                    let k = choose|k: int| 0 <= k < all.len() && all[k] == n;
                    assert(was[k] == n);
                }
            }
        }
        assert forall|k: int, l: int| 0 <= k < l < all.len() implies #[trigger] all[k]
            < #[trigger] all[l] by {
            if l < was.len() {
                assert(was[k] < was[l]);
            } else {
                assert(was[k] < n);
            }
        }
        assert forall|k: int| 0 <= k < all.len() implies 0 <= #[trigger] all[k] < generated.len() by {
            if k < was.len() {
                assert(0 <= was[k] < n);
            }
        }
    }
}

/// What the engine says of itself: 24 kHz, fifty frames a second, cloning from an asset.
pub proof fn the_engine_describes_itself(c: Capabilities)
    requires
        engine::described(c),
    ensures
        c.sample_rate == 24000,
        c.frame_rate.frames == 50,
        c.frame_rate.seconds == 1,
        c.cloning == Cloning::PrecomputedAsset,
        !c.streaming,
        c.available,
        c.reason is None,
        quant::listed(c.quantization@) =~= seq!["f32"@, "q8_0"@, "q5_0"@, "q4_1"@, "q4_0"@],
{
}

/// A voice conditions by its tensors: the speech tokens and the transcript's tokens are the first
/// rows of the tensors of those names, the mel and the speaker copies of theirs.
pub proof fn a_voice_conditions_by_name(v: Voice, c: Conditioning)
    requires
        engine::conditions(v, c),
    ensures
        ({
            let speech = voice::found(v.tensors@, "speech_tokens"@);
            let said = voice::found(v.tensors@, "prompt_text_tokens"@);
            let mel = voice::found(v.tensors@, "prompt_mel"@);
            let speaker = voice::found(v.tensors@, "speaker_embedding"@);
            &&& speech is Some && said is Some && mel is Some && speaker is Some
            &&& c.tokens@.len() == voice::shape(speech->0)[1]
            &&& forall|k: int|
                0 <= k < c.tokens@.len() ==> #[trigger] c.tokens@[k] == voice::integers(speech->0)[k]
            &&& c.text_tokens@.len() == voice::shape(said->0)[1]
            &&& forall|k: int|
                0 <= k < c.text_tokens@.len() ==> #[trigger] c.text_tokens@[k] == voice::integers(
                    said->0,
                )[k]
            &&& voice::shape(c.mel) == voice::shape(mel->0) && voice::content(c.mel)
                == voice::content(mel->0)
            &&& voice::shape(c.speaker) == voice::shape(speaker->0) && voice::content(c.speaker)
                == voice::content(speaker->0)
        }),
{
    lemma_first_row(voice::found(v.tensors@, "speech_tokens"@)->0, c.tokens@);
    lemma_first_row(voice::found(v.tensors@, "prompt_text_tokens"@)->0, c.text_tokens@);
}

proof fn lemma_first_row(t: Tensor, row: Seq<u32>)
    requires
        engine::first_row_of(t, row),
    ensures
        row.len() == voice::shape(t)[1],
        forall|k: int| 0 <= k < row.len() ==> #[trigger] row[k] == voice::integers(t)[k],
{
    let rows = choose|rows: Seq<Seq<u32>>| #[trigger]
        voice::reads_rows(t, rows) && rows.len() > 0 && rows[0] == row;
    assert forall|k: int| 0 <= k < row.len() implies #[trigger] row[k] == voice::integers(t)[k] by {
        voice::tensors_are_read_row_by_row(t, rows, 0, k);
        assert(0 * voice::shape(t)[1] == 0) by (nonlinear_arith);
    }
}

/// Every segment is spoken behind the voice's transcript and its speech: the text to speak stands
/// behind the transcript, and only its own tokens count for its length.
pub proof fn segments_are_spoken_behind_the_transcript(
    v: Seq<Segment>,
    cond: Conditioning,
    tokens: Seq<Tokens>,
    i: int,
    k: int,
)
    requires
        engine::prompted(v, cond, tokens),
        0 <= i < tokens.len(),
    ensures
        v.len() == tokens.len(),
        v[i].text_len == tokens[i].ids@.len(),
        v[i].text@.len() == cond.text_tokens@.len() + tokens[i].ids@.len(),
        0 <= k < cond.text_tokens@.len() ==> v[i].text@[k] == cond.text_tokens@[k],
        0 <= k < tokens[i].ids@.len() ==> v[i].text@[cond.text_tokens@.len() + k]
            == tokens[i].ids@[k],
        v[i].speech@ == cond.tokens@,
{
    assert(v[i].text@ == cond.text_tokens@ + tokens[i].ids@);
}

/// A call of the flow takes at most a thousand tokens, two frames to a token, and no more than the
/// fixed noise leaves room for behind the prompt, but always one; one segment at a time it takes
/// one.
pub proof fn calls_stay_within_the_noise(max_frames: int, prompt_tokens: int)
    requires
        0 <= max_frames,
        0 <= prompt_tokens,
    ensures
        engine::group_tokens(max_frames, prompt_tokens, true) == 1,
        ({
            let n = engine::group_tokens(max_frames, prompt_tokens, false);
            &&& 1 <= n <= 1000
            &&& n > 1 ==> 2 * (prompt_tokens + n) <= max_frames
            &&& n < 1000 ==> 2 * (prompt_tokens + n + 1) > max_frames
        }),
{
}

proof fn lemma_filled(lens: Seq<nat>, budget: int, n: int)
    requires
        0 <= n <= lens.len(),
        lens.len() <= usize::MAX,
    ensures
        ({
            let f = engine::filled(lens, budget, n);
            &&& n > 0 ==> f.groups.len() > 0 && f.last == engine::group_total(
                lens,
                f.groups.last(),
            )
            &&& n == 0 ==> f.groups.len() == 0
            &&& forall|g: int| 0 <= g < f.groups.len() ==> (#[trigger] f.groups[g]).len() > 0
            &&& forall|g: int|
                0 <= g < f.groups.len() - 1 ==> #[trigger] left_out(
                    lens,
                    budget,
                    f.groups[g],
                    f.groups[g + 1],
                )
        }),
    decreases n,
{
    if n > 0 {
        lemma_filled(lens, budget, n - 1);
        let f = engine::filled(lens, budget, n - 1);
        let h = engine::filled(lens, budget, n);
        let one = seq![(n - 1) as usize];
        if f.groups.len() == 0 || f.last + lens[n - 1] > budget {
            reveal_with_fuel(engine::group_total, 2);
            assert(one.drop_last() =~= Seq::<usize>::empty());
            assert(h.groups.last() == one);
            assert forall|g: int| 0 <= g < h.groups.len() - 1 implies #[trigger] left_out(
                lens,
                budget,
                h.groups[g],
                h.groups[g + 1],
            ) by {
                if g < f.groups.len() - 1 {
                    assert(left_out(lens, budget, f.groups[g], f.groups[g + 1]));
                }
            }
        } else {
            let grown = f.groups.last().push((n - 1) as usize);
            assert(grown.drop_last() =~= f.groups.last());
            assert forall|g: int| 0 <= g < h.groups.len() - 1 implies #[trigger] left_out(
                lens,
                budget,
                h.groups[g],
                h.groups[g + 1],
            ) by {
                assert(left_out(lens, budget, f.groups[g], f.groups[g + 1]));
                assert(f.groups[g + 1].len() > 0);
            }
        }
    }
}

/// That the segment which starts the next group does not fit into a group any more.
pub open spec fn left_out(lens: Seq<nat>, budget: int, group: Seq<usize>, next: Seq<usize>) -> bool {
    engine::group_total(lens, group) + lens[next[0] as int] > budget
}

/// Groups are filled as far as they go: a group ends only where the next segment would put it over
/// the budget.
pub proof fn groups_are_filled(lens: Seq<nat>, budget: int, g: int)
    requires
        lens.len() <= usize::MAX,
        0 <= g < engine::filled(lens, budget, lens.len() as int).groups.len() - 1,
    ensures
        ({
            let groups = engine::filled(lens, budget, lens.len() as int).groups;
            groups[g + 1].len() > 0 && left_out(lens, budget, groups[g], groups[g + 1])
        }),
{
    lemma_filled(lens, budget, lens.len() as int);
    let groups = engine::filled(lens, budget, lens.len() as int).groups;
    assert(left_out(lens, budget, groups[g], groups[g + 1]));
}

/// The total of a group is what its segments take together.
pub proof fn a_group_takes_what_its_segments_take(lens: Seq<nat>, group: Seq<usize>, more: usize)
    ensures
        engine::group_total(lens, Seq::empty()) == 0,
        engine::group_total(lens, group.push(more)) == engine::group_total(lens, group)
            + lens[more as int],
{
    assert(group.push(more).drop_last() =~= group);
}

/// Prompts are taken in turn, as many at a time as may be: every run but the last is full.
pub proof fn every_run_but_the_last_is_full(from: int, n: int, most: int)
    requires
        0 <= from < n <= usize::MAX,
        most > 0,
    ensures
        ({
            let r = engine::runs(from, n, most);
            forall|i: int| 0 <= i < r.len() - 1 ==> (#[trigger] r[i]).1 - r[i].0 == most
        }),
    decreases n - from,
{
    let r = engine::runs(from, n, most);
    if n - from > most {
        let rest = engine::runs(from + most, n, most);
        every_run_but_the_last_is_full(from + most, n, most);
        assert forall|i: int| 0 <= i < r.len() - 1 implies (#[trigger] r[i]).1 - r[i].0 == most by {
            if i > 0 {
                assert(r[i] == rest[i - 1]);
            }
        }
    }
}

/// Speech follows the segments: that of the segments which have any, in reading order, each with its
/// own paragraph.
pub proof fn speech_follows_the_segments(
    out: Seq<Span>,
    tokens: Seq<Tokens>,
    generated: Seq<Vec<u32>>,
) -> (idx: Seq<int>)
    requires
        engine::spans_of(out, tokens, generated),
    ensures
        idx.len() == out.len(),
        forall|k: int, l: int| 0 <= k < l < idx.len() ==> #[trigger] idx[k] < #[trigger] idx[l],
        forall|k: int|
            0 <= k < out.len() ==> 0 <= #[trigger] idx[k] < generated.len() && out[k].para
                == tokens[idx[k]].para && out[k].speech@ == generated[idx[k]]@,
        forall|i: int|
            0 <= i < generated.len() ==> (#[trigger] idx.contains(i) <==> generated[i]@.len() > 0),
{
    the_segments_with_speech_are_voiced(generated);
    let idx = engine::voiced(generated);
    assert forall|k: int| 0 <= k < out.len() implies 0 <= #[trigger] idx[k] < generated.len()
        && out[k].para == tokens[idx[k]].para && out[k].speech@ == generated[idx[k]]@ by {
        assert(engine::span_of(out[k], tokens, generated, idx[k]));
    }
    idx
}

/// The lengths that groups are filled by are those of the segments' speech.
pub proof fn groups_are_filled_by_speech(spans: Seq<Span>, i: int)
    requires
        0 <= i < spans.len(),
    ensures
        engine::speech_lens(spans).len() == spans.len(),
        engine::speech_lens(spans)[i] == spans[i].speech@.len(),
{
}

/// A voice is settled where its four tensors are at hand, the tokens have a row, and the mel has two
/// frames for each speech token.
pub proof fn a_settled_voice_has_its_tensors(v: Voice, device: Device)
    requires
        engine::settled(v, device),
    ensures
        ({
            let speech = voice::found(v.tensors@, "speech_tokens"@);
            let said = voice::found(v.tensors@, "prompt_text_tokens"@);
            let mel = voice::found(v.tensors@, "prompt_mel"@);
            let speaker = voice::found(v.tensors@, "speaker_embedding"@);
            &&& speech is Some && said is Some && mel is Some && speaker is Some
            &&& voice::gives_rows(speech->0) && voice::shape(speech->0)[0] > 0
            &&& voice::gives_rows(said->0) && voice::shape(said->0)[0] > 0
            &&& voice::shape(mel->0)[1] == 2 * voice::shape(speech->0)[1]
        }),
{
    voice::a_name_finds_its_first_tensor(v.tensors@, "prompt_mel"@);
    voice::a_name_finds_its_first_tensor(v.tensors@, "speaker_embedding"@);
}

} // verus!
