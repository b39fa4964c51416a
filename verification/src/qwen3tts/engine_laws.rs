//! What an utterance is made of.

use crate::assemble;
use crate::assemble_laws;
use crate::engine::{Capabilities, Cloning, SynthesisRequest};
use crate::grid;
use crate::number;
use crate::order;
use crate::quant;
use crate::qwen3tts::engine;
use crate::qwen3tts::engine::{Prepared, Reference, SegmentStat, Spans};
use crate::voice;
use crate::voice::Voice;
use vstd::prelude::*;

verus! {

/// Every segment is heard as it was decoded: given where each starts in the joint waveform, at 1920
/// samples to a frame, it stands in the utterance behind the segments before it and the gaps
/// between them. Between two of one paragraph, or of two, lie as many silent samples as fit into
/// the time that the request gives, 24000 to a second.
pub proof fn every_segment_is_heard_in_its_place<T>(
    request: SynthesisRequest,
    spans: Spans,
    joined: Seq<T>,
    zero: T,
    from: Seq<int>,
) -> (at: Seq<int>)
    requires
        spans.lens@.len() > 0,
        spans.paras@.len() == spans.lens@.len(),
        forall|k: int| 0 <= k < spans.lens@.len() ==> #[trigger] spans.lens@[k] > 0,
        from.len() == spans.lens@.len() + 1,
        from[0] == 0,
        forall|j: int, k: int|
            0 <= j && k == j + 1 && k < from.len() ==> #[trigger] from[k] == #[trigger] from[j] + 1920
                * spans.lens@[j],
        joined.len() == from.last(),
    ensures
        at.len() == spans.lens@.len(),
        at[0] == 0,
        engine::uttered(request, spans, joined, zero).len() == at.last() + 1920
            * spans.lens@.last(),
        forall|j: int|
            0 <= j < at.len() ==> engine::uttered(request, spans, joined, zero).subrange(
                #[trigger] at[j],
                at[j] + 1920 * spans.lens@[j],
            ) == joined.subrange(from[j], from[j + 1]),
        forall|j: int, k: int|
            0 <= j && k == j + 1 && k < at.len() ==> {
                let gap = #[trigger] at[k] - (#[trigger] at[j] + 1920 * spans.lens@[j]);
                let millis = if spans.paras@[j] == spans.paras@[k] {
                    request.gaps.segment_ms
                } else {
                    request.gaps.paragraph_ms
                };
                &&& 1000 * gap <= 24000 * millis < 1000 * gap + 1000
                &&& forall|i: int|
                    at[k] - gap <= i < at[k] ==> #[trigger] engine::uttered(
                        request,
                        spans,
                        joined,
                        zero,
                    )[i] == zero
            },
{
    let (paras, lens) = (spans.paras@, spans.lens@);
    let n = lens.len() as int;
    let starts = from.take(n);
    assert(starts.last() < joined.len()) by {
        assert(from[n] == from[n - 1] + 1920 * lens[n - 1]);
    }
    assert forall|j: int, k: int| 0 <= j && k == j + 1 && k < starts.len() implies #[trigger] starts[k]
        == #[trigger] starts[j] + 1920nat * lens[j] by {
        assert(from[k] == from[j] + 1920 * lens[j]);
    }
    assemble_laws::every_unit_is_cut_where_it_stands(paras, lens, 1920, joined, starts);
    let views = assemble::cut_pieces(paras, lens, 1920, joined, n);
    let (s, p) = (request.gaps.segment_ms as int, request.gaps.paragraph_ms as int);
    let gap = assemble::gap_of(zero, 24000, s);
    let para_gap = assemble::gap_of(zero, 24000, p);
    assemble_laws::a_gap_is_as_long_as_it_says(zero, 24000, s);
    assemble_laws::a_gap_is_as_long_as_it_says(zero, 24000, p);
    let out = engine::uttered(request, spans, joined, zero);
    assert(out == assemble::stitched(views, gap, para_gap));
    let at = assemble_laws::every_view_is_heard_in_its_place(views, gap, para_gap);
    assert forall|j: int| 0 <= j < n implies (#[trigger] views[j]) == (
        paras[j] as int,
        joined.subrange(from[j], from[j + 1]),
    ) && views[j].1.len() == 1920 * lens[j] by {
        assert(from[j + 1] == from[j] + 1920 * lens[j]);
        lemma_in_range(lens, from, j);
        lemma_in_range(lens, from, j + 1);
        if j + 1 < n {
            assert(starts[j + 1] == from[j + 1]);
        }
    }
    assert(views.last() == views[n - 1]);
    assert forall|j: int| 0 <= j < at.len() implies out.subrange(
        #[trigger] at[j],
        at[j] + 1920 * lens[j],
    ) == joined.subrange(from[j], from[j + 1]) by {
        assert(views[j].1.len() == 1920 * lens[j]);
    }
    assert forall|j: int, k: int| 0 <= j && k == j + 1 && k < at.len() implies {
        let g = #[trigger] at[k] - (#[trigger] at[j] + 1920 * lens[j]);
        let millis = if paras[j] == paras[k] {
            request.gaps.segment_ms
        } else {
            request.gaps.paragraph_ms
        };
        &&& 1000 * g <= 24000 * millis < 1000 * g + 1000
        &&& forall|i: int| at[k] - g <= i < at[k] ==> #[trigger] out[i] == zero
    } by {
        assert(views[j].1.len() == 1920 * lens[j]);
        assert(views[j].0 == paras[j] && views[k].0 == paras[k]);
        let end = at[j] + 1920 * lens[j];
        let between = if paras[j] == paras[k] {
            gap
        } else {
            para_gap
        };
        assert(out.subrange(end, at[k]) == between);
        assert forall|i: int| end <= i < at[k] implies #[trigger] out[i] == zero by {
            assert(out.subrange(end, at[k])[i - end] == between[i - end]);
        }
    }
    at
}

proof fn lemma_in_range(lens: Seq<usize>, from: Seq<int>, j: int)
    requires
        from.len() == lens.len() + 1,
        from[0] == 0,
        0 <= j < from.len(),
        forall|j: int, k: int|
            0 <= j && k == j + 1 && k < from.len() ==> #[trigger] from[k] == #[trigger] from[j] + 1920
                * lens[j],
    ensures
        0 <= from[j] <= from.last(),
{
    lemma_from_start(lens, from, j);
    lemma_to_end(lens, from, j);
}

proof fn lemma_from_start(lens: Seq<usize>, from: Seq<int>, j: int)
    requires
        from.len() == lens.len() + 1,
        from[0] == 0,
        0 <= j < from.len(),
        forall|j: int, k: int|
            0 <= j && k == j + 1 && k < from.len() ==> #[trigger] from[k] == #[trigger] from[j] + 1920
                * lens[j],
    ensures
        0 <= from[j],
    decreases j,
{
    if j > 0 {
        lemma_from_start(lens, from, j - 1);
        assert(from[j] == from[j - 1] + 1920 * lens[j - 1]);
    }
}

proof fn lemma_to_end(lens: Seq<usize>, from: Seq<int>, j: int)
    requires
        from.len() == lens.len() + 1,
        0 <= j < from.len(),
        forall|j: int, k: int|
            0 <= j && k == j + 1 && k < from.len() ==> #[trigger] from[k] == #[trigger] from[j] + 1920
                * lens[j],
    ensures
        from[j] <= from.last(),
    decreases from.len() - j,
{
    if j + 1 < from.len() {
        lemma_to_end(lens, from, j + 1);
        assert(from[j + 1] == from[j] + 1920 * lens[j]);
    }
}

/// The segments that are voiced are those with frames, in reading order.
pub proof fn the_segments_with_frames_are_voiced(results: Seq<Vec<Vec<u32>>>)
    ensures
        forall|k: int, l: int|
            0 <= k < l < engine::voiced(results).len() ==> #[trigger] engine::voiced(results)[k] < #[trigger] engine::voiced(results)[l],
        forall|k: int| 0 <= k < engine::voiced(results).len() ==> 0 <= #[trigger] engine::voiced(results)[k] < results.len(),
        forall|i: int|
            0 <= i < results.len() ==> (#[trigger] engine::voiced(results).contains(i) <==> results[i]@.len() > 0),
    decreases results.len(),
{
    if results.len() > 0 {
        let b = results.drop_last();
        let n = results.len() - 1;
        the_segments_with_frames_are_voiced(b);
        let was = engine::voiced(b);
        let all = engine::voiced(results);
        assert forall|i: int| 0 <= i < results.len() implies (#[trigger] all.contains(i) <==> results[i]@.len() > 0) by {
            if i < n {
                assert(b[i] == results[i]);
                if was.contains(i) {
                    let k = choose|k: int| 0 <= k < was.len() && was[k] == i;
                    assert(all[k] == i);
                }
                if all.contains(i) {
                    let k = choose|k: int| 0 <= k < all.len() && all[k] == i;
                    assert(was[k] == i);
                }
            } else {
                if results[n]@.len() > 0 {
                    assert(all[was.len() as int] == n);
                } else if all.contains(n) {
                    let k = choose|k: int| 0 <= k < all.len() && all[k] == n;
                    assert(was[k] == n);
                }
            }
        }
        assert forall|k: int, l: int| 0 <= k < l < all.len() implies #[trigger] all[k]
            < #[trigger] all[l] by {
            if l < was.len() {
                assert(was[k] < was[l]);
            } else {
                assert(was[k] < n);
            }
        }
        assert forall|k: int| 0 <= k < all.len() implies 0 <= #[trigger] all[k] < results.len() by {
            if k < was.len() {
                assert(0 <= was[k] < n);
            }
        }
    }
}

/// What the engine says of itself: 24 kHz, 25 frames in two seconds, cloning from an asset, and the
/// formats that it loads, the preferred one first.
pub proof fn the_engine_describes_itself(c: Capabilities)
    requires
        engine::described(c),
    ensures
        c.sample_rate == 24000,
        c.frame_rate.frames == 25,
        c.frame_rate.seconds == 2,
        c.cloning == Cloning::PrecomputedAsset,
        !c.streaming,
        c.available,
        c.reason is None,
        quant::listed(c.quantization@) =~= seq![
            "q8_0"@,
            "f16"@,
            "f32"@,
            "q5_0"@,
            "q4_1"@,
            "q4_0"@,
        ],
{
}

/// The files that are reported missing are those that are not there, in order.
#[verifier::rlimit(50)]
pub proof fn the_missing_files_are_reported(paths: Seq<Seq<char>>, present: Seq<bool>) -> (idx: Seq<
    int,
>)
    requires
        paths.len() == present.len(),
    ensures
        idx.len() == engine::absent(paths, present).len(),
        forall|k: int, l: int| 0 <= k < l < idx.len() ==> #[trigger] idx[k] < #[trigger] idx[l],
        forall|k: int|
            0 <= k < idx.len() ==> 0 <= #[trigger] idx[k] < paths.len() && engine::absent(
                paths,
                present,
            )[k] == paths[idx[k]],
        forall|i: int| 0 <= i < paths.len() ==> (#[trigger] idx.contains(i) <==> !present[i]),
    decreases paths.len(),
{
    if paths.len() == 0 {
        Seq::empty()
    } else {
        let (b, f) = (paths.drop_last(), present.drop_last());
        let n = paths.len() - 1;
        let was = the_missing_files_are_reported(b, f);
        let idx = if present[n] {
            was
        } else {
            was.push(n)
        };
        assert forall|i: int| 0 <= i < paths.len() implies (#[trigger] idx.contains(i)
            <==> !present[i]) by {
            if i < n {
                assert(f[i] == present[i]);
                if was.contains(i) {
                    let k = choose|k: int| 0 <= k < was.len() && was[k] == i;
                    assert(idx[k] == i);
                }
                if idx.contains(i) {
                    let k = choose|k: int| 0 <= k < idx.len() && idx[k] == i;
                    assert(was[k] == i);
                }
            } else if !present[n] {
                assert(idx[was.len() as int] == n);
            } else if idx.contains(n) {
                let k = choose|k: int| 0 <= k < idx.len() && idx[k] == n;
                assert(was[k] < n);
            }
        }
        assert forall|k: int| 0 <= k < idx.len() implies 0 <= #[trigger] idx[k] < paths.len()
            && engine::absent(paths, present)[k] == paths[idx[k]] by {
            if k < was.len() {
                assert(0 <= was[k] < b.len());
                assert(b[was[k]] == paths[was[k]]);
            }
        }
        idx
    }
}

/// How many decode together: 24 unless another positive number is written.
pub proof fn a_positive_number_sets_the_lanes(s: Seq<char>)
    ensures
        engine::tuned(None) == 24,
        number::writes_number(s) && number::value(number::unsigned_part(s)) > 0 ==> engine::tuned(
            Some(s),
        ) == number::value(number::unsigned_part(s)),
        !number::writes_number(s) || number::value(number::unsigned_part(s)) == 0 ==> engine::tuned(
            Some(s),
        ) == 24,
{
}

/// A segment may take the frames that are asked for, at least one and at most 4096.
pub proof fn frames_are_asked_for_within_bounds(n: usize)
    ensures
        n == 0 ==> engine::budget_for(n) == 1,
        1 <= n <= 4096 ==> engine::budget_for(n) == n,
        n > 4096 ==> engine::budget_for(n) == 4096,
{
}

proof fn lemma_rows_of(results: Seq<Vec<Vec<u32>>>)
    ensures
        engine::all_frames(results) == grid::flat_rows(
            Seq::new(results.len(), |i: int| grid::rows_view(results[i]@)),
        ),
    decreases results.len(),
{
    let rows = Seq::new(results.len(), |i: int| grid::rows_view(results[i]@));
    if results.len() > 0 {
        let b = results.drop_last();
        lemma_rows_of(b);
        assert(rows.drop_last() =~= Seq::new(b.len(), |i: int| grid::rows_view(b[i]@)));
    }
}

/// The codec takes the frames of all segments end to end, each segment's as it emitted them.
pub proof fn the_frames_of_segments_lie_end_to_end(results: Seq<Vec<Vec<u32>>>) -> (from: Seq<int>)
    ensures
        from.len() == results.len() + 1,
        from[0] == 0,
        from.last() == engine::all_frames(results).len(),
        forall|k: int|
            0 <= k < results.len() ==> #[trigger] grid::lies_between(
                engine::all_frames(results),
                grid::rows_view(results[k]@),
                from[k],
                from[k + 1],
            ),
{
    lemma_rows_of(results);
    let rows = Seq::new(results.len(), |i: int| grid::rows_view(results[i]@));
    let from = grid::rows_lie_end_to_end(rows);
    assert forall|k: int| 0 <= k < results.len() implies #[trigger] grid::lies_between(
        engine::all_frames(results),
        grid::rows_view(results[k]@),
        from[k],
        from[k + 1],
    ) by {
        assert(grid::lies_between(grid::flat_rows(rows), rows[k], from[k], from[k + 1]));
    }
    from
}

/// The distinct codes are those that come first in some frame.
pub proof fn distinct_codes_come_first_in_a_frame(frames: Seq<Vec<u32>>, code: u32)
    ensures
        engine::distinct_firsts(frames).contains(code) <==> exists|i: int|
            0 <= i < frames.len() && (#[trigger] frames[i])@[0] == code,
        engine::distinct_firsts(frames).finite(),
    decreases frames.len(),
{
    if frames.len() > 0 {
        let b = frames.drop_last();
        let n = frames.len() - 1;
        distinct_codes_come_first_in_a_frame(b, code);
        if exists|i: int| 0 <= i < frames.len() && (#[trigger] frames[i])@[0] == code {
            let i = choose|i: int| 0 <= i < frames.len() && (#[trigger] frames[i])@[0] == code;
            if i < n {
                assert(b[i]@[0] == code);
            }
        }
        if engine::distinct_firsts(b).contains(code) {
            let i = choose|i: int| 0 <= i < b.len() && (#[trigger] b[i])@[0] == code;
            assert(frames[i]@[0] == code);
        }
        if frames.last()@[0] == code {
            assert(frames[n]@[0] == code);
        }
    }
}

/// Segments of one shape travel together: the order goes by the first segment of each shape, within
/// a shape by the characters, and keeps equals as they were.
#[verifier::rlimit(50)]
pub proof fn shapes_travel_together(
    p: Seq<Prepared>,
    leaders: Seq<usize>,
    order: Seq<usize>,
    a: int,
    b: int,
)
    requires
        engine::all_led(p, leaders),
        engine::grouped(p, leaders, order),
        0 <= a < b < order.len(),
    ensures
        ({
            let (x, y) = (order[a] as int, order[b] as int);
            let same = p[x].prompt == p[y].prompt && p[x].trailing == p[y].trailing;
            &&& same ==> p[x].chars <= p[y].chars
            &&& same && p[x].chars == p[y].chars ==> x < y
            &&& !same ==> exists|i: int|
                0 <= i < p.len() && (#[trigger] p[i]).prompt == p[x].prompt && p[i].trailing
                    == p[x].trailing && forall|j: int|
                    0 <= j <= i ==> !((#[trigger] p[j]).prompt == p[y].prompt && p[j].trailing
                        == p[y].trailing)
        }),
{
    let (x, y) = (order[a] as int, order[b] as int);
    assert(engine::before(p, leaders, order[a] as int, order[b] as int));
    let (f, g) = (leaders[x] as int, leaders[y] as int);
    assert(engine::leads(p, leaders[x] as int, x));
    assert(engine::leads(p, leaders[y] as int, y));
    if engine::alike(p[x], p[y]) {
        assert(f == g) by {
            if f < g {
                assert(!engine::alike(p[f], p[y]));
            }
            if g < f {
                assert(!engine::alike(p[g], p[x]));
            }
        }
    } else {
        assert(f < g) by {
            if f == g {
                assert(engine::alike(p[f], p[x]) && engine::alike(p[g], p[y]));
            }
        }
        assert forall|j: int| 0 <= j <= f implies !((#[trigger] p[j]).prompt == p[y].prompt
            && p[j].trailing == p[y].trailing) by {
            assert(!engine::alike(p[j], p[y]));
        }
        assert(p[f].prompt == p[x].prompt);
    }
}

/// That a group ends where it does because it is full or the next one has another shape.
pub open spec fn had_to_end(
    leaders: Seq<usize>,
    lanes: nat,
    group: Seq<usize>,
    next: Seq<usize>,
) -> bool {
    group.len() >= lanes || leaders[group[0] as int] != leaders[next[0] as int]
}

/// Groups are as large as can be: one ends only where it is full or the shape changes.
pub proof fn groups_are_as_large_as_can_be(
    order: Seq<usize>,
    leaders: Seq<usize>,
    lanes: nat,
    n: int,
)
    requires
        0 <= n <= order.len(),
        lanes > 0,
    ensures
        ({
            let groups = engine::grouped_up_to(order, leaders, lanes, n);
            &&& forall|g: int| 0 <= g < groups.len() ==> (#[trigger] groups[g]).len() > 0
            &&& forall|g: int|
                0 <= g < groups.len() - 1 ==> #[trigger] had_to_end(
                    leaders,
                    lanes,
                    groups[g],
                    groups[g + 1],
                )
        }),
    decreases n,
{
    if n > 0 {
        groups_are_as_large_as_can_be(order, leaders, lanes, n - 1);
        let done = engine::grouped_up_to(order, leaders, lanes, n - 1);
        let groups = engine::grouped_up_to(order, leaders, lanes, n);
        assert forall|g: int| 0 <= g < groups.len() - 1 implies #[trigger] had_to_end(
            leaders,
            lanes,
            groups[g],
            groups[g + 1],
        ) by {
            assert(done[g].len() > 0);
            if g < done.len() - 1 {
                assert(had_to_end(leaders, lanes, done[g], done[g + 1]));
                assert(done[g + 1].len() > 0);
            }
        }
    }
}

/// A voice refers by its tensors: the codes are the rows of the tensor of that name, the
/// transcript's tokens the first row of theirs, and either is empty where the voice has no such
/// tensor.
pub proof fn a_voice_refers_by_name(v: Voice, r: Reference)
    requires
        engine::refers(v, r),
    ensures
        ({
            let codes = voice::found(v.tensors@, "ref_codes"@);
            let said = voice::found(v.tensors@, "ref_text_tokens"@);
            &&& codes is None ==> r.codes@.len() == 0
            &&& said is None ==> r.text@.len() == 0
            &&& codes matches Some(t) ==> r.codes@.len() == 0 || voice::reads_rows(
                t,
                grid::rows_view(r.codes@),
            )
            &&& codes matches Some(t) ==> voice::gives_rows(t) && voice::on_host(t)
                ==> voice::reads_rows(t, grid::rows_view(r.codes@))
            &&& said matches Some(t) ==> voice::gives_rows(t) && voice::on_host(t)
                && voice::shape(t)[0] > 0 ==> r.text@.len() == voice::shape(t)[1] && forall|k: int|
                0 <= k < r.text@.len() ==> #[trigger] r.text@[k] == voice::integers(t)[k]
        }),
{
    let rows = choose|rows: Seq<Seq<u32>>| #[trigger]
        engine::rows_or_none(v, "ref_text_tokens"@, rows) && r.text@ == engine::first_or_nothing(
            rows,
        );
    if let Some(t) = voice::found(v.tensors@, "ref_text_tokens"@) {
        if voice::gives_rows(t) && voice::on_host(t) && voice::shape(t)[0] > 0 {
            assert forall|k: int| 0 <= k < r.text@.len() implies #[trigger] r.text@[k]
                == voice::integers(t)[k] by {
                voice::tensors_are_read_row_by_row(t, rows, 0, k);
                assert(0 * voice::shape(t)[1] == 0) by (nonlinear_arith);
            }
        }
    }
}

/// One segment is slower than another where it takes fewer frames for each character; a segment
/// without characters counts as having one.
pub proof fn pace_is_frames_per_character(a: SegmentStat, b: SegmentStat)
    ensures
        a.chars > 0 && b.chars > 0 ==> (engine::slower(a, b) <==> a.frames * b.chars < b.frames
            * a.chars),
        a.chars == 0 && b.chars == 0 ==> (engine::slower(a, b) <==> a.frames < b.frames),
{
    assert(a.frames * 1 == a.frames && b.frames * 1 == b.frames);
}

/// A segment of 40 characters or more runs long at more than 1.6 times the median's frames for each
/// character; one of 24 frames or more is degenerate with fewer than 35 distinct codes for every
/// hundred frames.
pub proof fn the_alarms_go_off_at_these_bounds(s: SegmentStat, median: SegmentStat)
    requires
        s.chars > 0,
        median.chars > 0,
    ensures
        engine::runs_long(s, median) <==> s.chars >= 40 && 10 * (s.frames * median.chars) > 16 * (
        median.frames * s.chars),
        engine::degenerate(s) <==> s.frames >= 24 && 100 * s.distinct < 35 * s.frames,
{
}

/// What is left unspoken adds up.
pub proof fn what_is_left_adds_up(left: Seq<usize>, more: usize)
    ensures
        engine::total_left(Seq::empty()) == 0,
        engine::total_left(left.push(more)) == engine::total_left(left) + more,
{
    assert(left.push(more).drop_last() =~= left);
}

/// What is cut follows the segments: those with frames, in reading order, each with its own paragraph
/// and its own frames.
pub proof fn cutting_follows_the_segments(
    s: Spans,
    p: Seq<Prepared>,
    results: Seq<Vec<Vec<u32>>>,
) -> (idx: Seq<int>)
    requires
        engine::spans_of(s, p, results),
    ensures
        idx.len() == s.lens@.len(),
        s.paras@.len() == s.lens@.len(),
        s.stats@.len() == s.lens@.len(),
        forall|k: int, l: int| 0 <= k < l < idx.len() ==> #[trigger] idx[k] < #[trigger] idx[l],
        forall|k: int|
            0 <= k < idx.len() ==> 0 <= #[trigger] idx[k] < results.len() && s.paras@[k]
                == p[idx[k]].para && s.lens@[k] == results[idx[k]]@.len() && s.stats@[k].chars
                == p[idx[k]].chars && s.stats@[k].frames == s.lens@[k],
        forall|i: int|
            0 <= i < results.len() ==> (#[trigger] idx.contains(i) <==> results[i]@.len() > 0),
        grid::rows_view(s.frames@) == engine::all_frames(results),
{
    the_segments_with_frames_are_voiced(results);
    engine::voiced(results)
}

/// The pace of the segments rises along their order, and every segment is in it.
pub proof fn the_order_of_pace_rises(stats: Seq<SegmentStat>, order: Seq<usize>, i: int, j: int)
    requires
        engine::by_pace(stats, order),
        0 <= i < j < order.len(),
        stats[order[i] as int].chars > 0,
        stats[order[j] as int].chars > 0,
    ensures
        order::permutation(order, stats.len()),
        stats[order[i] as int].frames * stats[order[j] as int].chars
            <= stats[order[j] as int].frames * stats[order[i] as int].chars,
{
    assert(!engine::slower(stats[order[j] as int], stats[order[i] as int]));
    pace_is_frames_per_character(stats[order[j] as int], stats[order[i] as int]);
}

/// A group has overrun where a lane took as many frames as it was allowed.
pub proof fn a_group_overruns_at_the_cap(frames: Seq<Vec<Vec<u32>>>, cap: int)
    ensures
        !engine::capped(frames, cap) <==> forall|i: int|
            0 <= i < frames.len() ==> (#[trigger] frames[i])@.len() < cap,
{
}

} // verus!
