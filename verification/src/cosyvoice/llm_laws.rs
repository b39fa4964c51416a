//! What holds of batched speech-token decoding as a whole.

use crate::cosyvoice::cfg::llm as k;
use crate::cosyvoice::llm;
use crate::cosyvoice::llm::{Batch, BatchView, Lane, LaneView, Row, Segment};
use crate::order;
use vstd::prelude::*;

verus! {

/// A batch after the first `n` steps, `ds[s]` being the tokens that step `s` drew.
pub open spec fn rounds(b: BatchView, ds: Seq<Seq<u32>>, n: nat) -> BatchView
    decreases n,
{
    if n == 0 {
        b
    } else {
        llm::heard(rounds(b, ds, (n - 1) as nat), ds[n - 1])
    }
}

/// Lane `i` after the first `n` steps on its own.
pub open spec fn alone(l: LaneView, ds: Seq<Seq<u32>>, i: int, n: nat) -> LaneView
    decreases n,
{
    if n == 0 {
        l
    } else {
        llm::lane_heard(alone(l, ds, i, (n - 1) as nat), ds[n - 1][i], (n - 1) as nat)
    }
}

/// The tokens that lane `i` keeps out of `n` steps: those before its first control token.
pub open spec fn kept_of(ds: Seq<Seq<u32>>, i: int, n: nat) -> nat
    decreases n,
{
    if n == 0 {
        0
    } else {
        let before = kept_of(ds, i, (n - 1) as nat);
        if before == n - 1 && ds[n - 1][i] < k::SPEECH_TOKENS {
            n
        } else {
            before
        }
    }
}

/// The tokens drawn for lane `i` in the first `n` steps.
pub open spec fn tokens_of(ds: Seq<Seq<u32>>, i: int, n: nat) -> Seq<u32> {
    Seq::new(n, |s: int| ds[s][i])
}

/// The smaller of two numbers.
pub open spec fn least(a: nat, b: nat) -> nat {
    if a <= b {
        a
    } else {
        b
    }
}

/// The lanes past the live ones are done.
pub open spec fn tail_done(b: BatchView) -> bool {
    &&& b.live <= b.lanes.len()
    &&& forall|i: int| b.live <= i < b.lanes.len() ==> (#[trigger] b.lanes[i]).done
}

/// Decoding together is decoding apart: given the same draws, a lane of a batch ends up in the
/// state that it would reach alone.
pub proof fn lanes_are_independent(b: BatchView, ds: Seq<Seq<u32>>, n: nat, i: int)
    requires
        tail_done(b),
        b.step == 0,
        0 <= i < b.lanes.len(),
    ensures
        tail_done(rounds(b, ds, n)),
        rounds(b, ds, n).step == n,
        rounds(b, ds, n).order == b.order,
        rounds(b, ds, n).lanes.len() == b.lanes.len(),
        rounds(b, ds, n).lanes[i] == alone(b.lanes[i], ds, i, n),
    decreases n,
{
    if n > 0 {
        lanes_are_independent(b, ds, (n - 1) as nat, i);
        let p = rounds(b, ds, (n - 1) as nat);
        let f = rounds(b, ds, n);
        llm::lemma_live_after(f.lanes, p.live);
        assert forall|j: int| f.live <= j < f.lanes.len() implies (#[trigger] f.lanes[j]).done by {
            assert(j >= p.live ==> p.lanes[j].done);
        }
        assert(i >= p.live ==> p.lanes[i].done);
    }
}

/// A sequence is the tokens drawn before its first control token, cut at its bound; the token
/// drawn in the last step within the bound still counts.
pub proof fn tokens_end_at_the_marker_or_the_bound(
    l: LaneView,
    ds: Seq<Seq<u32>>,
    i: int,
    n: nat,
)
    requires
        l.out == Seq::<u32>::empty(),
        !l.done,
        l.max_len >= 1,
    ensures
        kept_of(ds, i, n) <= n,
        alone(l, ds, i, n).out == tokens_of(ds, i, least(kept_of(ds, i, n), l.max_len)),
        alone(l, ds, i, n).done <==> kept_of(ds, i, n) < n || n >= l.max_len,
        alone(l, ds, i, n).max_len == l.max_len,
        forall|s: int|
            0 <= s < kept_of(ds, i, n) ==> (#[trigger] ds[s])[i] < k::SPEECH_TOKENS,
        kept_of(ds, i, n) < n ==> ds[kept_of(ds, i, n) as int][i] >= k::SPEECH_TOKENS,
    decreases n,
{
    if n == 0 {
        assert(tokens_of(ds, i, 0) =~= Seq::<u32>::empty());
    } else {
        tokens_end_at_the_marker_or_the_bound(l, ds, i, (n - 1) as nat);
        let m = least(kept_of(ds, i, n), l.max_len);
        if m > 0 {
            assert(tokens_of(ds, i, m) =~= tokens_of(ds, i, (m - 1) as nat).push(ds[m - 1][i]));
        }
    }
}

/// Every token kept is a speech token, never a control token, and never more are kept than the
/// bound allows.
pub proof fn outputs_are_bounded_speech(l: LaneView, ds: Seq<Seq<u32>>, i: int, n: nat)
    requires
        l.out == Seq::<u32>::empty(),
        !l.done,
        l.max_len >= 1,
    ensures
        alone(l, ds, i, n).out.len() <= l.max_len,
        forall|s: int|
            0 <= s < alone(l, ds, i, n).out.len() ==> (#[trigger] alone(l, ds, i, n).out[s])
                < k::SPEECH_TOKENS,
{
    tokens_end_at_the_marker_or_the_bound(l, ds, i, n);
    assert forall|s: int| 0 <= s < alone(l, ds, i, n).out.len() implies (
    #[trigger] alone(l, ds, i, n).out[s]) < k::SPEECH_TOKENS by {
        assert(ds[s][i] < k::SPEECH_TOKENS);
    }
}

/// What comes out for a segment is what was drawn for its lane, wherever in the batch it stood.
pub proof fn results_follow_the_segments(
    b: BatchView,
    segments: Seq<Segment>,
    ds: Seq<Seq<u32>>,
    n: nat,
    p: int,
) -> (lane: int)
    requires
        llm::starts(b, segments),
        0 <= p < segments.len() <= usize::MAX,
        segments[p].text_len >= 1,
        b.width < k::CAPACITY - 1,
    ensures
        0 <= lane < b.lanes.len(),
        b.order[lane] == p,
        forall|j: int| 0 <= j < b.lanes.len() && j != lane ==> b.order[j] != p,
        rounds(b, ds, n).order == b.order,
        rounds(b, ds, n).lanes[lane].out == tokens_of(
            ds,
            lane,
            least(
                kept_of(ds, lane, n),
                llm::step_bound(segments[p].text_len as int, b.width as int) as nat,
            ),
        ),
{
    assert(b.order.contains(order::keys_index(p)));
    let lane = choose|j: int| 0 <= j < b.order.len() && b.order[j] == order::keys_index(p);
    order::lemma_ordered_distinct(llm::text_lens(segments), true, b.order);
    assert forall|j: int| 0 <= j < b.lanes.len() && j != lane implies b.order[j] != p by {
        if j < lane {
            assert(b.order[j] != b.order[lane]);
        } else {
            assert(b.order[lane] != b.order[j]);
        }
    }
    lanes_are_independent(b, ds, n, lane);
    assert(b.lanes[lane] == llm::lane_start(segments[p], b.width));
    tokens_end_at_the_marker_or_the_bound(b.lanes[lane], ds, lane, n);
    lane
}

/// Where the markers of a prompt stand, and that text and speech are looked up in their own
/// tables.
pub proof fn prompts_keep_the_tables_apart(text: Seq<u32>, speech: Seq<u32>, i: int)
    requires
        0 <= i < llm::layout(text, speech).len(),
    ensures
        llm::layout(text, speech).len() == text.len() + speech.len() + 2,
        llm::layout(text, speech)[i] is Text <==> 1 <= i <= text.len(),
        llm::layout(text, speech)[0] == Row::Speech(k::SOS as u32),
        llm::layout(text, speech)[text.len() as int + 1] == Row::Speech(k::TASK_ID as u32),
        1 <= i <= text.len() ==> llm::layout(text, speech)[i] == Row::Text(text[i - 1]),
        i > text.len() + 1 ==> llm::layout(text, speech)[i] == Row::Speech(
            speech[i - text.len() - 2],
        ),
{
}

/// A prompt is the start marker, the text, the task marker and the speech so far: the markers are
/// the rows 6561 and 6563 of the speech table, right behind the 6561 speech tokens.
pub proof fn a_prompt_marks_its_parts(text: Seq<u32>, speech: Seq<u32>, i: int)
    ensures
        ({
            let p = llm::layout(text, speech);
            let n = text.len();
            &&& p.len() == n + speech.len() + 2
            &&& p[0] == Row::Speech(6561)
            &&& 0 <= i < n ==> p[1 + i] == Row::Text(text[i])
            &&& p[n as int + 1] == Row::Speech(6563)
            &&& 0 <= i < speech.len() ==> p[n + 2 + i] == Row::Speech(speech[i])
        }),
{
}

/// A token repeats where it is one of the last ten.
pub proof fn only_the_last_ten_count_as_repeats(decoded: Seq<u32>, token: u32)
    ensures
        decoded.len() <= 10 ==> (llm::repeats(decoded, token) <==> decoded.contains(token)),
        decoded.len() > 10 ==> (llm::repeats(decoded, token) <==> decoded.subrange(
            decoded.len() - 10,
            decoded.len() as int,
        ).contains(token)),
{
    if llm::repeats(decoded, token) {
        let i = choose|i: int|
            0 <= i < decoded.len() && decoded.len() - 10 <= i && #[trigger] decoded[i] == token;
        if decoded.len() > 10 {
            let tail = decoded.subrange(decoded.len() - 10, decoded.len() as int);
            assert(tail[i - (decoded.len() - 10)] == token);
        }
    }
    if decoded.len() <= 10 && decoded.contains(token) {
        let i = choose|i: int| 0 <= i < decoded.len() && decoded[i] == token;
        assert(decoded[i] == token);
    }
    if decoded.len() > 10 {
        let tail = decoded.subrange(decoded.len() - 10, decoded.len() as int);
        if tail.contains(token) {
            let j = choose|j: int| 0 <= j < tail.len() && tail[j] == token;
            assert(decoded[decoded.len() - 10 + j] == token);
        }
    }
}

/// A running lane takes up a speech token, one below 6561, and ends at any other or once it has
/// taken its bound; what it is fed next is the token it took, and zero once it has ended.
pub proof fn a_lane_takes_speech(l: LaneView, token: u32, step: nat)
    ensures
        ({
            let m = llm::lane_heard(l, token, step);
            &&& l.done ==> m == l && llm::lane_feed(l, token) == 0
            &&& !l.done && token < 6561 ==> m.out == l.out.push(token) && m.done == (step + 1
                >= l.max_len) && llm::lane_feed(l, token) == token
            &&& !l.done && token >= 6561 ==> m.out == l.out && m.done && llm::lane_feed(l, token)
                == 0
            &&& m.min_len == l.min_len && m.max_len == l.max_len && m.pad == l.pad
        }),
{
}

/// A segment speaks at least two and at most twenty tokens for each token of its text, and no more
/// than fit behind its prompt among 4096 positions. Its prompt stands at the end of the batch's
/// width.
pub proof fn the_text_bounds_the_speech(s: Segment, width: nat)
    requires
        llm::prompt_len(s) <= width < 4096,
    ensures
        ({
            let l = llm::lane_start(s, width);
            &&& l.out.len() == 0 && !l.done
            &&& l.min_len == 2 * s.text_len
            &&& width + 20 * s.text_len <= 4095 ==> l.max_len == 20 * s.text_len
            &&& width + 20 * s.text_len > 4095 ==> width + l.max_len == 4095
            &&& l.pad + s.text@.len() + s.speech@.len() + 2 == width
        }),
{
}

/// A batch is as wide as its widest prompt.
pub proof fn the_widest_prompt_sets_the_width(segments: Seq<Segment>)
    ensures
        forall|i: int|
            0 <= i < segments.len() ==> (#[trigger] segments[i]).text@.len()
                + segments[i].speech@.len() + 2 <= llm::widest(segments),
        segments.len() > 0 ==> exists|i: int|
            0 <= i < segments.len() && (#[trigger] segments[i]).text@.len()
                + segments[i].speech@.len() + 2 == llm::widest(segments),
    decreases segments.len(),
{
    if segments.len() > 0 {
        let b = segments.drop_last();
        let n = segments.len() - 1;
        the_widest_prompt_sets_the_width(b);
        assert forall|i: int| 0 <= i < segments.len() implies (#[trigger] segments[i]).text@.len()
            + segments[i].speech@.len() + 2 <= llm::widest(segments) by {
            if i < n {
                assert(b[i] == segments[i]);
            }
        }
        if llm::prompt_len(segments[n]) > llm::widest(b) {
            assert(segments[n].text@.len() + segments[n].speech@.len() + 2 == llm::widest(
                segments,
            ));
        } else {
            let i = choose|i: int|
                0 <= i < b.len() && (#[trigger] b[i]).text@.len() + b[i].speech@.len() + 2
                    == llm::widest(b);
            assert(segments[i] == b[i]);
        }
    }
}

/// A batch runs until its longest lane has taken its bound.
pub proof fn the_longest_lane_sets_the_last_step(lanes: Seq<LaneView>)
    ensures
        forall|i: int|
            0 <= i < lanes.len() ==> (#[trigger] lanes[i]).max_len <= llm::last_step(lanes),
        lanes.len() == 0 ==> llm::last_step(lanes) == 0,
        lanes.len() > 0 ==> exists|i: int|
            0 <= i < lanes.len() && (#[trigger] lanes[i]).max_len == llm::last_step(lanes),
    decreases lanes.len(),
{
    if lanes.len() > 0 {
        let b = lanes.drop_last();
        let n = lanes.len() - 1;
        the_longest_lane_sets_the_last_step(b);
        assert forall|i: int| 0 <= i < lanes.len() implies (#[trigger] lanes[i]).max_len
            <= llm::last_step(lanes) by {
            llm::lemma_last_step(lanes, i);
        }
        if lanes[n].max_len > llm::last_step(b) || n == 0 {
            assert(lanes[n].max_len == llm::last_step(lanes));
        } else {
            let i = choose|i: int|
                0 <= i < b.len() && (#[trigger] b[i]).max_len == llm::last_step(b);
            assert(lanes[i] == b[i]);
        }
    }
}

/// Lanes are shed from the end while they are done.
pub proof fn finished_lanes_are_shed_from_the_end(lanes: Seq<LaneView>, live: nat)
    requires
        live <= lanes.len(),
    ensures
        llm::live_after(lanes, live) <= live,
        forall|i: int| llm::live_after(lanes, live) <= i < live ==> (#[trigger] lanes[i]).done,
        llm::live_after(lanes, live) > 0 ==> !lanes[llm::live_after(lanes, live) - 1].done,
    decreases live,
{
    llm::lemma_live_after(lanes, live);
    if live > 0 && lanes[live - 1].done {
        finished_lanes_are_shed_from_the_end(lanes, (live - 1) as nat);
    }
}

/// A lane shows its tokens, bounds and filler as they are.
pub proof fn a_lane_shows_what_it_holds(l: Lane)
    ensures
        l@.out == l.out@,
        l@.done == l.done,
        l@.min_len == l.min_len,
        l@.max_len == l.max_len,
        l@.pad == l.pad,
{
}

/// A batch shows its order, its prompts, its lanes and its counts as they are.
pub proof fn a_batch_shows_what_it_holds(b: Batch, segments: Seq<Segment>, i: int)
    ensures
        b@.order == b.order@,
        b@.width == b.width && b@.live == b.live && b@.step == b.step,
        b@.lanes.len() == b.lanes@.len(),
        0 <= i < b.lanes@.len() ==> b@.lanes[i] == b.lanes@[i]@,
        b@.prompts.len() == b.prompts@.len(),
        0 <= i < b.prompts@.len() ==> b@.prompts[i] == b.prompts@[i]@,
        llm::text_lens(segments).len() == segments.len(),
        0 <= i < segments.len() ==> llm::text_lens(segments)[i] == segments[i].text_len,
{
}

/// A batch starts with every segment on its own lane, behind its own prompt, longer texts first and
/// equals as they came.
pub proof fn a_batch_starts_with_the_longest(b: BatchView, segments: Seq<Segment>, i: int, j: int)
    requires
        llm::starts(b, segments),
        0 <= i < j < segments.len(),
    ensures
        segments[b.order[i] as int].text_len >= segments[b.order[j] as int].text_len,
        segments[b.order[i] as int].text_len == segments[b.order[j] as int].text_len ==> b.order[i]
            < b.order[j],
        b.prompts[j] == llm::layout(
            segments[b.order[j] as int].text@,
            segments[b.order[j] as int].speech@,
        ),
        b.lanes[j].out.len() == 0 && !b.lanes[j].done,
        b.lanes[j].min_len == 2 * segments[b.order[j] as int].text_len,
        b.live == segments.len(),
        b.step == 0,
{
    order::an_order_goes_by_the_keys(llm::text_lens(segments), true, b.order, i, j);
    assert(b.lanes[j] == llm::lane_start(segments[b.order[j] as int], b.width));
}

/// A prompt is marked where its text has the end-of-prompt token, 151646.
pub proof fn prompts_are_marked_by_their_token(segments: Seq<Segment>)
    ensures
        llm::all_marked(segments) <==> forall|i: int|
            0 <= i < segments.len() ==> (#[trigger] segments[i]).text@.contains(151646),
{
}

} // verus!
