//! What holds of batched decoding as a whole.

use crate::audio8::ar;
use crate::audio8::ar::{Batch, BatchView, Lane, LaneView};
use crate::audio8::cfg;
use crate::audio8::prompt::Prompt;
use crate::grid;
use crate::order;
use vstd::prelude::*;

verus! {

/// What one step draws: a token and a frame of codes for each lane.
pub struct Draws {
    pub tokens: Seq<u32>,
    pub codes: Seq<Seq<u32>>,
}

/// A batch after a step: the tokens are heard, then every lane is fed.
pub open spec fn round(b: BatchView, d: Draws) -> BatchView {
    ar::fed(ar::heard(b, d.tokens), d.tokens, d.codes)
}

/// A batch after the first `n` steps.
pub open spec fn rounds(b: BatchView, ds: Seq<Draws>, n: nat) -> BatchView
    decreases n,
{
    if n == 0 {
        b
    } else {
        round(rounds(b, ds, (n - 1) as nat), ds[n - 1])
    }
}

/// A lane after a step on its own.
pub open spec fn lane_round(l: LaneView, token: u32, codes: Seq<u32>) -> LaneView {
    ar::lane_fed(ar::lane_heard(l, token), token, codes)
}

/// Lane `i` after the first `n` steps on its own.
pub open spec fn alone(l: LaneView, ds: Seq<Draws>, i: int, n: nat) -> LaneView
    decreases n,
{
    if n == 0 {
        l
    } else {
        lane_round(alone(l, ds, i, (n - 1) as nat), ds[n - 1].tokens[i], ds[n - 1].codes[i])
    }
}

/// The steps that lane `i` takes out of `n`: those before its first end marker.
pub open spec fn steps_of(ds: Seq<Draws>, i: int, n: nat) -> nat
    decreases n,
{
    if n == 0 {
        0
    } else {
        let before = steps_of(ds, i, (n - 1) as nat);
        if before == n - 1 && ds[n - 1].tokens[i] != cfg::EOS_TOKEN_ID {
            n
        } else {
            before
        }
    }
}

/// The frames drawn for lane `i` in the first `n` steps.
pub open spec fn frames_of(ds: Seq<Draws>, i: int, n: nat) -> Seq<Seq<u32>> {
    Seq::new(n, |k: int| ds[k].codes[i])
}

/// The lanes past the live ones are done.
pub open spec fn tail_done(b: BatchView) -> bool {
    &&& 1 <= b.live <= b.lanes.len()
    &&& forall|i: int| b.live <= i < b.lanes.len() ==> (#[trigger] b.lanes[i]).done
}

/// Decoding together is decoding apart: given the same draws, a lane of a batch ends up with the
/// frames, the window and the finished state that it would have alone.
pub proof fn lanes_are_independent(b: BatchView, ds: Seq<Draws>, n: nat, i: int)
    requires
        tail_done(b),
        0 <= i < b.lanes.len(),
        n <= ds.len(),
    ensures
        tail_done(rounds(b, ds, n)),
        rounds(b, ds, n).lanes.len() == b.lanes.len(),
        rounds(b, ds, n).lanes[i].frames == alone(b.lanes[i], ds, i, n).frames,
        rounds(b, ds, n).lanes[i].previous == alone(b.lanes[i], ds, i, n).previous,
        rounds(b, ds, n).lanes[i].done == alone(b.lanes[i], ds, i, n).done,
    decreases n,
{
    if n > 0 {
        let m = (n - 1) as nat;
        lanes_are_independent(b, ds, m, i);
        let p = rounds(b, ds, m);
        let h = ar::heard(p, ds[n - 1].tokens);
        let f = rounds(b, ds, n);
        ar::lemma_live_after(f.lanes, h.live);
        assert forall|k: int| f.live <= k < f.lanes.len() implies (#[trigger] f.lanes[k]).done by {
            assert(k >= p.live ==> p.lanes[k].done);
        }
        assert(i >= p.live ==> p.lanes[i].done);
    }
}

/// A sequence's frames are those drawn before its first end marker, and it is done once one was
/// drawn.
pub proof fn frames_end_at_the_marker(l: LaneView, ds: Seq<Draws>, i: int, n: nat)
    requires
        l.frames == Seq::<Seq<u32>>::empty(),
        !l.done,
    ensures
        steps_of(ds, i, n) <= n,
        alone(l, ds, i, n).frames == frames_of(ds, i, steps_of(ds, i, n)),
        alone(l, ds, i, n).done <==> steps_of(ds, i, n) < n,
        forall|k: int|
            0 <= k < steps_of(ds, i, n) ==> (#[trigger] ds[k]).tokens[i] != cfg::EOS_TOKEN_ID,
        steps_of(ds, i, n) < n ==> ds[steps_of(ds, i, n) as int].tokens[i] == cfg::EOS_TOKEN_ID,
    decreases n,
{
    if n == 0 {
        assert(frames_of(ds, i, 0) =~= Seq::<Seq<u32>>::empty());
    } else {
        frames_end_at_the_marker(l, ds, i, (n - 1) as nat);
        if steps_of(ds, i, n) == n {
            assert(frames_of(ds, i, n) =~= frames_of(ds, i, (n - 1) as nat).push(
                ds[n - 1].codes[i],
            ));
        }
    }
}

/// The window holds the last tokens a sequence emitted, the first one excepted, with zeros in
/// front while there are fewer.
pub open spec fn window_of(ds: Seq<Draws>, i: int, n: nat) -> Seq<u32>
    decreases n,
{
    if n <= 1 {
        ar::filler(0, cfg::RAS_WINDOW_SIZE as nat)
    } else {
        window_of(ds, i, (n - 1) as nat).drop_first().push(ds[n - 1].tokens[i])
    }
}

/// The entry `k` of the window after `n` emissions: the token emitted at that distance from the
/// end, or zero where that would be the first one or none.
pub proof fn window_entries(ds: Seq<Draws>, i: int, n: nat, k: int)
    requires
        1 <= n,
        0 <= k < cfg::RAS_WINDOW_SIZE,
    ensures
        window_of(ds, i, n).len() == cfg::RAS_WINDOW_SIZE,
        window_of(ds, i, n)[k] == ({
            let at = n - cfg::RAS_WINDOW_SIZE + k;
            if at >= 1 {
                ds[at].tokens[i]
            } else {
                0
            }
        }),
    decreases n,
{
    if n > 1 {
        window_entries(ds, i, (n - 1) as nat, 0);
        if k + 1 < cfg::RAS_WINDOW_SIZE {
            window_entries(ds, i, (n - 1) as nat, k + 1);
        }
    }
}

/// A running sequence's window is the one its own tokens make.
pub proof fn windows_record_the_sequence(l: LaneView, ds: Seq<Draws>, i: int, n: nat)
    requires
        l.frames == Seq::<Seq<u32>>::empty(),
        l.previous is None,
        !l.done,
    ensures
        steps_of(ds, i, n) == 0 ==> alone(l, ds, i, n).previous is None,
        steps_of(ds, i, n) > 0 ==> alone(l, ds, i, n).previous == Some(
            window_of(ds, i, steps_of(ds, i, n)),
        ),
    decreases n,
{
    if n > 0 {
        windows_record_the_sequence(l, ds, i, (n - 1) as nat);
        frames_end_at_the_marker(l, ds, i, (n - 1) as nat);
    }
}

/// What comes out for a prompt is what was drawn for its lane up to the end marker, one row for
/// each codebook, wherever in the batch the lane stood.
pub proof fn results_follow_the_prompts(
    b: BatchView,
    prompts: Seq<Prompt>,
    max_new_tokens: nat,
    ds: Seq<Draws>,
    n: nat,
    p: int,
) -> (lane: int)
    requires
        ar::starts(b, prompts, max_new_tokens),
        0 <= p < prompts.len() <= usize::MAX,
        n <= ds.len(),
    ensures
        0 <= lane < b.lanes.len(),
        b.order[lane] == p,
        forall|k: int| 0 <= k < b.lanes.len() && k != lane ==> b.order[k] != p,
        rounds(b, ds, n).order == b.order,
        rounds(b, ds, n).lanes[lane].frames == frames_of(ds, lane, steps_of(ds, lane, n)),
{
    assert(b.order.contains(order::keys_index(p)));
    let lane = choose|k: int| 0 <= k < b.order.len() && b.order[k] == order::keys_index(p);
    order::lemma_ordered_distinct(ar::lengths(prompts), true, b.order);
    assert forall|k: int| 0 <= k < b.lanes.len() && k != lane implies b.order[k] != p by {
        if k < lane {
            assert(b.order[k] != b.order[lane]);
        } else {
            assert(b.order[lane] != b.order[k]);
        }
    }
    lanes_are_independent(b, ds, n, lane);
    frames_end_at_the_marker(b.lanes[lane], ds, lane, n);
    lemma_order_stays(b, ds, n);
    lane
}

proof fn lemma_order_stays(b: BatchView, ds: Seq<Draws>, n: nat)
    ensures
        rounds(b, ds, n).order == b.order,
    decreases n,
{
    if n > 0 {
        lemma_order_stays(b, ds, (n - 1) as nat);
    }
}

/// Every prompt ends at the same column: the last token of each lies at the end of the aligned
/// width, with only filler in front of the prompt.
pub proof fn prompts_are_right_aligned(rows: Seq<Seq<u32>>, len: nat, width: nat, r: int, c: int)
    requires
        grid::rectangular(rows, len),
        len <= width,
        0 <= r < rows.len(),
        0 <= c < width,
    ensures
        ar::lane_start(rows, len, width).rows[r].len() == width,
        ar::lane_start(rows, len, width).rows[r][c] == if c < width - len {
            ar::inert(r)
        } else {
            rows[r][c - (width - len)]
        },
        !cfg::semantic(ar::PAD_ID),
{
    assert(rows[r].len() == len);
}

/// Every row of the reachable slice stands for one token, and different rows for different ones.
pub proof fn reachable_rows_are_distinct(a: int, b: int)
    requires
        0 <= a < b < cfg::REACHABLE,
    ensures
        ar::token_of(a) != ar::token_of(b),
        cfg::semantic(ar::token_of(a) as u32),
        ar::first_code(ar::token_of(a) as u32) == a,
{
}

/// A lane is done at the end marker, the token 151645, and stays so; hearing a token changes
/// nothing else.
pub proof fn the_end_marker_ends_a_lane(l: LaneView, token: u32)
    ensures
        ar::lane_heard(l, token).done <==> l.done || token == 151645,
        ar::lane_heard(l, token).rows == l.rows,
        ar::lane_heard(l, token).frames == l.frames,
        ar::lane_heard(l, token).pad == l.pad,
        ar::lane_heard(l, token).previous == l.previous,
{
}

/// A step adds one column to a lane: the token and below it its codes while the lane runs, and
/// zeros once it is done. Only a running lane gets a frame.
pub proof fn a_step_adds_one_column(l: LaneView, token: u32, codes: Seq<u32>, r: int, c: int)
    requires
        0 <= r < l.rows.len(),
    ensures
        ({
            let m = ar::lane_fed(l, token, codes);
            let n = l.rows[r].len();
            &&& m.rows.len() == l.rows.len()
            &&& m.rows[r].len() == n + 1
            &&& 0 <= c < n ==> m.rows[r][c] == l.rows[r][c]
            &&& l.done ==> m.rows[r][n as int] == 0 && m.frames == l.frames && m.previous
                == l.previous
            &&& !l.done && r == 0 ==> m.rows[r][n as int] == token
            &&& !l.done && r > 0 ==> m.rows[r][n as int] == codes[r - 1]
            &&& !l.done ==> m.frames.len() == l.frames.len() + 1 && m.frames.last() == codes
                && m.frames.drop_last() =~= l.frames
            &&& m.done == l.done && m.pad == l.pad
        }),
{
}

/// The window holds ten tokens: ten zeros at the first step, and then at each step the oldest goes
/// and the new one comes last.
pub proof fn the_window_slides(previous: Option<Seq<u32>>, token: u32, k: int)
    requires
        previous matches Some(w) ==> w.len() == 10,
        0 <= k < 10,
    ensures
        ar::window_after(previous, token).len() == 10,
        previous is None ==> ar::window_after(previous, token)[k] == 0,
        previous matches Some(w) ==> ar::window_after(previous, token)[k] == if k < 9 {
            w[k + 1]
        } else {
            token
        },
{
}

/// A batch takes as many steps as are asked for and as the 2048 positions leave room for.
pub proof fn steps_stay_within_the_context(max_new_tokens: nat, width: nat)
    ensures
        width >= 2048 ==> ar::step_budget(max_new_tokens, width) == 0,
        width + max_new_tokens <= 2048 ==> ar::step_budget(max_new_tokens, width) == max_new_tokens,
        width < 2048 && width + max_new_tokens > 2048 ==> ar::step_budget(max_new_tokens, width)
            + width == 2048,
{
}

/// Lanes are dropped from the end while they are done, and one always stays.
pub proof fn finished_lanes_are_dropped_from_the_end(lanes: Seq<LaneView>, live: nat)
    requires
        1 <= live <= lanes.len(),
    ensures
        1 <= ar::live_after(lanes, live) <= live,
        forall|i: int| ar::live_after(lanes, live) <= i < live ==> (#[trigger] lanes[i]).done,
        ar::live_after(lanes, live) > 1 ==> !lanes[ar::live_after(lanes, live) - 1].done,
    decreases live,
{
    ar::lemma_live_after(lanes, live);
    if live > 1 && lanes[live - 1].done {
        finished_lanes_are_dropped_from_the_end(lanes, (live - 1) as nat);
    }
}

/// The rows of the output layer that can be reached are the 4096 codes of the first codebook, as
/// the ids from 151678 on, and behind them the end marker.
pub proof fn rows_stand_for_codes_and_the_end(index: int)
    requires
        0 <= index <= 4096,
    ensures
        index < 4096 ==> ar::token_of(index) == 151678 + index,
        index == 4096 ==> ar::token_of(index) == 151645,
        index < 4096 ==> ar::first_code((151678 + index) as u32) == index,
        cfg::semantic(ar::token_of(index) as u32) <==> index < 4096,
{
}

/// A token that stands in the window already is drawn again, at a higher temperature where there
/// is such a draw. The end marker and new tokens stay as they are.
pub proof fn repetitions_are_drawn_again(normal: int, high: int, window: Seq<u32>)
    requires
        0 <= normal <= 4096,
        0 <= high <= 4096,
    ensures
        ar::semantic_choice(normal, Some(high), None) == ar::token_of(normal),
        ar::semantic_choice(normal, None, Some(window)) == ar::token_of(normal),
        normal == 4096 ==> ar::semantic_choice(normal, Some(high), Some(window)) == 151645,
        normal < 4096 && !window.contains((151678 + normal) as u32) ==> ar::semantic_choice(
            normal,
            Some(high),
            Some(window),
        ) == 151678 + normal,
        normal < 4096 && window.contains((151678 + normal) as u32) ==> ar::semantic_choice(
            normal,
            Some(high),
            Some(window),
        ) == ar::token_of(high),
{
}

proof fn lemma_token_ids(seqs: Seq<Seq<Seq<u32>>>, start: int, len: int, s: int, k: int)
    requires
        ar::embeddable(seqs, start, len),
        0 <= start,
        0 <= s < seqs.len(),
        0 <= k < len,
    ensures
        ar::token_ids(seqs, start, len).len() == seqs.len() * len,
        s * len + k < seqs.len() * len,
        ar::token_ids(seqs, start, len)[s * len + k] == seqs[s][0][start + k],
    decreases seqs.len(),
{
    let b = seqs.drop_last();
    let n = seqs.len() - 1;
    assert(n * len + len == (n + 1) * len) by (nonlinear_arith);
    assert(seqs[n][0].len() >= start + len);
    assert forall|i: int|
        #![trigger b[i]]
        0 <= i < b.len() implies b[i] == seqs[i] by {}
    assert(ar::embeddable(b, start, len));
    assert(ar::token_ids(b, start, len).len() == n * len) by {
        if n > 0 {
            lemma_token_ids(b, start, len, 0, k);
        } else {
            assert(0 * len == 0) by (nonlinear_arith);
        }
    }
    if s < n {
        lemma_token_ids(b, start, len, s, k);
    }
}

proof fn lemma_book_ids(seqs: Seq<Seq<Seq<u32>>>, start: int, len: int, book: int, s: int, k: int)
    requires
        ar::embeddable(seqs, start, len),
        0 <= start,
        0 <= book < 10,
        0 <= s < seqs.len(),
        0 <= k < len,
    ensures
        ar::book_ids(seqs, start, len, book).len() == seqs.len() * len,
        s * len + k < seqs.len() * len,
        ar::book_ids(seqs, start, len, book)[s * len + k] == seqs[s][book + 1][start + k] + book
            * 4096,
    decreases seqs.len(),
{
    let b = seqs.drop_last();
    let n = seqs.len() - 1;
    assert(n * len + len == (n + 1) * len) by (nonlinear_arith);
    assert(seqs[n][book + 1].len() >= start + len);
    assert forall|i: int|
        #![trigger b[i]]
        0 <= i < b.len() implies b[i] == seqs[i] by {}
    assert(ar::embeddable(b, start, len));
    assert(ar::book_ids(b, start, len, book).len() == n * len) by {
        if n > 0 {
            lemma_book_ids(b, start, len, book, 0, k);
        } else {
            assert(0 * len == 0) by (nonlinear_arith);
        }
    }
    if s < n {
        lemma_book_ids(b, start, len, book, s, k);
    } else {
        assert(seqs[n][book + 1][start + k] + book * 4096 <= u32::MAX);
    }
}

#[verifier::rlimit(50)]
proof fn lemma_all_book_ids(
    seqs: Seq<Seq<Seq<u32>>>,
    start: int,
    len: int,
    books: int,
    book: int,
    s: int,
    k: int,
)
    requires
        ar::embeddable(seqs, start, len),
        0 <= start,
        0 <= book < books <= 10,
        0 <= s < seqs.len(),
        0 <= k < len,
    ensures
        ar::all_book_ids(seqs, start, len, books).len() == books * (seqs.len() * len),
        0 <= book * (seqs.len() * len) + s * len + k < books * (seqs.len() * len),
        ar::all_book_ids(seqs, start, len, books)[book * (seqs.len() * len) + s * len + k]
            == seqs[s][book + 1][start + k] + book * 4096,
    decreases books,
{
    let w = seqs.len() * len;
    lemma_book_ids(seqs, start, len, books - 1, s, k);
    assert((books - 1) * w + w == books * w) by (nonlinear_arith);
    assert(ar::all_book_ids(seqs, start, len, books - 1).len() == (books - 1) * w) by {
        if books > 1 {
            lemma_all_book_ids(seqs, start, len, books - 1, 0, s, k);
        } else {
            assert(0 * w == 0) by (nonlinear_arith);
        }
    }
    assert(0 <= s * len) by (nonlinear_arith)
        requires
            0 <= s,
            0 < len,
    ;
    if book < books - 1 {
        lemma_all_book_ids(seqs, start, len, books - 1, book, s, k);
    }
}

/// What is looked up for the positions of several sequences: the tokens, sequence by sequence, and
/// the codes, codebook by codebook and in each sequence by sequence, those of a codebook 4096 rows
/// behind those of the one before it.
pub proof fn every_position_is_looked_up_in_its_place(
    seqs: Seq<Seq<Seq<u32>>>,
    start: int,
    len: int,
    book: int,
    s: int,
    k: int,
)
    requires
        ar::embeddable(seqs, start, len),
        0 <= start,
        0 <= book < 10,
        0 <= s < seqs.len(),
        0 <= k < len,
    ensures
        ar::token_ids(seqs, start, len).len() == seqs.len() * len,
        ar::token_ids(seqs, start, len)[s * len + k] == seqs[s][0][start + k],
        ar::all_book_ids(seqs, start, len, 10).len() == 10 * (seqs.len() * len),
        ar::all_book_ids(seqs, start, len, 10)[book * (seqs.len() * len) + s * len + k]
            == seqs[s][book + 1][start + k] + book * 4096,
{
    lemma_token_ids(seqs, start, len, s, k);
    lemma_all_book_ids(seqs, start, len, 10, book, s, k);
}

/// A lane shows its rows, filler, frames and window as they are.
pub proof fn a_lane_shows_what_it_holds(l: Lane, r: int)
    ensures
        l@.rows.len() == l.rows@.len(),
        0 <= r < l.rows@.len() ==> l@.rows[r] == l.rows@[r]@,
        l@.frames.len() == l.frames@.len(),
        0 <= r < l.frames@.len() ==> l@.frames[r] == l.frames@[r]@,
        l@.pad == l.pad,
        l@.done == l.done,
        l.previous is None <==> l@.previous is None,
        l.previous matches Some(w) ==> l@.previous == Some(w@),
{
}

/// A batch shows its order, its lanes and its counts as they are.
pub proof fn a_batch_shows_what_it_holds(b: Batch, prompts: Seq<Prompt>, i: int)
    ensures
        b@.order == b.order@,
        b@.width == b.width && b@.budget == b.budget && b@.live == b.live && b@.step == b.step,
        b@.lanes.len() == b.lanes@.len(),
        0 <= i < b.lanes@.len() ==> b@.lanes[i] == b.lanes@[i]@,
        0 <= i < b.lanes@.len() ==> ar::pads_of(b@.lanes, b.lanes@.len())[i] == b.lanes@[i].pad,
        ar::lengths(prompts).len() == prompts.len(),
        0 <= i < prompts.len() ==> ar::lengths(prompts)[i] == prompts[i].len,
{
}

/// A batch runs while one of its live lanes is not done.
pub proof fn a_batch_runs_while_a_lane_does(b: BatchView)
    ensures
        !ar::running(b) <==> forall|i: int| 0 <= i < b.live ==> (#[trigger] b.lanes[i]).done,
{
}

/// A batch starts with every prompt on its own lane, longer prompts first and equals as they came,
/// all as wide as the longest.
#[verifier::rlimit(50)]
pub proof fn a_batch_starts_with_the_longest(
    b: BatchView,
    prompts: Seq<Prompt>,
    max_new_tokens: nat,
    i: int,
    j: int,
)
    requires
        ar::starts(b, prompts, max_new_tokens),
        0 <= i < j < prompts.len() <= usize::MAX,
    ensures
        prompts[b.order[i] as int].len >= prompts[b.order[j] as int].len,
        prompts[b.order[i] as int].len == prompts[b.order[j] as int].len ==> b.order[i]
            < b.order[j],
        b.width == prompts[b.order[0] as int].len,
        b.lanes[j].pad + prompts[b.order[j] as int].len == b.width,
        b.lanes[j].frames.len() == 0 && b.lanes[j].previous is None && !b.lanes[j].done,
        b.live == prompts.len(),
        b.step == 0,
{
    let lens = ar::lengths(prompts);
    order::an_order_goes_by_the_keys(lens, true, b.order, i, j);
    order::lemma_ordered_permutation(lens, true, b.order);
    let m = choose|m: int| 0 <= m < lens.len() && #[trigger] lens[m] == b.width;
    assert(b.order.contains(order::keys_index(m)));
    let k = choose|k: int| 0 <= k < b.order.len() && b.order[k] == order::keys_index(m);
    assert(b.order[k] == m as usize);
    assert(prompts[m].len == lens[m]);
    let first = b.order[0] as int;
    assert(lens[first] <= b.width);
    if k > 0 {
        order::an_order_goes_by_the_keys(lens, true, b.order, 0, k);
    }
    assert(b.lanes[j] == ar::lane_start(
        grid::rows_view(prompts[b.order[j] as int].rows@),
        prompts[b.order[j] as int].len as nat,
        b.width,
    ));
    assert(lens[b.order[j] as int] <= b.width);
}

} // verus!
