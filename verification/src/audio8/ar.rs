//! The decoding schedule of the dual autoregressive model: prompt grid to codec codes.
//!
//! A slow model emits one semantic token per audio frame; a fast model then emits the residual
//! codebooks for that frame, one position at a time. Several prompts decode together: they are
//! **right-aligned**, padded on the left until every last prompt token sits at the same index,
//! and the padding is masked out. An attention score depends only on the distance between two
//! positions, and right-alignment shifts all positions of a sequence by the same amount.
//!
//! The forward passes and the draws happen outside; what is here decides what to feed, what to
//! keep and when to stop.

use crate::assemble::{copy_range, extend_copied};
use crate::audio8::cfg;
use crate::audio8::prompt::Prompt;
use crate::grid;
use crate::grid::{copy_vec, transpose};
use crate::masks;
use crate::masks::{any_padded, decode_grid, prefill_grid};
use crate::order;
use crate::order::{order_by, place_of};
use vstd::prelude::*;

verus! {

/// A non-semantic filler id for padded positions: the codebook contribution is zero there.
pub const PAD_ID: u32 = 0;

/// Group `n` items into batches of at most `max_batch`, in order: plain chunking.
///
/// Returns groups of indices; the caller reassembles the results in order.
pub fn plan_batches(n: usize, max_batch: usize) -> (groups: Vec<Vec<usize>>)
    ensures
        grid::rows_view(groups@) == planned(n as nat, if max_batch == 0 {
            1
        } else {
            max_batch as nat
        }),
{
    let size: usize = if max_batch == 0 {
        1
    } else {
        max_batch
    };
    let mut groups: Vec<Vec<usize>> = Vec::new();
    let mut from: usize = 0;
    let ghost want = planned(n as nat, size as nat);
    assert(grid::rows_view(groups@) + planned_from(0, n as nat, size as nat) =~= want);
    while from < n
        invariant
            from <= n,
            size > 0,
            grid::rows_view(groups@) + planned_from(from as nat, n as nat, size as nat) == want,
        decreases n - from,
    {
        let to: usize = if n - from <= size {
            n
        } else {
            from + size
        };
        let mut group: Vec<usize> = Vec::new();
        let mut i: usize = from;
        while i < to
            invariant
                from <= i <= to,
                group@ == Seq::new((i - from) as nat, |k: int| (from + k) as usize),
            decreases to - i,
        {
            group.push(i);
            i += 1;
            assert(group@ =~= Seq::new((i - from) as nat, |k: int| (from + k) as usize));
        }
        let ghost done = grid::rows_view(groups@);
        let ghost added = group@;
        groups.push(group);
        proof {
            assert(grid::rows_view(groups@) =~= done.push(added));
            let rest = planned_from(to as nat, n as nat, size as nat);
            assert(done.push(added) + rest =~= done + (seq![added] + rest));
        }
        from = to;
    }
    assert(grid::rows_view(groups@) + Seq::<Seq<usize>>::empty() =~= grid::rows_view(groups@));
    groups
}

/// The numbers from `from` to `n`, in groups of `size` of which the last may be smaller.
pub open spec fn planned_from(from: nat, n: nat, size: nat) -> Seq<Seq<usize>>
    decreases n - from,
{
    if from >= n || size == 0 {
        Seq::empty()
    } else {
        let to = if n - from <= size {
            n
        } else {
            from + size
        };
        seq![Seq::new((to - from) as nat, |k: int| (from + k) as usize)] + planned_from(
            to,
            n,
            size,
        )
    }
}

/// The numbers below `n`, in groups of `size`.
pub open spec fn planned(n: nat, size: nat) -> Seq<Seq<usize>> {
    planned_from(0, n, size)
}

proof fn lemma_planned_from(from: nat, n: nat, size: nat)
    requires
        size > 0,
        from <= n <= usize::MAX,
    ensures
        grid::flat_rows(planned_from(from, n, size)) == Seq::new(
            (n - from) as nat,
            |k: int| (from + k) as usize,
        ),
        forall|g: int|
            0 <= g < planned_from(from, n, size).len() ==> 0 < (#[trigger] planned_from(
                from,
                n,
                size,
            )[g]).len() <= size,
        forall|g: int|
            0 <= g < planned_from(from, n, size).len() - 1 ==> (#[trigger] planned_from(
                from,
                n,
                size,
            )[g]).len() == size,
    decreases n - from,
{
    let all = planned_from(from, n, size);
    if from < n {
        let to = if n - from <= size {
            n
        } else {
            from + size
        };
        let first = Seq::new((to - from) as nat, |k: int| (from + k) as usize);
        let rest = planned_from(to, n, size);
        lemma_planned_from(to, n, size);
        lemma_flat_first(first, rest);
        assert(all == seq![first] + rest);
        assert(grid::flat_rows(all) =~= Seq::new((n - from) as nat, |k: int| (from + k) as usize));
        assert forall|g: int| 0 <= g < all.len() implies 0 < (#[trigger] all[g]).len() <= size by {
            if g > 0 {
                assert(all[g] == rest[g - 1]);
            }
        }
        assert forall|g: int| 0 <= g < all.len() - 1 implies (#[trigger] all[g]).len() == size by {
            if g > 0 {
                assert(all[g] == rest[g - 1]);
            }
        }
    } else {
        assert(grid::flat_rows(all) =~= Seq::new((n - from) as nat, |k: int| (from + k) as usize));
    }
}

proof fn lemma_flat_first<T>(first: Seq<T>, rest: Seq<Seq<T>>)
    ensures
        grid::flat_rows(seq![first] + rest) == first + grid::flat_rows(rest),
    decreases rest.len(),
{
    let all = seq![first] + rest;
    if rest.len() == 0 {
        assert(all.drop_last() =~= Seq::<Seq<T>>::empty());
        assert(all.last() == first);
        assert(grid::flat_rows(all.drop_last()) =~= Seq::<T>::empty());
        assert(grid::flat_rows(all) =~= first);
        assert(first + grid::flat_rows(rest) =~= first);
    } else {
        assert(all.drop_last() =~= seq![first] + rest.drop_last());
        lemma_flat_first(first, rest.drop_last());
        assert(all.last() == rest.last());
        assert(first + grid::flat_rows(rest.drop_last()) + rest.last() =~= first + (grid::flat_rows(
            rest.drop_last(),
        ) + rest.last()));
    }
}

/// A plan lists every index exactly once, in order; no group is empty or over the limit, and
/// only the last may fall short of it.
pub proof fn plans_partition_the_indices(n: nat, size: nat)
    requires
        size > 0,
        n <= usize::MAX,
    ensures
        grid::flat_rows(planned(n, size)) == Seq::new(n, |k: int| k as usize),
        forall|g: int|
            0 <= g < planned(n, size).len() ==> 0 < (#[trigger] planned(n, size)[g]).len() <= size,
        forall|g: int|
            0 <= g < planned(n, size).len() - 1 ==> (#[trigger] planned(n, size)[g]).len() == size,
{
    lemma_planned_from(0, n, size);
    assert(Seq::new((n - 0) as nat, |k: int| (0 + k) as usize) =~= Seq::new(
        n,
        |k: int| k as usize,
    ));
}

/// Why a batch cannot be decoded.
#[derive(Clone, Copy, PartialEq, Eq, Structural, Debug)]
pub enum BatchError {
    /// No prompts to generate for.
    NoPrompts,
    /// The widest prompt leaves no room to generate.
    NoRoom { width: usize },
}

/// One sequence inside a batch: its right-aligned rows and its decoding state.
pub struct Lane {
    /// The semantic row, then the codebooks, `pad` entries of filler in front.
    pub rows: Vec<Vec<u32>>,
    /// Leading masked-out positions.
    pub pad: usize,
    /// Emitted frames, one code for each codebook.
    pub frames: Vec<Vec<u32>>,
    /// The window that repetition is looked for in, or `None` before the first emission.
    pub previous: Option<Vec<u32>>,
    /// Set once this sequence has emitted the end marker.
    pub done: bool,
}

/// What a lane holds.
pub struct LaneView {
    pub rows: Seq<Seq<u32>>,
    pub pad: nat,
    pub frames: Seq<Seq<u32>>,
    pub previous: Option<Seq<u32>>,
    pub done: bool,
}

impl View for Lane {
    type V = LaneView;

    open spec fn view(&self) -> LaneView {
        LaneView {
            rows: grid::rows_view(self.rows@),
            pad: self.pad as nat,
            frames: grid::rows_view(self.frames@),
            previous: match self.previous {
                Some(w) => Some(w@),
                None => None,
            },
            done: self.done,
        }
    }
}

/// `n` times the same number.
pub open spec fn filler(x: u32, n: nat) -> Seq<u32> {
    Seq::new(n, |k: int| x)
}

/// What a finished lane is fed, and a padded position holds, in row `r`.
pub open spec fn inert(r: int) -> u32 {
    if r == 0 {
        PAD_ID
    } else {
        0
    }
}

/// A prompt's lane before the first step: every row padded in front to `width`.
pub open spec fn lane_start(rows: Seq<Seq<u32>>, len: nat, width: nat) -> LaneView {
    LaneView {
        rows: Seq::new(
            rows.len(),
            |r: int| filler(inert(r), (width - len) as nat) + rows[r],
        ),
        pad: (width - len) as nat,
        frames: Seq::empty(),
        previous: None,
        done: false,
    }
}

/// A lane after a token was drawn for it: the end marker finishes it.
pub open spec fn lane_heard(l: LaneView, token: u32) -> LaneView {
    LaneView { done: l.done || token == cfg::EOS_TOKEN_ID, ..l }
}

/// The window after an emission. It starts as zeros, and so never records the first token.
pub open spec fn window_after(previous: Option<Seq<u32>>, token: u32) -> Seq<u32> {
    match previous {
        None => filler(0, cfg::RAS_WINDOW_SIZE as nat),
        Some(w) => w.drop_first().push(token),
    }
}

/// A lane after one more column: the emitted frame while it is running, filler once it is done.
pub open spec fn lane_fed(l: LaneView, token: u32, codes: Seq<u32>) -> LaneView {
    if l.done {
        LaneView { rows: Seq::new(l.rows.len(), |r: int| l.rows[r].push(inert(r))), ..l }
    } else {
        LaneView {
            rows: Seq::new(
                l.rows.len(),
                |r: int|
                    l.rows[r].push(
                        if r == 0 {
                            token
                        } else {
                            codes[r - 1]
                        },
                    ),
            ),
            frames: l.frames.push(codes),
            previous: Some(window_after(l.previous, token)),
            ..l
        }
    }
}

/// A lane with the right number of rows, codes to a frame and places in its window.
pub open spec fn lane_wf(l: LaneView) -> bool {
    &&& l.rows.len() == cfg::NUM_CODEBOOKS + 1
    &&& grid::rectangular(l.frames, cfg::NUM_CODEBOOKS as nat)
    &&& l.previous matches Some(w) ==> w.len() == cfg::RAS_WINDOW_SIZE
    &&& l.previous is None <==> l.frames.len() == 0
}

/// `n` copies of a number.
fn fill(x: u32, n: usize) -> (v: Vec<u32>)
    ensures
        v@ == filler(x, n as nat),
{
    let mut v: Vec<u32> = Vec::new();
    while v.len() < n
        invariant
            v@.len() <= n,
            forall|i: int| 0 <= i < v@.len() ==> v@[i] == x,
        decreases n - v@.len(),
    {
        v.push(x);
    }
    assert(v@ =~= filler(x, n as nat));
    v
}

/// The lane that a prompt starts as in a batch of the given width.
fn start_lane(prompt: &Prompt, width: usize) -> (l: Lane)
    requires
        prompt.wf(),
        prompt.len <= width,
    ensures
        l@ == lane_start(grid::rows_view(prompt.rows@), prompt.len as nat, width as nat),
        lane_wf(l@),
{
    let pad: usize = width - prompt.len;
    let ghost want = lane_start(
        grid::rows_view(prompt.rows@),
        prompt.len as nat,
        width as nat,
    ).rows;
    let mut rows: Vec<Vec<u32>> = Vec::new();
    let mut r: usize = 0;
    while r < prompt.rows.len()
        invariant
            r <= prompt.rows@.len(),
            pad == width - prompt.len,
            want == lane_start(
                grid::rows_view(prompt.rows@),
                prompt.len as nat,
                width as nat,
            ).rows,
            grid::rows_view(rows@) == want.take(r as int),
        decreases prompt.rows@.len() - r,
    {
        let ghost done = grid::rows_view(rows@);
        let mut row = fill(if r == 0 { PAD_ID } else { 0 }, pad);
        extend_copied(&mut row, prompt.rows[r].as_slice());
        let ghost added = row@;
        rows.push(row);
        assert(grid::rows_view(rows@) =~= done.push(added));
        assert(want.take(r + 1) =~= want.take(r as int).push(want[r as int]));
        r += 1;
    }
    assert(want.take(r as int) =~= want);
    let l = Lane { rows, pad, frames: Vec::new(), previous: None, done: false };
    assert(l@.frames =~= Seq::<Seq<u32>>::empty());
    l
}

/// Feeds a lane one more column.
fn feed_lane(l: &mut Lane, token: u32, codes: &Vec<u32>)
    requires
        lane_wf(old(l)@),
        !old(l).done ==> codes@.len() == cfg::NUM_CODEBOOKS,
    ensures
        final(l)@ == lane_fed(old(l)@, token, codes@),
        lane_wf(final(l)@),
{
    let ghost start = l@;
    let ghost want = lane_fed(start, token, codes@);
    let running = !l.done;
    let n: usize = l.rows.len();
    let mut r: usize = 0;
    while r < n
        invariant
            r <= n == l.rows@.len(),
            n == cfg::NUM_CODEBOOKS + 1,
            running == !l.done,
            running ==> codes@.len() == cfg::NUM_CODEBOOKS,
            start == old(l)@,
            want == lane_fed(start, token, codes@),
            start.rows.len() == n,
            l.done == old(l).done,
            l.pad == old(l).pad,
            l.frames == old(l).frames,
            l.previous == old(l).previous,
            forall|k: int| 0 <= k < r ==> #[trigger] l.rows@[k]@ == want.rows[k],
            forall|k: int| r <= k < n ==> #[trigger] l.rows@[k]@ == start.rows[k],
        decreases n - r,
    {
        let x: u32 = if !running {
            if r == 0 {
                PAD_ID
            } else {
                0
            }
        } else if r == 0 {
            token
        } else {
            codes[r - 1]
        };
        l.rows[r].push(x);
        r += 1;
    }
    assert(grid::rows_view(l.rows@) =~= want.rows);
    if running {
        let ghost frames = grid::rows_view(l.frames@);
        let frame = copy_vec(codes);
        l.frames.push(frame);
        assert(grid::rows_view(l.frames@) =~= frames.push(codes@));
        let window = match l.previous.take() {
            None => fill(0, cfg::RAS_WINDOW_SIZE),
            Some(w) => {
                let mut next = copy_range(w.as_slice(), 1, w.len());
                next.push(token);
                assert(next@ =~= w@.drop_first().push(token));
                next
            },
        };
        l.previous = Some(window);
    }
    assert(l@.previous == want.previous);
    assert(l@.frames == want.frames);
}

/// Prompts decoding together.
pub struct Batch {
    /// The prompt that each lane decodes: longest first, since only a contiguous tail of
    /// finished lanes can be dropped and a longer prompt usually runs longer.
    pub order: Vec<usize>,
    /// The width of the widest prompt, to which all are aligned.
    pub width: usize,
    /// The most steps that will be taken.
    pub budget: usize,
    pub lanes: Vec<Lane>,
    /// The lanes still computed, a prefix of all.
    pub live: usize,
    /// Steps taken.
    pub step: usize,
}

/// What a batch holds.
pub struct BatchView {
    pub order: Seq<usize>,
    pub width: nat,
    pub budget: nat,
    pub lanes: Seq<LaneView>,
    pub live: nat,
    pub step: nat,
}

/// What several lanes hold.
pub open spec fn lane_views(lanes: Seq<Lane>) -> Seq<LaneView> {
    Seq::new(lanes.len(), |i: int| lanes[i]@)
}

impl View for Batch {
    type V = BatchView;

    open spec fn view(&self) -> BatchView {
        BatchView {
            order: self.order@,
            width: self.width as nat,
            budget: self.budget as nat,
            lanes: lane_views(self.lanes@),
            live: self.live as nat,
            step: self.step as nat,
        }
    }
}

/// The lengths of some prompts.
pub open spec fn lengths(prompts: Seq<Prompt>) -> Seq<usize> {
    Seq::new(prompts.len(), |i: int| prompts[i].len)
}

/// `m` is the largest of some numbers.
pub open spec fn is_max(s: Seq<usize>, m: nat) -> bool {
    &&& exists|i: int| 0 <= i < s.len() && #[trigger] s[i] == m
    &&& forall|i: int| 0 <= i < s.len() ==> #[trigger] s[i] <= m
}

/// The steps that a prompt of `width` leaves room for.
pub open spec fn step_budget(max_new_tokens: nat, width: nat) -> nat {
    if width >= cfg::MAX_SEQ_LEN {
        0
    } else if max_new_tokens <= cfg::MAX_SEQ_LEN - width {
        max_new_tokens
    } else {
        (cfg::MAX_SEQ_LEN - width) as nat
    }
}

/// The batch that some prompts start as.
pub open spec fn starts(b: BatchView, prompts: Seq<Prompt>, max_new_tokens: nat) -> bool {
    &&& order::ordered(lengths(prompts), true, b.order)
    &&& is_max(lengths(prompts), b.width)
    &&& b.budget == step_budget(max_new_tokens, b.width)
    &&& b.live == prompts.len()
    &&& b.step == 0
    &&& b.lanes.len() == prompts.len()
    &&& forall|k: int|
        0 <= k < b.lanes.len() ==> #[trigger] b.lanes[k] == lane_start(
            grid::rows_view(prompts[b.order[k] as int].rows@),
            prompts[b.order[k] as int].len as nat,
            b.width,
        )
}

/// What holds of a batch between two steps: there is room for every step left, the lanes past
/// the live ones are done, a lane that is not done has emitted one frame in each step, and the
/// live lanes are all as long as the steps taken say.
pub open spec fn batch_wf(b: BatchView) -> bool {
    &&& order::permutation(b.order, b.lanes.len())
    &&& b.lanes.len() >= 1
    &&& 1 <= b.live <= b.lanes.len()
    &&& b.step <= b.budget
    &&& b.width + b.budget <= cfg::MAX_SEQ_LEN
    &&& forall|i: int| 0 <= i < b.lanes.len() ==> lane_wf(#[trigger] b.lanes[i])
    &&& forall|i: int| b.live <= i < b.lanes.len() ==> (#[trigger] b.lanes[i]).done
    &&& forall|i: int|
        0 <= i < b.lanes.len() ==> if (#[trigger] b.lanes[i]).done {
            b.lanes[i].frames.len() <= b.step
        } else {
            b.lanes[i].frames.len() == b.step
        }
    &&& forall|i: int|
        0 <= i < b.live ==> grid::rectangular((#[trigger] b.lanes[i]).rows, b.width + b.step)
}

/// The largest prompt length.
fn widest(prompts: &Vec<Prompt>) -> (w: usize)
    requires
        prompts@.len() > 0,
    ensures
        is_max(lengths(prompts@), w as nat),
{
    let ghost lens = lengths(prompts@);
    let mut w: usize = prompts[0].len;
    let mut i: usize = 1;
    assert(lens[0] == w);
    while i < prompts.len()
        invariant
            1 <= i <= prompts@.len(),
            lens == lengths(prompts@),
            exists|k: int| 0 <= k < i && #[trigger] lens[k] == w,
            forall|k: int| 0 <= k < i ==> #[trigger] lens[k] <= w,
        decreases prompts@.len() - i,
    {
        assert(lens[i as int] == prompts@[i as int].len);
        if prompts[i].len > w {
            w = prompts[i].len;
        }
        i += 1;
    }
    w
}

/// What was drawn for the live lanes, as the codebooks are generated from it.
pub struct Heard {
    /// The tokens, zero where the lane is done.
    pub semantics: Vec<u32>,
    /// The lanes that are not done.
    pub active: Vec<bool>,
}

/// A batch after a token was drawn for each live lane.
pub open spec fn heard(b: BatchView, drawn: Seq<u32>) -> BatchView {
    BatchView {
        lanes: Seq::new(
            b.lanes.len(),
            |i: int|
                if i < b.live {
                    lane_heard(b.lanes[i], drawn[i])
                } else {
                    b.lanes[i]
                },
        ),
        ..b
    }
}

/// The lanes left once the finished ones are dropped off the tail; one always stays.
pub open spec fn live_after(lanes: Seq<LaneView>, live: nat) -> nat
    decreases live,
{
    if live > 1 && lanes[live - 1].done {
        live_after(lanes, (live - 1) as nat)
    } else {
        live
    }
}

/// A batch after the step is completed.
pub open spec fn fed(b: BatchView, tokens: Seq<u32>, codes: Seq<Seq<u32>>) -> BatchView {
    let lanes = Seq::new(
        b.lanes.len(),
        |i: int|
            if i < b.live {
                lane_fed(b.lanes[i], tokens[i], codes[i])
            } else {
                b.lanes[i]
            },
    );
    BatchView { lanes, live: live_after(lanes, b.live), step: b.step + 1, ..b }
}

/// A live lane that is not done.
pub open spec fn running(b: BatchView) -> bool {
    exists|i: int| 0 <= i < b.live && !(#[trigger] b.lanes[i]).done
}

/// The lanes behind the live ones are done.
pub proof fn lemma_live_after(lanes: Seq<LaneView>, live: nat)
    requires
        1 <= live <= lanes.len(),
    ensures
        1 <= live_after(lanes, live) <= live,
        forall|i: int| live_after(lanes, live) <= i < live ==> (#[trigger] lanes[i]).done,
    decreases live,
{
    if live > 1 && lanes[live - 1].done {
        lemma_live_after(lanes, (live - 1) as nat);
    }
}

impl Batch {
    /// Room for every step left, and lanes that agree with the steps taken.
    pub open spec fn wf(&self) -> bool {
        batch_wf(self@)
    }

    /// Aligns the prompts and decides how many steps there is room for.
    pub fn begin(prompts: &Vec<Prompt>, max_new_tokens: usize) -> (r: Result<Self, BatchError>)
        requires
            forall|i: int| 0 <= i < prompts@.len() ==> (#[trigger] prompts@[i]).wf(),
        ensures
            match r {
                Ok(b) => starts(b@, prompts@, max_new_tokens as nat) && b.wf() && b.budget > 0,
                Err(BatchError::NoPrompts) => prompts@.len() == 0,
                Err(BatchError::NoRoom { width }) => prompts@.len() > 0 && is_max(
                    lengths(prompts@),
                    width as nat,
                ) && step_budget(max_new_tokens as nat, width as nat) == 0,
            },
    {
        if prompts.len() == 0 {
            return Err(BatchError::NoPrompts);
        }
        let width: usize = widest(prompts);
        let room: usize = if width >= cfg::MAX_SEQ_LEN {
            0
        } else {
            cfg::MAX_SEQ_LEN - width
        };
        let budget: usize = if max_new_tokens <= room {
            max_new_tokens
        } else {
            room
        };
        if budget == 0 {
            return Err(BatchError::NoRoom { width });
        }
        let mut keys: Vec<usize> = Vec::new();
        let mut i: usize = 0;
        while i < prompts.len()
            invariant
                i <= prompts@.len(),
                keys@ == lengths(prompts@).take(i as int),
            decreases prompts@.len() - i,
        {
            keys.push(prompts[i].len);
            assert(lengths(prompts@).take(i + 1) =~= lengths(prompts@).take(i as int).push(
                prompts@[i as int].len,
            ));
            i += 1;
        }
        assert(keys@ =~= lengths(prompts@));
        let order = order_by(&keys, true);
        proof {
            order::lemma_ordered_distinct(keys@, true, order@);
        }
        let mut lanes: Vec<Lane> = Vec::new();
        let mut k: usize = 0;
        while k < order.len()
            invariant
                k <= order@.len() == prompts@.len(),
                lanes@.len() == k,
                is_max(lengths(prompts@), width as nat),
                order::ordered(lengths(prompts@), true, order@),
                forall|i: int| 0 <= i < prompts@.len() ==> (#[trigger] prompts@[i]).wf(),
                forall|j: int|
                    0 <= j < k ==> lane_wf((#[trigger] lanes@[j])@) && lanes@[j]@ == lane_start(
                        grid::rows_view(prompts@[order@[j] as int].rows@),
                        prompts@[order@[j] as int].len as nat,
                        width as nat,
                    ),
            decreases order@.len() - k,
        {
            assert(lengths(prompts@)[order@[k as int] as int] <= width);
            let l = start_lane(&prompts[order[k]], width);
            lanes.push(l);
            k += 1;
        }
        let live: usize = lanes.len();
        let b = Batch { order, width, budget, lanes, live, step: 0 };
        proof {
            let v = b@;
            assert forall|j: int| 0 <= j < v.lanes.len() implies #[trigger] v.lanes[j]
                == lane_start(
                grid::rows_view(prompts@[v.order[j] as int].rows@),
                prompts@[v.order[j] as int].len as nat,
                v.width,
            ) by {
                assert(lane_wf(b.lanes@[j]@));
            }
            assert forall|j: int| 0 <= j < v.lanes.len() implies lane_wf(#[trigger] v.lanes[j]) by {
                assert(lane_wf(b.lanes@[j]@));
            }
            assert forall|j: int| 0 <= j < v.live implies grid::rectangular(
                (#[trigger] v.lanes[j]).rows,
                v.width + v.step,
            ) by {
                let p = prompts@[v.order[j] as int];
                assert(p.wf());
                assert(lengths(prompts@)[v.order[j] as int] <= width);
                assert forall|r: int| 0 <= r < v.lanes[j].rows.len() implies (
                #[trigger] v.lanes[j].rows[r]).len() == v.width + v.step by {
                    assert(grid::rows_view(p.rows@)[r].len() == p.len);
                }
            }
        }
        Ok(b)
    }

    /// Takes in the token drawn for each live lane. What was drawn for a finished lane does not
    /// count.
    pub fn hear(&mut self, drawn: &Vec<u32>) -> (h: Heard)
        requires
            old(self).wf(),
            drawn@.len() == old(self).live,
        ensures
            final(self)@ == heard(old(self)@, drawn@),
            final(self).wf(),
            h.semantics@.len() == old(self).live,
            h.active@.len() == old(self).live,
            forall|i: int|
                0 <= i < old(self).live ==> #[trigger] h.active@[i] == !final(self)@.lanes[i].done,
            forall|i: int|
                0 <= i < old(self).live ==> #[trigger] h.semantics@[i] == if h.active@[i] {
                    drawn@[i]
                } else {
                    0
                },
    {
        let mut semantics: Vec<u32> = Vec::new();
        let mut active: Vec<bool> = Vec::new();
        let ghost start = self@;
        let ghost want = heard(start, drawn@);
        let mut i: usize = 0;
        while i < self.live
            invariant
                i <= self.live <= self.lanes@.len(),
                drawn@.len() == self.live,
                start == old(self)@,
                want == heard(start, drawn@),
                self.order == old(self).order,
                self.width == old(self).width,
                self.budget == old(self).budget,
                self.live == old(self).live,
                self.step == old(self).step,
                self.lanes@.len() == start.lanes.len(),
                semantics@.len() == i,
                active@.len() == i,
                forall|k: int| 0 <= k < i ==> (#[trigger] self.lanes@[k])@ == want.lanes[k],
                forall|k: int|
                    i <= k < self.lanes@.len() ==> (#[trigger] self.lanes@[k])@ == start.lanes[k],
                forall|k: int| 0 <= k < i ==> #[trigger] active@[k] == !want.lanes[k].done,
                forall|k: int|
                    0 <= k < i ==> #[trigger] semantics@[k] == if active@[k] {
                        drawn@[k]
                    } else {
                        0
                    },
            decreases self.live - i,
        {
            if drawn[i] == cfg::EOS_TOKEN_ID {
                self.lanes[i].done = true;
            }
            let on = !self.lanes[i].done;
            active.push(on);
            semantics.push(if on { drawn[i] } else { 0 });
            i += 1;
        }
        assert(self@.lanes =~= want.lanes);
        assert forall|k: int| 0 <= k < self@.lanes.len() implies lane_wf(
            #[trigger] self@.lanes[k],
        ) by {
            assert(lane_wf(start.lanes[k]));
        }
        Heard { semantics, active }
    }

    /// Is any live lane still running?
    pub fn any_running(&self) -> (r: bool)
        requires
            self.wf(),
        ensures
            r == running(self@),
    {
        let mut i: usize = 0;
        while i < self.live
            invariant
                i <= self.live <= self.lanes@.len(),
                forall|k: int| 0 <= k < i ==> (#[trigger] self@.lanes[k]).done,
            decreases self.live - i,
        {
            assert(self@.lanes[i as int] == self.lanes@[i as int]@);
            if !self.lanes[i].done {
                return true;
            }
            i += 1;
        }
        false
    }

    /// Is the run over? There is no step left, or no live lane is running.
    pub fn over(&self) -> (r: bool)
        requires
            self.wf(),
        ensures
            r == (self.step >= self.budget || !running(self@)),
    {
        self.step >= self.budget || !self.any_running()
    }

    /// Completes a step: the running lanes keep their frame, every live lane is fed one column
    /// at the position returned, and finished lanes are dropped off the tail.
    pub fn feed(&mut self, tokens: &Vec<u32>, codes: &Vec<Vec<u32>>) -> (pos: usize)
        requires
            old(self).wf(),
            old(self).step < old(self).budget,
            tokens@.len() == old(self).live,
            codes@.len() == old(self).live,
            forall|i: int|
                0 <= i < codes@.len() ==> (#[trigger] codes@[i])@.len() == cfg::NUM_CODEBOOKS,
        ensures
            final(self)@ == fed(old(self)@, tokens@, grid::rows_view(codes@)),
            final(self).wf(),
            pos == old(self).width + old(self).step,
            pos < cfg::MAX_SEQ_LEN,
    {
        let ghost start = self@;
        let ghost want = fed(start, tokens@, grid::rows_view(codes@));
        let pos: usize = self.width + self.step;
        let mut i: usize = 0;
        while i < self.live
            invariant
                i <= self.live <= self.lanes@.len(),
                tokens@.len() == self.live,
                codes@.len() == self.live,
                start == old(self)@,
                batch_wf(start),
                want == fed(start, tokens@, grid::rows_view(codes@)),
                forall|k: int|
                    0 <= k < codes@.len() ==> (#[trigger] codes@[k])@.len() == cfg::NUM_CODEBOOKS,
                self.order == old(self).order,
                self.width == old(self).width,
                self.budget == old(self).budget,
                self.live == old(self).live,
                self.step == old(self).step,
                self.lanes@.len() == start.lanes.len(),
                forall|k: int|
                    0 <= k < i ==> (#[trigger] self.lanes@[k])@ == want.lanes[k] && lane_wf(
                        self.lanes@[k]@,
                    ),
                forall|k: int|
                    i <= k < self.lanes@.len() ==> (#[trigger] self.lanes@[k])@ == start.lanes[k],
            decreases self.live - i,
        {
            assert(lane_wf(start.lanes[i as int]));
            feed_lane(&mut self.lanes[i], tokens[i], &codes[i]);
            i += 1;
        }
        assert(self@.lanes =~= want.lanes);
        let ghost full = self.live as nat;
        proof {
            lemma_live_after(want.lanes, full);
        }
        while self.live > 1 && self.lanes[self.live - 1].done
            invariant
                1 <= self.live <= self.lanes@.len(),
                self@.lanes == want.lanes,
                live_after(want.lanes, self.live as nat) == live_after(want.lanes, full),
                self.order == old(self).order,
                self.width == old(self).width,
                self.budget == old(self).budget,
                self.step == old(self).step,
            decreases self.live,
        {
            assert(self@.lanes[self.live - 1] == self.lanes@[self.live - 1]@);
            self.live = self.live - 1;
        }
        assert(self@.lanes[self.live - 1] == self.lanes@[self.live - 1]@);
        self.step = self.step + 1;
        proof {
            let v = self@;
            assert(v == want);
            assert forall|k: int| 0 <= k < v.lanes.len() implies lane_wf(#[trigger] v.lanes[k]) by {
                assert(lane_wf(start.lanes[k]));
            }
            assert forall|k: int| v.live <= k < v.lanes.len() implies (
            #[trigger] v.lanes[k]).done by {
                assert(start.lanes[k].done || k < start.live);
            }
            assert forall|k: int| 0 <= k < v.lanes.len() implies if (#[trigger] v.lanes[k]).done {
                v.lanes[k].frames.len() <= v.step
            } else {
                v.lanes[k].frames.len() == v.step
            } by {
                assert(lane_wf(start.lanes[k]));
                assert(k >= start.live ==> start.lanes[k].done);
            }
            assert forall|k: int| 0 <= k < v.live implies grid::rectangular(
                (#[trigger] v.lanes[k]).rows,
                v.width + v.step,
            ) by {
                assert(grid::rectangular(start.lanes[k].rows, start.width + start.step));
                assert forall|r: int| 0 <= r < v.lanes[k].rows.len() implies (
                #[trigger] v.lanes[k].rows[r]).len() == v.width + v.step by {
                    assert(start.lanes[k].rows[r].len() == start.width + start.step);
                }
            }
        }
        pos
    }

    /// The codes of every prompt, one row for each codebook, in the order in which the prompts
    /// were given.
    pub fn finish(&self) -> (out: Vec<Vec<Vec<u32>>>)
        requires
            self.wf(),
        ensures
            out@.len() == self.lanes@.len(),
            forall|k: int|
                0 <= k < self.lanes@.len() ==> grid::rows_view(
                    out@[(#[trigger] self.order@[k]) as int]@,
                ) == grid::transposed(self@.lanes[k].frames, cfg::NUM_CODEBOOKS as nat),
    {
        let mut out: Vec<Vec<Vec<u32>>> = Vec::new();
        let n: usize = self.lanes.len();
        let mut p: usize = 0;
        while p < n
            invariant
                p <= n == self.lanes@.len(),
                self.wf(),
                out@.len() == p,
                forall|k: int|
                    0 <= k < n && (#[trigger] self.order@[k]) < p ==> grid::rows_view(
                        out@[self.order@[k] as int]@,
                    ) == grid::transposed(self@.lanes[k].frames, cfg::NUM_CODEBOOKS as nat),
            decreases n - p,
        {
            let lane: usize = place_of(&self.order, p);
            assert(lane_wf(self@.lanes[lane as int]));
            let ghost before = out@;
            let rows = transpose(&self.lanes[lane].frames, cfg::NUM_CODEBOOKS);
            out.push(rows);
            assert forall|k: int| 0 <= k < n && (#[trigger] self.order@[k]) < p + 1 implies
                grid::rows_view(out@[self.order@[k] as int]@) == grid::transposed(
                self@.lanes[k].frames,
                cfg::NUM_CODEBOOKS as nat,
            ) by {
                if self.order@[k] != p {
                    assert(out@[self.order@[k] as int] == before[self.order@[k] as int]);
                }
            }
            p += 1;
        }
        out
    }
}

/// How far each lane is padded.
pub open spec fn pads_of(lanes: Seq<LaneView>, n: nat) -> Seq<usize> {
    Seq::new(n, |i: int| lanes[i].pad as usize)
}

impl Batch {
    /// How far each lane is padded.
    pub fn pads(&self) -> (v: Vec<usize>)
        ensures
            v@ == pads_of(self@.lanes, self.lanes@.len()),
    {
        let mut v: Vec<usize> = Vec::new();
        let mut i: usize = 0;
        while i < self.lanes.len()
            invariant
                i <= self.lanes@.len(),
                v@ == pads_of(self@.lanes, i as nat),
            decreases self.lanes@.len() - i,
        {
            assert(self@.lanes[i as int].pad == self.lanes@[i as int].pad);
            v.push(self.lanes[i].pad);
            i += 1;
            assert(v@ =~= pads_of(self@.lanes, i as nat));
        }
        v
    }

    /// The mask of the pass over the prompts, or `None` when there is nothing to mask.
    pub fn prefill_mask(&self) -> (mask: Option<Vec<bool>>)
        requires
            self.lanes@.len() * self.width * self.width <= usize::MAX,
        ensures
            match mask {
                None => self.width <= 1,
                Some(m) => self.width > 1 && masks::is_grid(
                    m@,
                    self.lanes@.len() * self.width * self.width,
                    |q: int|
                        masks::prefill_at(
                            pads_of(self@.lanes, self.lanes@.len()),
                            self.width as int,
                            q,
                        ),
                ),
            },
    {
        if self.width <= 1 {
            return None;
        }
        let pads = self.pads();
        Some(prefill_grid(&pads, self.width))
    }

    /// The mask of every later step at full capacity, or `None` when no sequence is padded.
    pub fn decode_mask(&self) -> (mask: Option<Vec<bool>>)
        requires
            self.lanes@.len() * cfg::MAX_SEQ_LEN <= usize::MAX,
        ensures
            match mask {
                None => !masks::padded(pads_of(self@.lanes, self.lanes@.len())),
                Some(m) => masks::padded(pads_of(self@.lanes, self.lanes@.len()))
                    && masks::is_grid(
                    m@,
                    self.lanes@.len() * cfg::MAX_SEQ_LEN,
                    |q: int|
                        masks::decode_at(
                            pads_of(self@.lanes, self.lanes@.len()),
                            cfg::MAX_SEQ_LEN as int,
                            q,
                        ),
                ),
            },
    {
        let pads = self.pads();
        if !any_padded(&pads) {
            return None;
        }
        Some(decode_grid(&pads, cfg::MAX_SEQ_LEN))
    }
}

/// The vocabulary id of a row of the reachable slice: the semantic ids, then the end marker,
/// which lies below them in the vocabulary.
pub open spec fn token_of(index: int) -> int {
    if index < cfg::CODEBOOK_SIZE {
        cfg::SEMANTIC_BEGIN_ID + index
    } else {
        cfg::EOS_TOKEN_ID as int
    }
}

/// Map an index in the reachable slice back to a vocabulary id.
pub fn reachable_to_token(index: usize) -> (t: u32)
    ensures
        t == token_of(index as int),
{
    if index < cfg::CODEBOOK_SIZE {
        cfg::SEMANTIC_BEGIN_ID + index as u32
    } else {
        cfg::EOS_TOKEN_ID
    }
}

/// The token that repetition-aware sampling settles on: the regular draw, unless it is a
/// semantic token that the window holds already; the second draw in that case. Without a second
/// draw (greedy decoding) or a window (the first step) the regular one stands.
pub open spec fn semantic_choice(normal: int, high: Option<int>, previous: Option<Seq<u32>>) -> int {
    let t = token_of(normal);
    match (high, previous) {
        (Some(h), Some(w)) => if w.contains(t as u32) && cfg::semantic(t as u32) {
            token_of(h)
        } else {
            t
        },
        _ => t,
    }
}

/// Sample one semantic token from the rows that were drawn: `normal` at the caller's settings,
/// and `high` at those of the repetition guard, absent when decoding greedily.
pub fn sample_semantic(normal: usize, high: Option<usize>, previous: &Option<Vec<u32>>) -> (t: u32)
    ensures
        t == semantic_choice(
            normal as int,
            match high {
                Some(h) => Some(h as int),
                None => None,
            },
            match previous {
                Some(w) => Some(w@),
                None => None,
            },
        ),
{
    let token: u32 = reachable_to_token(normal);
    if let Some(h) = high {
        if let Some(window) = previous {
            let mut repeated = false;
            let mut i: usize = 0;
            while i < window.len()
                invariant
                    i <= window@.len(),
                    repeated == window@.take(i as int).contains(token),
                decreases window@.len() - i,
            {
                proof {
                    let next = window@.take(i + 1);
                    assert(next =~= window@.take(i as int).push(window@[i as int]));
                    assert(next[i as int] == window@[i as int]);
                    if window@.take(i as int).contains(token) {
                        let k = choose|k: int|
                            0 <= k < window@.take(i as int).len() && window@.take(i as int)[k]
                                == token;
                        assert(next[k] == token);
                    }
                }
                if window[i] == token {
                    repeated = true;
                }
                i += 1;
            }
            assert(window@.take(i as int) =~= window@);
            if repeated && cfg::SEMANTIC_BEGIN_ID <= token && token <= cfg::SEMANTIC_END_ID {
                return reachable_to_token(h);
            }
        }
    }
    token
}

/// The first code of a frame: the semantic token's place in its codebook.
pub open spec fn first_code(semantic: u32) -> int {
    if semantic <= cfg::SEMANTIC_BEGIN_ID {
        0
    } else if semantic - cfg::SEMANTIC_BEGIN_ID < cfg::CODEBOOK_SIZE {
        semantic - cfg::SEMANTIC_BEGIN_ID
    } else {
        cfg::CODEBOOK_SIZE - 1
    }
}

/// The frame of every lane while its codebooks are generated one position at a time.
pub struct Frames {
    /// The code that each lane's next position is conditioned on.
    pub current: Vec<u32>,
    /// The codes so far.
    pub books: Vec<Vec<u32>>,
}

impl Frames {
    /// One frame for each lane, and `n` codes in each.
    pub open spec fn wf(&self, lanes: nat, n: nat) -> bool {
        &&& self.current@.len() == lanes
        &&& self.books@.len() == lanes
        &&& grid::rectangular(grid::rows_view(self.books@), n)
    }

    /// Frames that hold the first code of each lane.
    pub fn begin(semantics: &Vec<u32>) -> (f: Self)
        ensures
            f.wf(semantics@.len(), 1),
            forall|i: int|
                0 <= i < semantics@.len() ==> #[trigger] f.current@[i] == first_code(
                    semantics@[i],
                ),
            forall|i: int|
                0 <= i < semantics@.len() ==> (#[trigger] f.books@[i])@ == seq![f.current@[i]],
    {
        let mut current: Vec<u32> = Vec::new();
        let mut books: Vec<Vec<u32>> = Vec::new();
        let mut i: usize = 0;
        while i < semantics.len()
            invariant
                i <= semantics@.len(),
                current@.len() == i,
                books@.len() == i,
                forall|k: int|
                    0 <= k < i ==> #[trigger] current@[k] == first_code(semantics@[k]),
                forall|k: int| 0 <= k < i ==> (#[trigger] books@[k])@ == seq![current@[k]],
            decreases semantics@.len() - i,
        {
            let top: u32 = cfg::CODEBOOK_SIZE as u32 - 1;
            let c: u32 = semantics[i].saturating_sub(cfg::SEMANTIC_BEGIN_ID);
            let c: u32 = if c > top {
                top
            } else {
                c
            };
            let mut book: Vec<u32> = Vec::new();
            book.push(c);
            assert(book@ =~= seq![c]);
            current.push(c);
            books.push(book);
            i += 1;
        }
        assert(forall|k: int|
            0 <= k < books@.len() ==> (#[trigger] grid::rows_view(books@)[k]) == books@[k]@);
        Frames { current, books }
    }

    /// Takes in the code drawn for each lane at the next position. A finished lane gets a zero,
    /// and what its next position is conditioned on stays.
    pub fn push(&mut self, drawn: &Vec<u32>, active: &Vec<bool>)
        requires
            old(self).current@.len() == drawn@.len(),
            old(self).books@.len() == drawn@.len(),
            active@.len() == drawn@.len(),
        ensures
            final(self).current@.len() == drawn@.len(),
            final(self).books@.len() == drawn@.len(),
            forall|i: int|
                0 <= i < drawn@.len() ==> #[trigger] final(self).current@[i] == if active@[i] {
                    drawn@[i]
                } else {
                    old(self).current@[i]
                },
            forall|i: int|
                0 <= i < drawn@.len() ==> (#[trigger] final(self).books@[i])@ == old(
                    self,
                ).books@[i]@.push(
                    if active@[i] {
                        drawn@[i]
                    } else {
                        0
                    },
                ),
    {
        let n: usize = drawn.len();
        let mut i: usize = 0;
        while i < n
            invariant
                i <= n == drawn@.len(),
                active@.len() == n,
                self.current@.len() == n,
                self.books@.len() == n,
                forall|k: int|
                    0 <= k < n ==> #[trigger] self.current@[k] == if k < i && active@[k] {
                        drawn@[k]
                    } else {
                        old(self).current@[k]
                    },
                forall|k: int|
                    0 <= k < i ==> (#[trigger] self.books@[k])@ == old(self).books@[k]@.push(
                        if active@[k] {
                            drawn@[k]
                        } else {
                            0
                        },
                    ),
                forall|k: int| i <= k < n ==> #[trigger] self.books@[k] == old(self).books@[k],
            decreases n - i,
        {
            if active[i] {
                self.current.set(i, drawn[i]);
                self.books[i].push(drawn[i]);
            } else {
                self.books[i].push(0);
            }
            i += 1;
        }
    }
}

/// The ids of a stretch of columns: row 0 of each sequence, one sequence behind the other.
pub open spec fn token_ids(seqs: Seq<Seq<Seq<u32>>>, start: int, len: int) -> Seq<u32>
    decreases seqs.len(),
{
    if seqs.len() == 0 {
        Seq::empty()
    } else {
        token_ids(seqs.drop_last(), start, len) + seqs.last()[0].subrange(start, start + len)
    }
}

/// A row's codes moved into the part of the joint table that belongs to codebook `book`.
pub open spec fn offset_codes(row: Seq<u32>, book: int) -> Seq<u32> {
    Seq::new(row.len(), |k: int| (row[k] + book * cfg::CODEBOOK_SIZE) as u32)
}

/// The codes of codebook `book` over a stretch of columns, one sequence behind the other.
pub open spec fn book_ids(seqs: Seq<Seq<Seq<u32>>>, start: int, len: int, book: int) -> Seq<u32>
    decreases seqs.len(),
{
    if seqs.len() == 0 {
        Seq::empty()
    } else {
        book_ids(seqs.drop_last(), start, len, book) + offset_codes(
            seqs.last()[book + 1].subrange(start, start + len),
            book,
        )
    }
}

/// The codes of the first `books` codebooks, codebook by codebook.
pub open spec fn all_book_ids(seqs: Seq<Seq<Seq<u32>>>, start: int, len: int, books: int) -> Seq<
    u32,
>
    decreases books,
{
    if books <= 0 {
        Seq::empty()
    } else {
        all_book_ids(seqs, start, len, books - 1) + book_ids(seqs, start, len, books - 1)
    }
}

/// What the embedding of a stretch of columns looks up.
pub struct Lookup {
    /// Rows of the token table, sequence by sequence.
    pub ids: Vec<u32>,
    /// Rows of the joint codebook table, codebook by codebook.
    pub codes: Vec<u32>,
    /// Where the codebooks count: at the semantic tokens.
    pub keep: Vec<bool>,
}

/// The rows of several sequences.
pub open spec fn seq_rows(seqs: Seq<Vec<Vec<u32>>>) -> Seq<Seq<Seq<u32>>> {
    Seq::new(seqs.len(), |i: int| grid::rows_view(seqs[i]@))
}

/// A stretch of columns lies inside every row, and the codes stay below the limit once they are
/// moved.
pub open spec fn embeddable(seqs: Seq<Seq<Seq<u32>>>, start: int, len: int) -> bool {
    forall|i: int|
        #![trigger seqs[i]]
        0 <= i < seqs.len() ==> seqs[i].len() == cfg::NUM_CODEBOOKS + 1 && forall|r: int|
            0 <= r < seqs[i].len() ==> start + len <= (#[trigger] seqs[i][r]).len() && (r > 0
                ==> forall|k: int|
                start <= k < start + len ==> (#[trigger] seqs[i][r][k]) + (r - 1)
                    * cfg::CODEBOOK_SIZE <= u32::MAX)
}

fn push_book(out: &mut Vec<u32>, row: &Vec<u32>, start: usize, len: usize, book: usize)
    requires
        book < cfg::NUM_CODEBOOKS,
        start + len <= row@.len(),
        forall|k: int|
            start <= k < start + len ==> (#[trigger] row@[k]) + book * cfg::CODEBOOK_SIZE
                <= u32::MAX,
    ensures
        final(out)@ == old(out)@ + offset_codes(
            row@.subrange(start as int, start + len),
            book as int,
        ),
{
    let base: u32 = (book * cfg::CODEBOOK_SIZE) as u32;
    let ghost want = offset_codes(row@.subrange(start as int, start + len), book as int);
    let mut i: usize = 0;
    assert(out@ + want.take(0) =~= out@);
    while i < len
        invariant
            i <= len,
            book < cfg::NUM_CODEBOOKS,
            base == book * cfg::CODEBOOK_SIZE,
            start + len <= row@.len(),
            forall|k: int|
                start <= k < start + len ==> (#[trigger] row@[k]) + book * cfg::CODEBOOK_SIZE
                    <= u32::MAX,
            want == offset_codes(row@.subrange(start as int, start + len), book as int),
            out@ == old(out)@ + want.take(i as int),
        decreases len - i,
    {
        assert(start + i < row.len());
        out.push(row[start + i] + base);
        assert(want[i as int] == (row@[start + i] + book * cfg::CODEBOOK_SIZE) as u32);
        i += 1;
        assert(old(out)@ + want.take(i as int) =~= (old(out)@ + want.take(i - 1)).push(
            want[i - 1],
        ));
    }
    assert(want.take(i as int) =~= want);
}

/// The table rows that the embedding of columns `start..start + len` of every sequence reads.
///
/// The codebook tables are slices of one joint table, so moving the codes by their codebook's
/// offset turns one lookup per codebook into one for all.
pub fn embed_lookup(seqs: &Vec<Vec<Vec<u32>>>, start: usize, len: usize) -> (r: Lookup)
    requires
        embeddable(seq_rows(seqs@), start as int, len as int),
        start + len <= usize::MAX,
    ensures
        r.ids@ == token_ids(seq_rows(seqs@), start as int, len as int),
        r.codes@ == all_book_ids(
            seq_rows(seqs@),
            start as int,
            len as int,
            cfg::NUM_CODEBOOKS as int,
        ),
        r.keep@.len() == r.ids@.len(),
        forall|k: int|
            0 <= k < r.ids@.len() ==> #[trigger] r.keep@[k] == cfg::semantic(r.ids@[k]),
{
    let ghost all = seq_rows(seqs@);
    let mut ids: Vec<u32> = Vec::new();
    let mut i: usize = 0;
    while i < seqs.len()
        invariant
            i <= seqs@.len(),
            all == seq_rows(seqs@),
            embeddable(all, start as int, len as int),
            start + len <= usize::MAX,
            ids@ == token_ids(all.take(i as int), start as int, len as int),
        decreases seqs@.len() - i,
    {
        assert(all[i as int][0].len() >= start + len);
        let part = copy_range(seqs[i][0].as_slice(), start, start + len);
        extend_copied(&mut ids, part.as_slice());
        assert(all.take(i + 1).drop_last() =~= all.take(i as int));
        i += 1;
    }
    assert(all.take(i as int) =~= all);
    let mut codes: Vec<u32> = Vec::new();
    let mut book: usize = 0;
    while book < cfg::NUM_CODEBOOKS
        invariant
            book <= cfg::NUM_CODEBOOKS,
            all == seq_rows(seqs@),
            embeddable(all, start as int, len as int),
            codes@ == all_book_ids(all, start as int, len as int, book as int),
        decreases cfg::NUM_CODEBOOKS - book,
    {
        let ghost done = codes@;
        let mut i: usize = 0;
        assert(done + book_ids(all.take(0), start as int, len as int, book as int) =~= done);
        while i < seqs.len()
            invariant
                i <= seqs@.len(),
                book < cfg::NUM_CODEBOOKS,
                all == seq_rows(seqs@),
                embeddable(all, start as int, len as int),
                codes@ == done + book_ids(
                    all.take(i as int),
                    start as int,
                    len as int,
                    book as int,
                ),
            decreases seqs@.len() - i,
        {
            assert(all[i as int][book + 1].len() >= start + len);
            assert(all[i as int][book + 1] == seqs@[i as int]@[book + 1]@);
            assert forall|k: int| start <= k < start + len implies (
            #[trigger] seqs@[i as int]@[book + 1]@[k]) + book * cfg::CODEBOOK_SIZE <= u32::MAX by {
                assert(all[i as int][book + 1][k] + (book + 1 - 1) * cfg::CODEBOOK_SIZE
                    <= u32::MAX);
            }
            push_book(&mut codes, &seqs[i][book + 1], start, len, book);
            proof {
                let next = all.take(i + 1);
                assert(next.drop_last() =~= all.take(i as int));
                let part = offset_codes(
                    all[i as int][book + 1].subrange(start as int, start + len),
                    book as int,
                );
                let before = book_ids(all.take(i as int), start as int, len as int, book as int);
                assert(done + before + part =~= done + (before + part));
            }
            i += 1;
        }
        assert(all.take(i as int) =~= all);
        book += 1;
    }
    let mut keep: Vec<bool> = Vec::new();
    let mut k: usize = 0;
    while k < ids.len()
        invariant
            k <= ids@.len(),
            keep@.len() == k,
            forall|j: int| 0 <= j < k ==> #[trigger] keep@[j] == cfg::semantic(ids@[j]),
        decreases ids@.len() - k,
    {
        let t = ids[k];
        keep.push(cfg::SEMANTIC_BEGIN_ID <= t && t <= cfg::SEMANTIC_END_ID);
        k += 1;
    }
    Lookup { ids, codes, keep }
}

} // verus!
