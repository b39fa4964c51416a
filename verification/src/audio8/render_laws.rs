//! What the renderings of one loaded engine have in common.

use crate::assemble;
use crate::assemble::Piece;
use crate::audio8::ar;
use crate::audio8::ar::BatchView;
use crate::audio8::cfg;
use crate::audio8::engine;
use crate::audio8::engine::{Plan, Schedule, Spoken};
use crate::audio8::prompt;
use crate::audio8::prompt::{Prompt, PromptError};
use crate::engine::{alike, manner, same_sound, Asked, Sampling, Utterance};
use crate::grid;
use crate::order;
use crate::rng;
use crate::settings;
use crate::text;
use crate::tokens;
use crate::voice;
use tokenizers::Tokenizer;
use vstd::prelude::*;

verus! {

/// A loaded engine. What its networks compute is a function of what they are given and, where they
/// draw, of how they are to draw and of the generator's state: nothing else is kept from one request
/// to the next.
#[verifier::reject_recursive_types(S)]
#[verifier::reject_recursive_types(T)]
pub struct Loaded<S, T> {
    pub tokenizer: Tokenizer,
    pub max_batch: nat,
    /// The token drawn for each live lane.
    pub draw: spec_fn((Sampling, S), BatchView, rng::State) -> (Seq<u32>, rng::State),
    /// The frame drawn for each live lane behind its token.
    pub codebooks: spec_fn((Sampling, S), BatchView, Seq<u32>, rng::State) -> (
        Seq<Seq<u32>>,
        rng::State,
    ),
    /// The waveform of a segment's codes.
    pub codec: spec_fn(Seq<Seq<u32>>) -> Seq<T>,
    pub zero: T,
}

/// What one rendering of a request goes through.
#[verifier::reject_recursive_types(T)]
pub struct Rendering<T> {
    pub plan: Plan,
    pub prompts: Seq<Prompt>,
    pub schedule: Schedule,
    /// The batch of each group before its first step, and the steps that it took.
    pub batches: Seq<BatchView>,
    pub steps: Seq<nat>,
    /// The codes of each group's prompts.
    pub outs: Seq<Seq<Seq<Seq<u32>>>>,
    /// Those of all groups, one behind the other.
    pub results: Seq<Vec<Vec<u32>>>,
    /// Those of all segments in reading order.
    pub codes: Seq<Vec<Vec<u32>>>,
    pub spoken: Seq<Spoken>,
    pub pieces: Seq<Piece<T>>,
}

/// The codes of several prompts.
pub open spec fn codes_views(v: Seq<Vec<Vec<u32>>>) -> Seq<Seq<Seq<u32>>> {
    Seq::new(v.len(), |i: int| grid::rows_view(v[i]@))
}

/// The tokens that the lanes are fed: those drawn, zero where a lane is done.
pub open spec fn semantics(b: BatchView, drawn: Seq<u32>) -> Seq<u32> {
    Seq::new(
        b.live,
        |i: int|
            if b.lanes[i].done {
                0u32
            } else {
                drawn[i]
            },
    )
}

/// There is no step left, or no live lane is running.
pub open spec fn over(b: BatchView) -> bool {
    b.step >= b.budget || !ar::running(b)
}

/// A batch and the generator after one more step.
pub open spec fn step<S, T>(
    e: Loaded<S, T>,
    how: (Sampling, S),
    b: BatchView,
    g: rng::State,
) -> (BatchView, rng::State) {
    if over(b) {
        (b, g)
    } else {
        let (drawn, h) = (e.draw)(how, b, g);
        let c = ar::heard(b, drawn);
        if over(c) {
            (c, h)
        } else {
            let fed = semantics(c, drawn);
            let (frames, k) = (e.codebooks)(how, c, fed, h);
            (ar::fed(c, fed, frames), k)
        }
    }
}

/// A batch and the generator after `n` steps.
pub open spec fn course<S, T>(
    e: Loaded<S, T>,
    how: (Sampling, S),
    b: BatchView,
    g: rng::State,
    n: nat,
) -> (BatchView, rng::State)
    decreases n,
{
    if n == 0 {
        (b, g)
    } else {
        let (c, h) = course(e, how, b, g, (n - 1) as nat);
        step(e, how, c, h)
    }
}

/// The generator before group `k`.
pub open spec fn drawn_before<S, T>(
    e: Loaded<S, T>,
    p: Asked<S>,
    r: Rendering<T>,
    k: nat,
) -> rng::State
    decreases k,
{
    if k == 0 {
        rng::seeded(p.request.sampling.seed)
    } else {
        let n = (k - 1) as nat;
        course(e, manner(p), r.batches[n as int], drawn_before(e, p, r, n), r.steps[n as int]).1
    }
}

/// The batch of group `k` after its last step.
pub open spec fn ended<S, T>(
    e: Loaded<S, T>,
    p: Asked<S>,
    r: Rendering<T>,
    k: int,
) -> BatchView {
    course(e, manner(p), r.batches[k], drawn_before(e, p, r, k as nat), r.steps[k]).0
}

/// The prompts of group `k`.
pub open spec fn together<T>(r: Rendering<T>, k: int) -> Seq<Prompt> {
    let group = r.schedule.groups@[k]@;
    Seq::new(group.len(), |j: int| r.prompts[group[j] as int])
}

/// What is said in the reference of a plan, and its codes.
pub open spec fn said_in(p: Plan) -> Option<Seq<char>> {
    match p.reference {
        Some(c) => Some(c.text@),
        None => None,
    }
}

pub open spec fn codes_in(p: Plan) -> Option<Seq<Seq<u32>>> {
    match p.reference {
        Some(c) => Some(grid::rows_view(c.codes@)),
        None => None,
    }
}

/// `p` is the prompt of a segment.
pub open spec fn prompted<S, T>(
    e: Loaded<S, T>,
    plan: Plan,
    t: Seq<char>,
    p: Prompt,
) -> bool {
    prompt::assembled(
        Ok::<Prompt, PromptError>(p),
        prompt::joined_ids(e.tokenizer, prompt::front_turns(t, said_in(plan))),
        codes_in(plan),
        prompt::joined_ids(e.tokenizer, prompt::back_turns(t, said_in(plan))),
    )
}

/// The request was planned, prompted and scheduled.
pub open spec fn laid_out<S, T>(e: Loaded<S, T>, p: Asked<S>, r: Rendering<T>) -> bool {
    let n = r.plan.segments@.len();
    let groups = grid::rows_view(r.schedule.groups@);
    let planned = ar::planned(n, e.max_batch);
    &&& settings::fixed(e.tokenizer)
    &&& n <= usize::MAX
    &&& assemble::numbered(r.plan.segments@) == assemble::flat(
        text::segmented(p.request.text@, p.request.max_chars as nat),
    )
    &&& r.plan.reference is Some <==> p.request.voice is Some
    &&& r.plan.reference matches Some(c) ==> c.text@ == p.request.voice->0.text@ && voice::reads_rows(
        voice::found(p.request.voice->0.tensors@, "reference_codes"@)->0,
        grid::rows_view(c.codes@),
    )
    &&& r.prompts.len() == n
    &&& forall|i: int|
        0 <= i < n ==> prompted(e, r.plan, r.plan.segments@[i].1@, #[trigger] r.prompts[i])
    &&& order::ordered(ar::lengths(r.prompts), false, r.schedule.order@)
    &&& grid::flat_rows(groups) == r.schedule.order@
    &&& groups.len() == planned.len()
    &&& forall|g: int| 0 <= g < groups.len() ==> (#[trigger] groups[g]).len() == planned[g].len()
}

/// Every group was decoded to its end.
pub open spec fn decoded<S, T>(e: Loaded<S, T>, p: Asked<S>, r: Rendering<T>) -> bool {
    let n = r.schedule.groups@.len();
    &&& r.batches.len() == n
    &&& r.steps.len() == n
    &&& r.outs.len() == n
    &&& forall|k: int|
        0 <= k < n ==> ar::starts(
            #[trigger] r.batches[k],
            together(r, k),
            p.request.max_new_tokens as nat,
        )
    &&& forall|k: int| 0 <= k < n ==> over(#[trigger] ended(e, p, r, k))
    &&& forall|k: int|
        0 <= k < n ==> handed_back(ended(e, p, r, k), #[trigger] r.outs[k])
    &&& codes_views(r.results) == grid::flat_rows(r.outs)
}

/// `out` are the codes of a batch's prompts, in the order in which the prompts were given.
pub open spec fn handed_back(b: BatchView, out: Seq<Seq<Seq<u32>>>) -> bool {
    &&& out.len() == b.lanes.len()
    &&& forall|j: int|
        0 <= j < b.lanes.len() ==> out[(#[trigger] b.order[j]) as int] == grid::transposed(
            b.lanes[j].frames,
            cfg::NUM_CODEBOOKS as nat,
        )
}

/// The codes were put in reading order, turned into audio and joined.
pub open spec fn joined<S, T>(
    e: Loaded<S, T>,
    p: Asked<S>,
    r: Rendering<T>,
    said: Utterance<T>,
) -> bool {
    &&& r.results.len() == r.schedule.order@.len()
    &&& r.codes.len() == r.schedule.order@.len()
    &&& forall|k: int|
        0 <= k < r.schedule.order@.len() ==> grid::rows_view(
            r.codes[(#[trigger] r.schedule.order@[k]) as int]@,
        ) == grid::rows_view(r.results[k]@)
    &&& forall|i: int| 0 <= i < r.codes.len() ==> (#[trigger] r.codes[i])@.len() > 0
    &&& engine::spoken_of(r.spoken, r.plan.segments@, r.codes)
    &&& r.pieces.len() == r.spoken.len()
    &&& forall|k: int|
        0 <= k < r.pieces.len() ==> (#[trigger] r.pieces[k]).para == r.spoken[k].para
            && r.pieces[k].samples@ == (e.codec)(
            grid::rows_view(r.codes[r.spoken[k].index as int]@),
        )
    &&& said.samples@ == engine::uttered(p.request, assemble::piece_views(r.pieces), e.zero)
    &&& said.sample_rate == cfg::SAMPLE_RATE
}

/// Every stage did what its contract says.
pub open spec fn renders<S, T>(
    e: Loaded<S, T>,
    p: Asked<S>,
    r: Rendering<T>,
    said: Utterance<T>,
) -> bool {
    laid_out(e, p, r) && decoded(e, p, r) && joined(e, p, r, said)
}

/// Once a batch is over it stays as it is.
proof fn lemma_over_stays<S, T>(
    e: Loaded<S, T>,
    how: (Sampling, S),
    b: BatchView,
    g: rng::State,
    n: nat,
    m: nat,
)
    requires
        n <= m,
        over(course(e, how, b, g, n).0),
    ensures
        course(e, how, b, g, m) == course(e, how, b, g, n),
    decreases m,
{
    if n < m {
        lemma_over_stays(e, how, b, g, n, (m - 1) as nat);
    }
}

/// Decoding leaves the lanes in their places.
proof fn lemma_course_keeps<S, T>(
    e: Loaded<S, T>,
    how: (Sampling, S),
    b: BatchView,
    g: rng::State,
    n: nat,
)
    ensures
        course(e, how, b, g, n).0.order == b.order,
        course(e, how, b, g, n).0.lanes.len() == b.lanes.len(),
    decreases n,
{
    if n > 0 {
        lemma_course_keeps(e, how, b, g, (n - 1) as nat);
    }
}

/// Prompts that hold the same start as the same batch.
pub proof fn batches_are_determined(
    p: Seq<Prompt>,
    q: Seq<Prompt>,
    a: BatchView,
    b: BatchView,
    max_new_tokens: nat,
)
    requires
        p.len() == q.len() <= usize::MAX,
        forall|i: int|
            0 <= i < p.len() ==> (#[trigger] p[i]).len == q[i].len && grid::rows_view(p[i].rows@)
                == grid::rows_view(q[i].rows@),
        ar::starts(a, p, max_new_tokens),
        ar::starts(b, q, max_new_tokens),
    ensures
        a == b,
        order::permutation(a.order, a.lanes.len()),
{
    let lens = ar::lengths(p);
    assert(lens =~= ar::lengths(q));
    order::the_stable_order_is_unique(lens, true, a.order, b.order);
    order::lemma_ordered_permutation(lens, true, a.order);
    assert(a.width == b.width) by {
        let i = choose|i: int| 0 <= i < lens.len() && #[trigger] lens[i] == a.width;
        let j = choose|j: int| 0 <= j < lens.len() && #[trigger] lens[j] == b.width;
        assert(lens[i] <= b.width);
        assert(lens[j] <= a.width);
    }
    assert(a.lanes =~= b.lanes) by {
        assert forall|k: int| 0 <= k < a.lanes.len() implies #[trigger] a.lanes[k] == b.lanes[k] by {
            let i = a.order[k] as int;
            assert(p[i].len == q[i].len);
        }
    }
}

/// The prompts and the schedule of a request are the same every time.
proof fn lemma_same_layout<S, T>(
    e: Loaded<S, T>,
    p: Asked<S>,
    q: Asked<S>,
    a: Rendering<T>,
    b: Rendering<T>,
)
    requires
        alike(p, q),
        laid_out(e, p, a),
        laid_out(e, q, b),
    ensures
        assemble::numbered(a.plan.segments@) == assemble::numbered(b.plan.segments@),
        a.prompts.len() == b.prompts.len(),
        forall|i: int|
            0 <= i < a.prompts.len() ==> (#[trigger] a.prompts[i]).len == b.prompts[i].len
                && grid::rows_view(a.prompts[i].rows@) == grid::rows_view(b.prompts[i].rows@),
        a.schedule.order@ == b.schedule.order@,
        order::permutation(a.schedule.order@, a.prompts.len()),
        grid::rows_view(a.schedule.groups@) == grid::rows_view(b.schedule.groups@),
{
    let (x, y) = (a.plan.segments@, b.plan.segments@);
    assert(assemble::numbered(x).len() == assemble::numbered(y).len());
    if a.plan.reference is Some {
        voice::a_tensor_has_one_reading(
            voice::found(p.request.voice->0.tensors@, "reference_codes"@)->0,
            grid::rows_view(a.plan.reference->0.codes@),
            grid::rows_view(b.plan.reference->0.codes@),
        );
    }
    assert(codes_in(a.plan) == codes_in(b.plan));
    assert(said_in(a.plan) == said_in(b.plan));
    assert forall|i: int| 0 <= i < a.prompts.len() implies (#[trigger] a.prompts[i]).len
        == b.prompts[i].len && grid::rows_view(a.prompts[i].rows@) == grid::rows_view(
        b.prompts[i].rows@,
    ) by {
        assert(assemble::numbered(x)[i] == assemble::numbered(y)[i]);
        assert(x[i].1@ == y[i].1@);
        assert(prompted(e, a.plan, x[i].1@, a.prompts[i]));
        assert(prompted(e, b.plan, y[i].1@, b.prompts[i]));
    }
    let lens = ar::lengths(a.prompts);
    assert(lens =~= ar::lengths(b.prompts)) by {
        assert forall|i: int| 0 <= i < lens.len() implies #[trigger] lens[i] == ar::lengths(
            b.prompts,
        )[i] by {
            assert(a.prompts[i].len == b.prompts[i].len);
        }
    }
    order::the_stable_order_is_unique(lens, false, a.schedule.order@, b.schedule.order@);
    order::lemma_ordered_permutation(lens, false, a.schedule.order@);
    let (s, t) = (grid::rows_view(a.schedule.groups@), grid::rows_view(b.schedule.groups@));
    assert forall|g: int| 0 <= g < s.len() implies (#[trigger] s[g]).len() == t[g].len() by {
        assert(t[g].len() == ar::planned(x.len(), e.max_batch)[g].len());
    }
    grid::rows_are_determined(s, t);
}

/// A group's numbers are those of prompts.
proof fn lemma_groups_in_range<S, T>(
    e: Loaded<S, T>,
    p: Asked<S>,
    r: Rendering<T>,
    k: int,
    j: int,
)
    requires
        laid_out(e, p, r),
        0 <= k < r.schedule.groups@.len(),
        0 <= j < r.schedule.groups@[k]@.len(),
    ensures
        r.schedule.groups@[k]@[j] < r.prompts.len(),
        r.schedule.groups@[k]@.len() <= r.prompts.len(),
{
    let groups = grid::rows_view(r.schedule.groups@);
    grid::lemma_flat_holds(groups, k, j);
    let at = choose|at: int|
        0 <= at < r.schedule.order@.len() && #[trigger] r.schedule.order@[at] == groups[k][j];
    assert(r.schedule.order@[at] < r.prompts.len());
}

/// Group by group, the draws of two renderings are the same.
proof fn lemma_same_runs<S, T>(
    e: Loaded<S, T>,
    p: Asked<S>,
    q: Asked<S>,
    a: Rendering<T>,
    b: Rendering<T>,
    k: nat,
)
    requires
        alike(p, q),
        laid_out(e, p, a),
        laid_out(e, q, b),
        decoded(e, p, a),
        decoded(e, q, b),
        k <= a.schedule.groups@.len(),
    ensures
        drawn_before(e, p, a, k) == drawn_before(e, q, b, k),
        forall|i: int|
            0 <= i < k ==> #[trigger] a.outs[i] == b.outs[i],
    decreases k,
{
    lemma_same_layout(e, p, q, a, b);
    if k > 0 {
        let n = (k - 1) as nat;
        let i = n as int;
        lemma_same_runs(e, p, q, a, b, n);
        let (s, t) = (grid::rows_view(a.schedule.groups@), grid::rows_view(b.schedule.groups@));
        assert(s[i] == t[i]);
        let (these, those) = (together(a, i), together(b, i));
        assert(these.len() == those.len());
        assert(these.len() <= usize::MAX) by {
            if these.len() > 0 {
                lemma_groups_in_range(e, p, a, i, 0);
            }
        }
        assert forall|j: int| 0 <= j < these.len() implies (#[trigger] these[j]).len
            == those[j].len && grid::rows_view(these[j].rows@) == grid::rows_view(
            those[j].rows@,
        ) by {
            lemma_groups_in_range(e, p, a, i, j);
            let at = s[i][j] as int;
            assert(a.prompts[at].len == b.prompts[at].len);
        }
        batches_are_determined(
            these,
            those,
            a.batches[i],
            b.batches[i],
            p.request.max_new_tokens as nat,
        );
        let g = drawn_before(e, p, a, n);
        let start = a.batches[i];
        assert(over(ended(e, p, a, i)) && over(ended(e, q, b, i)));
        if a.steps[i] <= b.steps[i] {
            lemma_over_stays(e, manner(p), start, g, a.steps[i], b.steps[i]);
        } else {
            lemma_over_stays(e, manner(p), start, g, b.steps[i], a.steps[i]);
        }
        lemma_course_keeps(e, manner(p), start, g, a.steps[i]);
        let end = ended(e, p, a, i);
        assert(end == ended(e, q, b, i));
        assert(handed_back(end, a.outs[i]) && handed_back(end, b.outs[i]));
        assert(a.outs[i] =~= b.outs[i]) by {
            assert forall|x: int| 0 <= x < a.outs[i].len() implies #[trigger] a.outs[i][x]
                == b.outs[i][x] by {
                assert(end.order.contains(order::keys_index(x)));
                let j = choose|j: int|
                    0 <= j < end.order.len() && #[trigger] end.order[j] == order::keys_index(x);
                assert(a.outs[i][end.order[j] as int] == b.outs[i][end.order[j] as int]);
            }
        }
    }
}

/// Segments with the same codes come to something together.
proof fn lemma_same_sounding(x: Seq<Vec<Vec<u32>>>, y: Seq<Vec<Vec<u32>>>)
    requires
        x.len() == y.len(),
        forall|i: int|
            0 <= i < x.len() ==> (#[trigger] x[i])@.len() > 0 && grid::rows_view(x[i]@)
                == grid::rows_view(y[i]@),
    ensures
        engine::sounding(x) == engine::sounding(y),
    decreases x.len(),
{
    if x.len() > 0 {
        let (a, b) = (x.drop_last(), y.drop_last());
        assert forall|i: int| 0 <= i < a.len() implies (#[trigger] a[i])@.len() > 0
            && grid::rows_view(a[i]@) == grid::rows_view(b[i]@) by {
            assert(x[i] == a[i]);
        }
        lemma_same_sounding(a, b);
        let n = x.len() - 1;
        assert(x[n]@.len() > 0);
        assert(grid::rows_view(x[n]@).len() == grid::rows_view(y[n]@).len());
        assert(grid::rows_view(x[n]@)[0] == x[n]@[0]@);
        assert(grid::rows_view(y[n]@)[0] == y[n]@[0]@);
    }
}

/// A seed makes a rendering repeatable: two requests that ask for the same of one loaded engine are
/// given the same samples at the same rate.
pub proof fn one_request_sounds_the_same<S, T>(
    e: Loaded<S, T>,
    p: Asked<S>,
    q: Asked<S>,
    a: Rendering<T>,
    b: Rendering<T>,
    x: Utterance<T>,
    y: Utterance<T>,
)
    requires
        alike(p, q),
        renders(e, p, a, x),
        renders(e, q, b, y),
    ensures
        same_sound(x, y),
{
    lemma_same_layout(e, p, q, a, b);
    lemma_same_runs(e, p, q, a, b, a.schedule.groups@.len());
    assert(a.schedule.groups@.len() == b.schedule.groups@.len()) by {
        assert(grid::rows_view(a.schedule.groups@).len() == grid::rows_view(
            b.schedule.groups@,
        ).len());
    }
    assert(a.outs =~= b.outs);
    let order = a.schedule.order@;
    assert forall|i: int| 0 <= i < a.codes.len() implies (#[trigger] a.codes[i])@.len() > 0
        && grid::rows_view(a.codes[i]@) == grid::rows_view(b.codes[i]@) by {
        assert(order.contains(order::keys_index(i)));
        let k = choose|k: int| 0 <= k < order.len() && #[trigger] order[k] == order::keys_index(i);
        assert(codes_views(a.results)[k] == codes_views(b.results)[k]);
        assert(grid::rows_view(a.codes[order[k] as int]@) == grid::rows_view(a.results[k]@));
        assert(grid::rows_view(b.codes[order[k] as int]@) == grid::rows_view(b.results[k]@));
    }
    lemma_same_sounding(a.codes, b.codes);
    let (s, t) = (a.plan.segments@, b.plan.segments@);
    assert(assemble::numbered(s).len() == assemble::numbered(t).len());
    assert(assemble::piece_views(a.pieces) =~= assemble::piece_views(b.pieces)) by {
        assert forall|k: int| 0 <= k < a.pieces.len() implies #[trigger] assemble::piece_view(
            a.pieces[k],
        ) == assemble::piece_view(b.pieces[k]) by {
            let (u, v) = (a.spoken[k], b.spoken[k]);
            assert(u.index == v.index);
            let i = u.index as int;
            assert(a.codes[i]@.len() > 0);
            assert(assemble::numbered(s)[i] == assemble::numbered(t)[i]);
            assert(a.pieces[k].para == u.para && b.pieces[k].para == v.para);
        }
    }
}

/// A call of a loaded engine: what was asked, what it went through and what was said.
#[verifier::reject_recursive_types(S)]
#[verifier::reject_recursive_types(T)]
pub struct Called<S, T> {
    pub asked: Asked<S>,
    pub rendering: Rendering<T>,
    pub said: Utterance<T>,
}

/// Whatever calls came between, an engine that is asked for the same again says the same again.
pub proof fn calls_leave_nothing_behind<S, T>(
    e: Loaded<S, T>,
    calls: Seq<Called<S, T>>,
    i: int,
    j: int,
)
    requires
        0 <= i < j < calls.len(),
        forall|k: int|
            0 <= k < calls.len() ==> renders(
                e,
                (#[trigger] calls[k]).asked,
                calls[k].rendering,
                calls[k].said,
            ),
        alike(calls[i].asked, calls[j].asked),
    ensures
        same_sound(calls[i].said, calls[j].said),
{
    one_request_sounds_the_same(
        e,
        calls[i].asked,
        calls[j].asked,
        calls[i].rendering,
        calls[j].rendering,
        calls[i].said,
        calls[j].said,
    );
}

} // verus!
