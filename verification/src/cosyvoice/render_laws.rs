//! What the renderings of one loaded engine have in common.

use crate::assemble;
use crate::cosyvoice::cfg;
use crate::cosyvoice::engine;
use crate::cosyvoice::engine::{Call, Conditioning, Span};
use crate::cosyvoice::llm;
use crate::cosyvoice::llm::{BatchView, Segment};
use crate::engine::{alike, manner, same_sound, Asked, Sampling, Utterance};
use crate::grid;
use crate::order;
use crate::rng;
use crate::settings;
use crate::text;
use crate::tokens;
use crate::tokens::Tokens;
use crate::voice;
use crate::voice::Voice;
use candle_core::Tensor;
use tokenizers::Tokenizer;
use vstd::prelude::*;

verus! {

/// What the flow decoder and the vocoder are told of the voice: its clip's speech tokens, and the
/// shape and the elements of its mel and of its speaker embedding.
pub struct Clip {
    pub tokens: Seq<u32>,
    pub mel: (Seq<usize>, Seq<u64>),
    pub speaker: (Seq<usize>, Seq<u64>),
}

/// A loaded engine. What its networks compute is a function of what they are given and, where they
/// draw, of how they are to draw and of the generator's state: nothing else is kept from one request
/// to the next.
#[verifier::reject_recursive_types(S)]
#[verifier::reject_recursive_types(T)]
pub struct Loaded<S, T> {
    pub tokenizer: Tokenizer,
    pub llm_batch: int,
    /// The mel frames that the fixed noise covers.
    pub max_frames: int,
    pub flow_per_segment: bool,
    /// The token drawn for each live lane.
    pub draw: spec_fn((Sampling, S), BatchView, rng::State) -> (Seq<u32>, rng::State),
    /// The waveform of some speech tokens in the voice of a clip.
    pub sound: spec_fn(Clip, Seq<u32>, rng::State) -> (Seq<T>, rng::State),
    pub zero: T,
}

/// What a flow call takes.
pub struct CallView {
    pub tokens: Seq<u32>,
    pub paras: Seq<usize>,
    pub lens: Seq<usize>,
}

/// What one rendering of a request goes through.
pub struct Rendering {
    pub cond: Conditioning,
    pub segments: Seq<(usize, String)>,
    pub tokens: Seq<Tokens>,
    pub prompts: Seq<Segment>,
    /// The batch of each run of prompts before its first step, and the steps that it took.
    pub batches: Seq<BatchView>,
    pub steps: Seq<nat>,
    /// The speech tokens of each run's prompts.
    pub outs: Seq<Seq<Seq<u32>>>,
    /// Those of all segments.
    pub generated: Seq<Vec<u32>>,
    pub spans: Seq<Span>,
    pub groups: Seq<Vec<usize>>,
    pub calls: Seq<Call>,
}

/// A tensor as the networks see it.
pub open spec fn seen(t: Tensor) -> (Seq<usize>, Seq<u64>) {
    (voice::shape(t), voice::content(t))
}

/// What the decoder is told of the voice in a rendering.
pub open spec fn clip_in(r: Rendering) -> Clip {
    Clip { tokens: r.cond.tokens@, mel: seen(r.cond.mel), speaker: seen(r.cond.speaker) }
}

pub open spec fn call_view(c: Call) -> CallView {
    CallView { tokens: c.tokens@, paras: c.paras@, lens: c.lens@ }
}

/// Every lane has finished, or no lane was given a step.
pub open spec fn over(b: BatchView) -> bool {
    b.live == 0 || b.step >= llm::last_step(b.lanes)
}

/// A batch and the generator after one more step.
pub open spec fn step<S, T>(
    e: Loaded<S, T>,
    how: (Sampling, S),
    b: BatchView,
    g: rng::State,
) -> (BatchView, rng::State) {
    if over(b) {
        (b, g)
    } else {
        let (drawn, h) = (e.draw)(how, b, g);
        (llm::heard(b, drawn), h)
    }
}

/// A batch and the generator after `n` steps.
pub open spec fn course<S, T>(
    e: Loaded<S, T>,
    how: (Sampling, S),
    b: BatchView,
    g: rng::State,
    n: nat,
) -> (BatchView, rng::State)
    decreases n,
{
    if n == 0 {
        (b, g)
    } else {
        let (c, h) = course(e, how, b, g, (n - 1) as nat);
        step(e, how, c, h)
    }
}

/// The generator before run `k`.
pub open spec fn drawn_before<S, T>(
    e: Loaded<S, T>,
    p: Asked<S>,
    r: Rendering,
    k: nat,
) -> rng::State
    decreases k,
{
    if k == 0 {
        rng::seeded(p.request.sampling.seed)
    } else {
        let n = (k - 1) as nat;
        course(e, manner(p), r.batches[n as int], drawn_before(e, p, r, n), r.steps[n as int]).1
    }
}

/// The batch of run `k` after its last step.
pub open spec fn ended<S, T>(
    e: Loaded<S, T>,
    p: Asked<S>,
    r: Rendering,
    k: int,
) -> BatchView {
    course(e, manner(p), r.batches[k], drawn_before(e, p, r, k as nat), r.steps[k]).0
}

/// Which prompts decode together.
pub open spec fn runs_in<S, T>(e: Loaded<S, T>, r: Rendering) -> Seq<(usize, usize)> {
    engine::runs(0, r.prompts.len() as int, e.llm_batch)
}

/// The prompts of run `k`.
pub open spec fn together<S, T>(e: Loaded<S, T>, r: Rendering, k: int) -> Seq<Segment> {
    let (from, to) = runs_in(e, r)[k];
    r.prompts.subrange(from as int, to as int)
}

/// `out` are the speech tokens of a batch's prompts, in the order in which they were given.
pub open spec fn handed_back(b: BatchView, out: Seq<Seq<u32>>) -> bool {
    &&& out.len() == b.lanes.len()
    &&& forall|j: int|
        0 <= j < b.lanes.len() ==> out[(#[trigger] b.order[j]) as int] == b.lanes[j].out
}

/// The pieces of the first `n` calls, and the generator behind them.
pub open spec fn pieces_of<S, T>(
    e: Loaded<S, T>,
    clip: Clip,
    calls: Seq<CallView>,
    g: rng::State,
    n: int,
) -> (Seq<(int, Seq<T>)>, rng::State)
    decreases n,
{
    if n <= 0 {
        (Seq::empty(), g)
    } else {
        let (pieces, h) = pieces_of(e, clip, calls, g, n - 1);
        let c = calls[n - 1];
        if c.tokens.len() == 0 {
            (pieces, h)
        } else {
            let (samples, k) = (e.sound)(clip, c.tokens, h);
            (
                pieces + assemble::cut_pieces(
                    c.paras,
                    c.lens,
                    engine::SAMPLES_PER_TOKEN as nat,
                    samples,
                    c.lens.len() as int,
                ),
                k,
            )
        }
    }
}

/// The request was planned, tokenized and prompted.
pub open spec fn laid_out<S, T>(e: Loaded<S, T>, p: Asked<S>, r: Rendering) -> bool {
    &&& p.request.voice is Some
    &&& settings::fixed(e.tokenizer)
    &&& e.llm_batch > 0
    &&& engine::conditions(p.request.voice->0, r.cond)
    &&& assemble::numbered(r.segments) == assemble::flat(
        text::segmented(p.request.text@, p.request.max_chars as nat),
    )
    &&& tokens::tokens_of(
        r.tokens,
        r.segments,
        tokens::encodings(e.tokenizer, r.segments, true),
    )
    &&& engine::prompted(r.prompts, r.cond, r.tokens)
    &&& r.prompts.len() <= usize::MAX
}

/// Every run of prompts was decoded to its end.
pub open spec fn decoded<S, T>(e: Loaded<S, T>, p: Asked<S>, r: Rendering) -> bool {
    let n = runs_in(e, r).len();
    &&& r.batches.len() == n
    &&& r.steps.len() == n
    &&& r.outs.len() == n
    &&& forall|k: int| 0 <= k < n ==> llm::starts(#[trigger] r.batches[k], together(e, r, k))
    &&& forall|k: int| 0 <= k < n ==> over(#[trigger] ended(e, p, r, k))
    &&& forall|k: int|
        0 <= k < n ==> handed_back(ended(e, p, r, k), #[trigger] r.outs[k])
    &&& grid::rows_view(r.generated) == grid::flat_rows(r.outs)
}

/// The speech tokens were grouped, turned into audio and joined.
pub open spec fn joined<S, T>(
    e: Loaded<S, T>,
    p: Asked<S>,
    r: Rendering,
    said: Utterance<T>,
) -> bool {
    let budget = engine::group_tokens(
        e.max_frames,
        r.cond.tokens@.len() as int,
        e.flow_per_segment,
    );
    let g = drawn_before(e, p, r, r.outs.len());
    &&& r.generated.len() == r.tokens.len()
    &&& engine::spans_of(r.spans, r.tokens, r.generated)
    &&& r.spans.len() <= usize::MAX
    &&& grid::rows_view(r.groups) == engine::filled(
        engine::speech_lens(r.spans),
        budget,
        r.spans.len() as int,
    ).groups
    &&& r.calls.len() == r.groups.len()
    &&& forall|k: int|
        0 <= k < r.calls.len() ==> engine::call_of(#[trigger] r.calls[k], r.spans, r.groups[k]@)
    &&& said.samples@ == engine::uttered(
        p.request,
        pieces_of(e, clip_in(r), call_views(r.calls), g, r.calls.len() as int).0,
        e.zero,
    )
    &&& said.sample_rate == cfg::SAMPLE_RATE
}

pub open spec fn call_views(calls: Seq<Call>) -> Seq<CallView> {
    Seq::new(calls.len(), |k: int| call_view(calls[k]))
}

/// Every stage did what its contract says.
pub open spec fn renders<S, T>(
    e: Loaded<S, T>,
    p: Asked<S>,
    r: Rendering,
    said: Utterance<T>,
) -> bool {
    laid_out(e, p, r) && decoded(e, p, r) && joined(e, p, r, said)
}

proof fn lemma_one_first_row(t: Tensor, a: Seq<u32>, b: Seq<u32>)
    requires
        engine::first_row_of(t, a),
        engine::first_row_of(t, b),
    ensures
        a == b,
{
    let x = choose|rows: Seq<Seq<u32>>| #[trigger]
        voice::reads_rows(t, rows) && rows.len() > 0 && rows[0] == a;
    let y = choose|rows: Seq<Seq<u32>>| #[trigger]
        voice::reads_rows(t, rows) && rows.len() > 0 && rows[0] == b;
    voice::a_tensor_has_one_reading(t, x, y);
}

/// A voice conditions in one way only.
pub proof fn conditioning_is_determined(v: Voice, a: Conditioning, b: Conditioning)
    requires
        engine::conditions(v, a),
        engine::conditions(v, b),
    ensures
        a.tokens@ == b.tokens@,
        a.text_tokens@ == b.text_tokens@,
        seen(a.mel) == seen(b.mel),
        seen(a.speaker) == seen(b.speaker),
{
    lemma_one_first_row(engine::carried(v, "speech_tokens"@)->0, a.tokens@, b.tokens@);
    lemma_one_first_row(
        engine::carried(v, "prompt_text_tokens"@)->0,
        a.text_tokens@,
        b.text_tokens@,
    );
}

/// Two prompts hold the same.
pub open spec fn same_prompt(s: Segment, t: Segment) -> bool {
    s.text@ == t.text@ && s.speech@ == t.speech@ && s.text_len == t.text_len
}

/// So do the prompts of two lists, one by one.
pub open spec fn same_prompts(p: Seq<Segment>, q: Seq<Segment>) -> bool {
    p.len() == q.len() && forall|i: int| 0 <= i < p.len() ==> same_prompt(#[trigger] p[i], q[i])
}

proof fn lemma_same_width(p: Seq<Segment>, q: Seq<Segment>)
    requires
        same_prompts(p, q),
    ensures
        llm::widest(p) == llm::widest(q),
    decreases p.len(),
{
    if p.len() > 0 {
        let (a, b) = (p.drop_last(), q.drop_last());
        assert forall|i: int| 0 <= i < a.len() implies same_prompt(#[trigger] a[i], b[i]) by {
            assert(same_prompt(p[i], q[i]));
        }
        lemma_same_width(a, b);
        assert(same_prompt(p[p.len() - 1], q[q.len() - 1]));
    }
}

/// Prompts that hold the same start as the same batch.
pub proof fn batches_are_determined(
    p: Seq<Segment>,
    q: Seq<Segment>,
    a: BatchView,
    b: BatchView,
)
    requires
        p.len() <= usize::MAX,
        same_prompts(p, q),
        llm::starts(a, p),
        llm::starts(b, q),
    ensures
        a == b,
        order::permutation(a.order, a.lanes.len()),
{
    let lens = llm::text_lens(p);
    assert(lens =~= llm::text_lens(q)) by {
        assert forall|i: int| 0 <= i < lens.len() implies #[trigger] lens[i] == llm::text_lens(
            q,
        )[i] by {
            assert(same_prompt(p[i], q[i]));
        }
    }
    order::the_stable_order_is_unique(lens, true, a.order, b.order);
    order::lemma_ordered_permutation(lens, true, a.order);
    lemma_same_width(p, q);
    assert(a.lanes =~= b.lanes) by {
        assert forall|k: int| 0 <= k < a.lanes.len() implies #[trigger] a.lanes[k] == b.lanes[k] by {
            let i = a.order[k] as int;
            assert(same_prompt(p[i], q[i]));
        }
    }
    assert(a.prompts =~= b.prompts) by {
        assert forall|k: int| 0 <= k < a.prompts.len() implies #[trigger] a.prompts[k]
            == b.prompts[k] by {
            let i = a.order[k] as int;
            assert(same_prompt(p[i], q[i]));
        }
    }
}

/// Once a batch is over it stays as it is.
proof fn lemma_over_stays<S, T>(
    e: Loaded<S, T>,
    how: (Sampling, S),
    b: BatchView,
    g: rng::State,
    n: nat,
    m: nat,
)
    requires
        n <= m,
        over(course(e, how, b, g, n).0),
    ensures
        course(e, how, b, g, m) == course(e, how, b, g, n),
    decreases m,
{
    if n < m {
        lemma_over_stays(e, how, b, g, n, (m - 1) as nat);
    }
}

/// Decoding leaves the lanes in their places.
proof fn lemma_course_keeps<S, T>(
    e: Loaded<S, T>,
    how: (Sampling, S),
    b: BatchView,
    g: rng::State,
    n: nat,
)
    ensures
        course(e, how, b, g, n).0.order == b.order,
        course(e, how, b, g, n).0.lanes.len() == b.lanes.len(),
    decreases n,
{
    if n > 0 {
        lemma_course_keeps(e, how, b, g, (n - 1) as nat);
    }
}

/// The prompts of a request are the same every time.
proof fn lemma_same_layout<S, T>(
    e: Loaded<S, T>,
    p: Asked<S>,
    q: Asked<S>,
    a: Rendering,
    b: Rendering,
)
    requires
        alike(p, q),
        laid_out(e, p, a),
        laid_out(e, q, b),
    ensures
        clip_in(a) == clip_in(b),
        a.tokens.len() == b.tokens.len(),
        forall|k: int| 0 <= k < a.tokens.len() ==> (#[trigger] a.tokens[k]).para == b.tokens[k].para,
        same_prompts(a.prompts, b.prompts),
{
    assert(engine::conditions(p.request.voice->0, b.cond));
    conditioning_is_determined(p.request.voice->0, a.cond, b.cond);
    tokens::tokens_are_determined(
        e.tokenizer,
        a.segments,
        b.segments,
        a.tokens,
        b.tokens,
        true,
    );
    assert forall|i: int| 0 <= i < a.prompts.len() implies same_prompt(
        #[trigger] a.prompts[i],
        b.prompts[i],
    ) by {
        assert(a.tokens[i].ids@ == b.tokens[i].ids@);
        assert(b.prompts[i].text@ == b.cond.text_tokens@ + b.tokens[i].ids@);
    }
}

/// The runs lie within the prompts.
proof fn lemma_run_in_range(from: int, n: int, most: int, k: int)
    requires
        0 <= from <= n <= usize::MAX,
        most > 0,
        0 <= k < engine::runs(from, n, most).len(),
    ensures
        from <= engine::runs(from, n, most)[k].0 <= engine::runs(from, n, most)[k].1 <= n,
    decreases n - from,
{
    if n - from > most {
        let rest = engine::runs(from + most, n, most);
        let all = engine::runs(from, n, most);
        assert(all =~= seq![(from as usize, (from + most) as usize)] + rest);
        if k > 0 {
            lemma_run_in_range(from + most, n, most, k - 1);
            assert(all[k] == rest[k - 1]);
        }
    }
}

/// Run by run, the draws of two renderings are the same.
proof fn lemma_same_runs<S, T>(
    e: Loaded<S, T>,
    p: Asked<S>,
    q: Asked<S>,
    a: Rendering,
    b: Rendering,
    k: nat,
)
    requires
        alike(p, q),
        laid_out(e, p, a),
        laid_out(e, q, b),
        decoded(e, p, a),
        decoded(e, q, b),
        k <= runs_in(e, a).len(),
    ensures
        runs_in(e, a) == runs_in(e, b),
        drawn_before(e, p, a, k) == drawn_before(e, q, b, k),
        forall|i: int| 0 <= i < k ==> #[trigger] a.outs[i] == b.outs[i],
    decreases k,
{
    lemma_same_layout(e, p, q, a, b);
    if k > 0 {
        let n = (k - 1) as nat;
        let i = n as int;
        lemma_same_runs(e, p, q, a, b, n);
        lemma_run_in_range(0, a.prompts.len() as int, e.llm_batch, i);
        let (from, to) = runs_in(e, a)[i];
        let (these, those) = (together(e, a, i), together(e, b, i));
        assert forall|j: int| 0 <= j < these.len() implies same_prompt(
            #[trigger] these[j],
            those[j],
        ) by {
            assert(same_prompt(a.prompts[from + j], b.prompts[from + j]));
        }
        batches_are_determined(these, those, a.batches[i], b.batches[i]);
        let g = drawn_before(e, p, a, n);
        let start = a.batches[i];
        assert(over(ended(e, p, a, i)) && over(ended(e, q, b, i)));
        if a.steps[i] <= b.steps[i] {
            lemma_over_stays(e, manner(p), start, g, a.steps[i], b.steps[i]);
        } else {
            lemma_over_stays(e, manner(p), start, g, b.steps[i], a.steps[i]);
        }
        lemma_course_keeps(e, manner(p), start, g, a.steps[i]);
        let end = ended(e, p, a, i);
        assert(end == ended(e, q, b, i));
        assert(handed_back(end, a.outs[i]) && handed_back(end, b.outs[i]));
        assert(a.outs[i] =~= b.outs[i]) by {
            assert forall|x: int| 0 <= x < a.outs[i].len() implies #[trigger] a.outs[i][x]
                == b.outs[i][x] by {
                assert(end.order.contains(order::keys_index(x)));
                let j = choose|j: int|
                    0 <= j < end.order.len() && #[trigger] end.order[j] == order::keys_index(x);
                assert(a.outs[i][end.order[j] as int] == b.outs[i][end.order[j] as int]);
            }
        }
    }
}

/// Segments with the same speech tokens come to something together.
proof fn lemma_same_voiced(x: Seq<Vec<u32>>, y: Seq<Vec<u32>>)
    requires
        x.len() == y.len(),
        forall|i: int| 0 <= i < x.len() ==> (#[trigger] x[i])@ == y[i]@,
    ensures
        engine::voiced(x) == engine::voiced(y),
    decreases x.len(),
{
    if x.len() > 0 {
        let (a, b) = (x.drop_last(), y.drop_last());
        assert forall|i: int| 0 <= i < a.len() implies (#[trigger] a[i])@ == b[i]@ by {
            assert(x[i] == a[i]);
        }
        lemma_same_voiced(a, b);
        assert(x[x.len() - 1]@ == y[y.len() - 1]@);
    }
}

/// Two lists of decoded segments hold the same.
pub open spec fn same_spans(x: Seq<Span>, y: Seq<Span>) -> bool {
    x.len() == y.len() && forall|i: int|
        0 <= i < x.len() ==> (#[trigger] x[i]).para == y[i].para && x[i].speech@ == y[i].speech@
}

proof fn lemma_same_speech(x: Seq<Span>, y: Seq<Span>, group: Seq<usize>)
    requires
        same_spans(x, y),
        forall|i: int| 0 <= i < group.len() ==> (#[trigger] group[i]) < x.len(),
    ensures
        engine::group_speech(x, group) == engine::group_speech(y, group),
    decreases group.len(),
{
    if group.len() > 0 {
        let rest = group.drop_last();
        assert forall|i: int| 0 <= i < rest.len() implies (#[trigger] rest[i]) < x.len() by {
            assert(group[i] == rest[i]);
        }
        lemma_same_speech(x, y, rest);
        let at = group[group.len() - 1] as int;
        assert(x[at].speech@ == y[at].speech@);
    }
}

/// The calls of the same segments are the same.
proof fn lemma_same_calls(
    x: Seq<Span>,
    y: Seq<Span>,
    g: Seq<Vec<usize>>,
    h: Seq<Vec<usize>>,
    c: Seq<Call>,
    d: Seq<Call>,
    budget: int,
)
    requires
        x.len() <= usize::MAX,
        same_spans(x, y),
        grid::rows_view(g) == engine::filled(
            engine::speech_lens(x),
            budget,
            x.len() as int,
        ).groups,
        grid::rows_view(h) == engine::filled(
            engine::speech_lens(y),
            budget,
            y.len() as int,
        ).groups,
        c.len() == g.len(),
        d.len() == h.len(),
        forall|k: int| 0 <= k < c.len() ==> engine::call_of(#[trigger] c[k], x, g[k]@),
        forall|k: int| 0 <= k < d.len() ==> engine::call_of(#[trigger] d[k], y, h[k]@),
    ensures
        call_views(c) == call_views(d),
{
    let lens = engine::speech_lens(x);
    assert(lens =~= engine::speech_lens(y)) by {
        assert forall|i: int| 0 <= i < lens.len() implies #[trigger] lens[i] == engine::speech_lens(
            y,
        )[i] by {
            assert(x[i].speech@ == y[i].speech@);
        }
    }
    let groups = grid::rows_view(g);
    assert(groups.len() == grid::rows_view(h).len());
    engine::flow_groups_partition_the_segments(lens, budget);
    assert forall|k: int| 0 <= k < c.len() implies #[trigger] call_view(c[k]) == call_view(
        d[k],
    ) by {
        let group = groups[k];
        assert(group == g[k]@ && group == grid::rows_view(h)[k]);
        assert(h[k]@ == group);
        assert forall|i: int| 0 <= i < group.len() implies (#[trigger] group[i]) < x.len() by {
            grid::lemma_flat_holds(groups, k, i);
            let flat = grid::flat_rows(groups);
            let at = choose|at: int| 0 <= at < flat.len() && #[trigger] flat[at] == groups[k][i];
            assert(flat[at] == at);
        }
        lemma_same_speech(x, y, group);
        assert(engine::call_of(c[k], x, group) && engine::call_of(d[k], y, group));
        assert forall|i: int| 0 <= i < group.len() implies c[k].paras@[i] == d[k].paras@[i]
            && c[k].lens@[i] == d[k].lens@[i] by {
            let at = group[i] as int;
            assert(x[at].para == y[at].para);
        }
        assert(c[k].paras@ =~= d[k].paras@);
        assert(c[k].lens@ =~= d[k].lens@);
    }
    assert(call_views(c) =~= call_views(d));
}

/// A seed makes a rendering repeatable: two requests that ask for the same of one loaded engine are
/// given the same samples at the same rate.
pub proof fn one_request_sounds_the_same<S, T>(
    e: Loaded<S, T>,
    p: Asked<S>,
    q: Asked<S>,
    a: Rendering,
    b: Rendering,
    x: Utterance<T>,
    y: Utterance<T>,
)
    requires
        alike(p, q),
        renders(e, p, a, x),
        renders(e, q, b, y),
    ensures
        same_sound(x, y),
{
    lemma_same_layout(e, p, q, a, b);
    lemma_same_runs(e, p, q, a, b, runs_in(e, a).len());
    assert(a.outs =~= b.outs);
    assert forall|i: int| 0 <= i < a.generated.len() implies (#[trigger] a.generated[i])@
        == b.generated[i]@ by {
        assert(grid::rows_view(a.generated)[i] == grid::rows_view(b.generated)[i]);
    }
    lemma_same_voiced(a.generated, b.generated);
    let v = engine::voiced(a.generated);
    assert forall|n: int| 0 <= n < a.spans.len() implies (#[trigger] a.spans[n]).para
        == b.spans[n].para && a.spans[n].speech@ == b.spans[n].speech@ by {
        assert(engine::span_of(a.spans[n], a.tokens, a.generated, v[n]));
        assert(engine::span_of(b.spans[n], b.tokens, b.generated, v[n]));
        assert(a.tokens[v[n]].para == b.tokens[v[n]].para);
        assert(a.generated[v[n]]@ == b.generated[v[n]]@);
    }
    lemma_same_calls(
        a.spans,
        b.spans,
        a.groups,
        b.groups,
        a.calls,
        b.calls,
        engine::group_tokens(
            e.max_frames,
            a.cond.tokens@.len() as int,
            e.flow_per_segment,
        ),
    );
    assert(call_views(a.calls).len() == call_views(b.calls).len());
}

/// A call of a loaded engine: what was asked, what it went through and what was said.
#[verifier::reject_recursive_types(S)]
#[verifier::reject_recursive_types(T)]
pub struct Called<S, T> {
    pub asked: Asked<S>,
    pub rendering: Rendering,
    pub said: Utterance<T>,
}

/// Whatever calls came between, an engine that is asked for the same again says the same again.
pub proof fn calls_leave_nothing_behind<S, T>(
    e: Loaded<S, T>,
    calls: Seq<Called<S, T>>,
    i: int,
    j: int,
)
    requires
        0 <= i < j < calls.len(),
        forall|k: int|
            0 <= k < calls.len() ==> renders(
                e,
                (#[trigger] calls[k]).asked,
                calls[k].rendering,
                calls[k].said,
            ),
        alike(calls[i].asked, calls[j].asked),
    ensures
        same_sound(calls[i].said, calls[j].said),
{
    one_request_sounds_the_same(
        e,
        calls[i].asked,
        calls[j].asked,
        calls[i].rendering,
        calls[j].rendering,
        calls[i].said,
        calls[j].said,
    );
}

} // verus!
