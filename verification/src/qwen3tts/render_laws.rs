//! What the renderings of one loaded engine have in common.

use crate::assemble;
use crate::engine::{alike, manner, same_sound, Asked, Sampling, Utterance};
use crate::grid;
use crate::order;
use crate::qwen3tts::cfg;
use crate::qwen3tts::engine;
use crate::qwen3tts::engine::{Groups, Prepared, Reference, Spans};
use crate::qwen3tts::session;
use crate::qwen3tts::session::{Action, SessionView};
use crate::rng;
use crate::settings;
use crate::text;
use crate::tokens;
use crate::tokens::Tokens;
use crate::voice;
use crate::voice::Voice;
use candle_core::Tensor;
use tokenizers::Tokenizer;
use vstd::prelude::*;

verus! {

/// What the talker is told: the tokens of every segment, what the voice says of its clip, and its
/// speaker embedding.
pub struct Told {
    pub ids: Seq<Seq<u32>>,
    pub said: Seq<u32>,
    pub codes: Seq<Seq<u32>>,
    pub speaker: Option<Tensor>,
}

/// What the talker answers: the frames of each lane, the text positions that each left unspoken,
/// and the generator behind its draws.
pub struct Answer {
    pub frames: Seq<Seq<Seq<u32>>>,
    pub left: Seq<usize>,
    pub after: rng::State,
}

/// A loaded engine. What its networks compute is a function of what they are given and, where they
/// draw, of how they are to draw and of the generator's state: nothing else is kept from one request
/// to the next.
#[verifier::reject_recursive_types(S)]
#[verifier::reject_recursive_types(T)]
pub struct Loaded<S, T> {
    pub tokenizer: Tokenizer,
    pub lanes: nat,
    /// The rows that come over from a tensor, none where it gives none.
    pub rows: spec_fn(Tensor) -> Seq<Seq<u32>>,
    /// The positions of a segment's prompt and of the text that follows it.
    pub measure: spec_fn(Told, Seq<u32>) -> (usize, usize),
    /// What decoding some segments comes to, each up to a number of frames.
    pub talker: spec_fn((Sampling, S), Told, Seq<usize>, nat, rng::State) -> Answer,
    /// The waveform of some frames.
    pub codec: spec_fn(Seq<Seq<u32>>) -> Seq<T>,
    pub zero: T,
}

/// What one rendering of a request goes through.
pub struct Rendering {
    pub segments: Seq<(usize, String)>,
    pub tokens: Seq<Tokens>,
    pub reference: Reference,
    pub prepared: Seq<Prepared>,
    pub groups: Groups,
    /// The times that the talker was asked.
    pub steps: nat,
    pub results: Seq<Vec<Vec<u32>>>,
    pub spans: Spans,
}

/// The rows that come over from a voice's tensor of that name.
pub open spec fn came_over<S, T>(e: Loaded<S, T>, v: Voice, name: Seq<char>) -> Seq<Seq<u32>> {
    match voice::found(v.tensors@, name) {
        Some(t) => (e.rows)(t),
        None => Seq::empty(),
    }
}

/// What the talker is told in a rendering in some voice.
pub open spec fn told_in(v: Voice, r: Rendering) -> Told {
    Told {
        ids: Seq::new(r.tokens.len(), |k: int| r.tokens[k].ids@),
        said: r.reference.text@,
        codes: grid::rows_view(r.reference.codes@),
        speaker: voice::found(v.tensors@, "spk_embedding"@),
    }
}

/// A segment once its prompt is ready.
pub open spec fn made_ready<S, T>(e: Loaded<S, T>, told: Told, t: Tokens) -> Prepared {
    let (prompt, trailing) = (e.measure)(told, t.ids@);
    Prepared { para: t.para, chars: t.chars, prompt, trailing }
}

/// The run and the generator after the talker was asked once more.
pub open spec fn step<S, T>(
    e: Loaded<S, T>,
    how: (Sampling, S),
    told: Told,
    v: SessionView,
    g: rng::State,
) -> (SessionView, rng::State) {
    match session::asked(v) {
        Action::Done => (v, g),
        Action::Together { group, cap } => {
            let a = (e.talker)(how, told, v.groups[group as int], cap as nat, g);
            (session::told_together(v, a.frames, a.left), a.after)
        },
        Action::Alone { segment, budget } => {
            let a = (e.talker)(how, told, seq![segment], budget as nat, g);
            (session::told_alone(v, a.frames[0], a.left[0]), a.after)
        },
    }
}

/// The run and the generator after the talker was asked `n` times.
pub open spec fn course<S, T>(
    e: Loaded<S, T>,
    how: (Sampling, S),
    told: Told,
    v: SessionView,
    g: rng::State,
    n: nat,
) -> (SessionView, rng::State)
    decreases n,
{
    if n == 0 {
        (v, g)
    } else {
        let (w, h) = course(e, how, told, v, g, (n - 1) as nat);
        step(e, how, told, w, h)
    }
}

/// The run of a rendering once the talker was asked as often as it was.
pub open spec fn ended<S, T>(e: Loaded<S, T>, p: Asked<S>, r: Rendering) -> SessionView {
    course(
        e,
        manner(p),
        told_in(p.request.voice->0, r),
        session::begun(
            r.groups.order@,
            grid::rows_view(r.groups.groups@),
            engine::budget_for(p.request.max_new_tokens) as nat,
        ),
        rng::seeded(p.request.sampling.seed),
        r.steps,
    ).0
}

/// Every stage did what its contract says: the segments were planned, tokenized, measured and
/// grouped, the talker was asked until the run was done, and the codec's waveform was cut and
/// joined into what is said.
pub open spec fn renders<S, T>(
    e: Loaded<S, T>,
    p: Asked<S>,
    r: Rendering,
    said: Utterance<T>,
) -> bool {
    let v = p.request.voice->0;
    &&& p.request.voice is Some
    &&& settings::fixed(e.tokenizer)
    &&& assemble::numbered(r.segments) == assemble::flat(
        text::segmented(p.request.text@, p.request.max_chars as nat),
    )
    &&& tokens::tokens_of(
        r.tokens,
        r.segments,
        tokens::encodings(e.tokenizer, r.segments, false),
    )
    &&& engine::refers(v, r.reference)
    &&& grid::rows_view(r.reference.codes@) == came_over(e, v, "ref_codes"@)
    &&& r.reference.text@ == engine::first_or_nothing(came_over(e, v, "ref_text_tokens"@))
    &&& r.prepared.len() == r.tokens.len() <= usize::MAX
    &&& forall|k: int|
        0 <= k < r.tokens.len() ==> #[trigger] r.prepared[k] == made_ready(
            e,
            told_in(v, r),
            r.tokens[k],
        )
    &&& engine::all_led(r.prepared, r.groups.leaders@)
    &&& engine::grouped(r.prepared, r.groups.leaders@, r.groups.order@)
    &&& grid::rows_view(r.groups.groups@) == engine::grouped_up_to(
        r.groups.order@,
        r.groups.leaders@,
        e.lanes,
        r.groups.order@.len() as int,
    )
    &&& session::asked(ended(e, p, r)) is Done
    &&& r.results.len() == ended(e, p, r).results.len()
    &&& forall|i: int|
        0 <= i < r.results.len() ==> ended(e, p, r).results[i] == Some(
            grid::rows_view((#[trigger] r.results[i])@),
        )
    &&& engine::spans_of(r.spans, r.prepared, r.results)
    &&& said.samples@ == engine::uttered(
        p.request,
        r.spans,
        (e.codec)(grid::rows_view(r.spans.frames@)),
        e.zero,
    )
    &&& said.sample_rate == cfg::SAMPLE_RATE
}

/// The segments are grouped in one way only.
pub proof fn grouping_is_determined(
    p: Seq<Prepared>,
    l: Seq<usize>,
    o: Seq<usize>,
    m: Seq<usize>,
    q: Seq<usize>,
)
    requires
        p.len() <= usize::MAX,
        engine::all_led(p, l),
        engine::all_led(p, m),
        engine::grouped(p, l, o),
        engine::grouped(p, m, q),
    ensures
        l == m,
        o == q,
{
    assert forall|i: int| 0 <= i < p.len() implies l[i] == m[i] by {
        assert(engine::leads(p, l[i] as int, i));
        assert(engine::leads(p, m[i] as int, i));
    }
    assert(l =~= m);
    let before = |x: int, y: int| engine::before(p, l, x, y);
    order::lemma_one_listing(o, q, p.len(), before, p.len() as int);
    assert(o =~= q);
}

/// Once a run is done it stays as it is.
proof fn lemma_done_stays<S, T>(
    e: Loaded<S, T>,
    how: (Sampling, S),
    told: Told,
    v: SessionView,
    g: rng::State,
    n: nat,
    m: nat,
)
    requires
        n <= m,
        session::asked(course(e, how, told, v, g, n).0) is Done,
    ensures
        course(e, how, told, v, g, m) == course(e, how, told, v, g, n),
    decreases m,
{
    if n < m {
        lemma_done_stays(e, how, told, v, g, n, (m - 1) as nat);
    }
}

proof fn lemma_same_spans(
    p: Seq<Prepared>,
    x: Seq<Vec<Vec<u32>>>,
    y: Seq<Vec<Vec<u32>>>,
    s: Spans,
    t: Spans,
)
    requires
        x.len() == y.len(),
        forall|i: int|
            0 <= i < x.len() ==> grid::rows_view((#[trigger] x[i])@) == grid::rows_view(y[i]@),
        engine::spans_of(s, p, x),
        engine::spans_of(t, p, y),
    ensures
        s.paras@ == t.paras@,
        s.lens@ == t.lens@,
        grid::rows_view(s.frames@) == grid::rows_view(t.frames@),
{
    lemma_same_results(x, y);
    let v = engine::voiced(x);
    assert forall|k: int| 0 <= k < v.len() implies s.paras@[k] == t.paras@[k] && s.lens@[k]
        == t.lens@[k] by {
        let i = v[k];
        assert(0 <= i < x.len());
        assert(engine::voiced(y)[k] == i);
        assert(grid::rows_view(x[i]@).len() == grid::rows_view(y[i]@).len());
    }
    assert(s.paras@ =~= t.paras@);
    assert(s.lens@ =~= t.lens@);
}

proof fn lemma_same_results(x: Seq<Vec<Vec<u32>>>, y: Seq<Vec<Vec<u32>>>)
    requires
        x.len() == y.len(),
        forall|i: int|
            0 <= i < x.len() ==> grid::rows_view((#[trigger] x[i])@) == grid::rows_view(y[i]@),
    ensures
        engine::voiced(x) == engine::voiced(y),
        engine::all_frames(x) == engine::all_frames(y),
    decreases x.len(),
{
    if x.len() > 0 {
        let (a, b) = (x.drop_last(), y.drop_last());
        assert forall|i: int| 0 <= i < a.len() implies grid::rows_view((#[trigger] a[i])@)
            == grid::rows_view(b[i]@) by {
            assert(x[i] == a[i]);
        }
        lemma_same_results(a, b);
        let n = x.len() - 1;
        assert(grid::rows_view(x[n]@) == grid::rows_view(y[n]@));
        assert(grid::rows_view(x[n]@).len() == grid::rows_view(y[n]@).len());
    }
}

/// A seed makes a rendering repeatable: two requests that ask for the same of one loaded engine are
/// given the same samples at the same rate.
pub proof fn one_request_sounds_the_same<S, T>(
    e: Loaded<S, T>,
    p: Asked<S>,
    q: Asked<S>,
    a: Rendering,
    b: Rendering,
    x: Utterance<T>,
    y: Utterance<T>,
)
    requires
        alike(p, q),
        renders(e, p, a, x),
        renders(e, q, b, y),
    ensures
        same_sound(x, y),
{
    let (v, w) = (p.request.voice->0, q.request.voice->0);
    tokens::tokens_are_determined(
        e.tokenizer,
        a.segments,
        b.segments,
        a.tokens,
        b.tokens,
        false,
    );
    assert(came_over(e, v, "ref_codes"@) == came_over(e, w, "ref_codes"@));
    assert(came_over(e, v, "ref_text_tokens"@) == came_over(e, w, "ref_text_tokens"@));
    let told = told_in(v, a);
    assert(told.ids =~= told_in(w, b).ids) by {
        assert forall|k: int| 0 <= k < a.tokens.len() implies #[trigger] told.ids[k] == told_in(
            w,
            b,
        ).ids[k] by {
            assert(a.tokens[k].ids@ == b.tokens[k].ids@);
        }
    }
    assert(told == told_in(w, b));
    assert(a.prepared =~= b.prepared) by {
        assert forall|k: int| 0 <= k < a.prepared.len() implies #[trigger] a.prepared[k]
            == b.prepared[k] by {
            assert(a.prepared[k] == made_ready(e, told, a.tokens[k]));
            assert(b.prepared[k] == made_ready(e, told, b.tokens[k]));
            assert(a.tokens[k].para == b.tokens[k].para);
        }
    }
    grouping_is_determined(
        a.prepared,
        a.groups.leaders@,
        a.groups.order@,
        b.groups.leaders@,
        b.groups.order@,
    );
    let start = session::begun(
        a.groups.order@,
        grid::rows_view(a.groups.groups@),
        engine::budget_for(p.request.max_new_tokens) as nat,
    );
    let g = rng::seeded(p.request.sampling.seed);
    if a.steps <= b.steps {
        lemma_done_stays(e, manner(p), told, start, g, a.steps, b.steps);
    } else {
        lemma_done_stays(e, manner(p), told, start, g, b.steps, a.steps);
    }
    let end = ended(e, p, a);
    assert(end == ended(e, q, b));
    assert forall|i: int| 0 <= i < a.results.len() implies grid::rows_view(
        (#[trigger] a.results[i])@,
    ) == grid::rows_view(b.results[i]@) by {
        assert(end.results[i] == Some(grid::rows_view(a.results[i]@)));
        assert(end.results[i] == Some(grid::rows_view(b.results[i]@)));
    }
    lemma_same_spans(a.prepared, a.results, b.results, a.spans, b.spans);
}

/// A call of a loaded engine: what was asked, what it went through and what was said.
#[verifier::reject_recursive_types(S)]
#[verifier::reject_recursive_types(T)]
pub struct Called<S, T> {
    pub asked: Asked<S>,
    pub rendering: Rendering,
    pub said: Utterance<T>,
}

/// Whatever calls came between, an engine that is asked for the same again says the same again.
pub proof fn calls_leave_nothing_behind<S, T>(
    e: Loaded<S, T>,
    calls: Seq<Called<S, T>>,
    i: int,
    j: int,
)
    requires
        0 <= i < j < calls.len(),
        forall|k: int|
            0 <= k < calls.len() ==> renders(
                e,
                (#[trigger] calls[k]).asked,
                calls[k].rendering,
                calls[k].said,
            ),
        alike(calls[i].asked, calls[j].asked),
    ensures
        same_sound(calls[i].said, calls[j].said),
{
    one_request_sounds_the_same(
        e,
        calls[i].asked,
        calls[j].asked,
        calls[i].rendering,
        calls[j].rendering,
        calls[i].said,
        calls[j].said,
    );
}

} // verus!
