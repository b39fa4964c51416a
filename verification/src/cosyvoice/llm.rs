//! Decoding speech tokens: prompts laid out, several sequences stepped together, lanes dropped as
//! they finish.
//!
//! Two embedding tables are in play, of the same width: text ids index one, while the markers and
//! every generated token index the other. A prompt is therefore a sequence of look-ups that name
//! their table.
//!
//! The forward passes and the draws happen outside; what is here decides what to feed, what to
//! keep and when to stop.

use crate::assemble::copy_range;
use crate::cosyvoice::cfg::llm as k;
use crate::grid;
use crate::grid::copy_vec;
use crate::masks;
use crate::masks::{any_padded, decode_grid, prefill_grid};
use crate::order;
use crate::order::{order_by, place_of};
use vstd::prelude::*;

verus! {

/// A row of one of the two embedding tables.
#[derive(Clone, Copy, PartialEq, Eq, Structural, Debug)]
pub enum Row {
    Text(u32),
    Speech(u32),
}

/// Why a prompt or a step is refused.
#[derive(Clone, Copy, PartialEq, Eq, Structural, Debug)]
pub enum LlmError {
    /// The prompt text has no end-of-prompt marker.
    NoEndOfPrompt,
    /// The prompt is wider than the caches.
    TooWide { width: usize },
    /// There is no prompt.
    NoPrompts,
    /// The caches are full.
    CacheFull,
    /// The tokens do not match the lanes.
    LaneMismatch { tokens: usize, lanes: usize },
}

/// A table of another shape than the configuration's.
#[derive(Clone, Copy, PartialEq, Eq, Structural, Debug)]
pub enum GeometryError {
    /// Rows of the speech embedding.
    SpeechRows { got: usize },
    /// Logits that the head emits.
    Logits { got: usize },
    /// Width of the text embedding.
    TextWidth { got: usize },
}

/// Holds the loaded shapes against the configuration.
pub fn check_geometry(speech_rows: usize, logits: usize, text_width: usize) -> (r: Result<
    (),
    GeometryError,
>)
    ensures
        match r {
            Ok(_) => speech_rows == k::VOCAB && logits == k::VOCAB && text_width == k::DIM,
            Err(GeometryError::SpeechRows { got }) => got == speech_rows && speech_rows != k::VOCAB,
            Err(GeometryError::Logits { got }) => got == logits && speech_rows == k::VOCAB
                && logits != k::VOCAB,
            Err(GeometryError::TextWidth { got }) => got == text_width && speech_rows == k::VOCAB
                && logits == k::VOCAB && text_width != k::DIM,
        },
{
    if speech_rows != k::VOCAB {
        return Err(GeometryError::SpeechRows { got: speech_rows });
    }
    if logits != k::VOCAB {
        return Err(GeometryError::Logits { got: logits });
    }
    if text_width != k::DIM {
        return Err(GeometryError::TextWidth { got: text_width });
    }
    Ok(())
}

/// `[sos]`, the text, `[task]`, the voice's speech tokens.
pub open spec fn layout(text: Seq<u32>, speech: Seq<u32>) -> Seq<Row> {
    seq![Row::Speech(k::SOS as u32)] + Seq::new(text.len(), |i: int| Row::Text(text[i]))
        + seq![Row::Speech(k::TASK_ID as u32)] + Seq::new(
        speech.len(),
        |i: int| Row::Speech(speech[i]),
    )
}

/// Does `v` hold `x`?
fn holds(v: &Vec<u32>, x: u32) -> (r: bool)
    ensures
        r == v@.contains(x),
{
    let mut i: usize = 0;
    while i < v.len()
        invariant
            i <= v@.len(),
            forall|j: int| 0 <= j < i ==> #[trigger] v@[j] != x,
        decreases v@.len() - i,
    {
        if v[i] == x {
            return true;
        }
        i += 1;
    }
    false
}

/// The look-ups of a prompt.
///
/// `text` must be the concatenation of the voice's transcript tokens and the target text's, and
/// must contain the end-of-prompt marker.
pub fn build_prompt(text: &Vec<u32>, prompt_speech: &Vec<u32>) -> (r: Result<Vec<Row>, LlmError>)
    ensures
        match r {
            Ok(v) => text@.contains(k::ENDOFPROMPT) && v@ == layout(text@, prompt_speech@),
            Err(e) => e == LlmError::NoEndOfPrompt && !text@.contains(k::ENDOFPROMPT),
        },
{
    if !holds(text, k::ENDOFPROMPT) {
        return Err(LlmError::NoEndOfPrompt);
    }
    let mut v: Vec<Row> = Vec::new();
    v.push(Row::Speech(k::SOS as u32));
    let ghost head = v@;
    let mut i: usize = 0;
    while i < text.len()
        invariant
            i <= text@.len(),
            v@ == head + Seq::new(i as nat, |j: int| Row::Text(text@[j])),
        decreases text@.len() - i,
    {
        v.push(Row::Text(text[i]));
        i += 1;
        assert(v@ =~= head + Seq::new(i as nat, |j: int| Row::Text(text@[j])));
    }
    v.push(Row::Speech(k::TASK_ID as u32));
    let ghost front = v@;
    let mut j: usize = 0;
    while j < prompt_speech.len()
        invariant
            j <= prompt_speech@.len(),
            v@ == front + Seq::new(j as nat, |q: int| Row::Speech(prompt_speech@[q])),
        decreases prompt_speech@.len() - j,
    {
        v.push(Row::Speech(prompt_speech[j]));
        j += 1;
        assert(v@ =~= front + Seq::new(j as nat, |q: int| Row::Speech(prompt_speech@[q])));
    }
    assert(v@ =~= layout(text@, prompt_speech@));
    Ok(v)
}

/// The token repeats one of the last emitted ones, as far as the guard looks back.
pub open spec fn repeats(decoded: Seq<u32>, token: u32) -> bool {
    exists|i: int|
        0 <= i < decoded.len() && decoded.len() - k::RAS_WIN <= i && #[trigger] decoded[i] == token
}

/// Does the repetition guard fire? One repeat within the window is enough, so the guard is no
/// rare fallback.
pub fn guard_fires(decoded: &Vec<u32>, token: u32) -> (r: bool)
    ensures
        r == repeats(decoded@, token),
{
    let mut i: usize = if decoded.len() > k::RAS_WIN {
        decoded.len() - k::RAS_WIN
    } else {
        0
    };
    let ghost from = i as int;
    while i < decoded.len()
        invariant
            0 <= from <= i <= decoded@.len(),
            from == if decoded@.len() > k::RAS_WIN {
                decoded@.len() - k::RAS_WIN
            } else {
                0
            },
            forall|j: int| from <= j < i ==> #[trigger] decoded@[j] != token,
        decreases decoded@.len() - i,
    {
        if decoded[i] == token {
            return true;
        }
        i += 1;
    }
    false
}

/// A segment to speak.
pub struct Segment {
    /// The voice's transcript tokens and the target text's, one behind the other.
    pub text: Vec<u32>,
    /// The voice's speech tokens.
    pub speech: Vec<u32>,
    /// The target text's tokens, which set the length bounds.
    pub text_len: usize,
}

/// One sequence of a batch.
pub struct Lane {
    /// Tokens emitted.
    pub out: Vec<u32>,
    pub done: bool,
    /// Steps before which the start marker is masked.
    pub min_len: usize,
    /// Steps after which the sequence is finished.
    pub max_len: usize,
    /// Leading masked-out positions.
    pub pad: usize,
}

/// What a lane holds.
pub struct LaneView {
    pub out: Seq<u32>,
    pub done: bool,
    pub min_len: nat,
    pub max_len: nat,
    pub pad: nat,
}

impl View for Lane {
    type V = LaneView;

    open spec fn view(&self) -> LaneView {
        LaneView {
            out: self.out@,
            done: self.done,
            min_len: self.min_len as nat,
            max_len: self.max_len as nat,
            pad: self.pad as nat,
        }
    }
}

/// A lane after step `step` drew `token` for it: a control token finishes it; any other is kept,
/// and finishes it when the bound is reached, since the token drawn in the last step counts.
pub open spec fn lane_heard(l: LaneView, token: u32, step: nat) -> LaneView {
    if l.done {
        l
    } else if token >= k::SPEECH_TOKENS {
        LaneView { done: true, ..l }
    } else {
        LaneView { out: l.out.push(token), done: step + 1 >= l.max_len, ..l }
    }
}

/// What a lane is fed next: the token it kept, or inert filler.
pub open spec fn lane_feed(l: LaneView, token: u32) -> u32 {
    if l.done || token >= k::SPEECH_TOKENS {
        0
    } else {
        token
    }
}

/// Several sequences decoding together.
pub struct Batch {
    /// The segment that each lane decodes: longest text first, since only a contiguous tail of
    /// finished lanes can be shed.
    pub order: Vec<usize>,
    /// The look-ups of each lane's prompt.
    pub prompts: Vec<Vec<Row>>,
    pub lanes: Vec<Lane>,
    /// The width of the widest prompt, to which all are aligned.
    pub width: usize,
    /// The lanes still computed, a prefix of all.
    pub live: usize,
    /// Steps taken.
    pub step: usize,
}

/// What a batch holds.
pub struct BatchView {
    pub order: Seq<usize>,
    pub prompts: Seq<Seq<Row>>,
    pub lanes: Seq<LaneView>,
    pub width: nat,
    pub live: nat,
    pub step: nat,
}

/// What several lanes hold.
pub open spec fn lane_views(lanes: Seq<Lane>) -> Seq<LaneView> {
    Seq::new(lanes.len(), |i: int| lanes[i]@)
}

impl View for Batch {
    type V = BatchView;

    open spec fn view(&self) -> BatchView {
        BatchView {
            order: self.order@,
            prompts: grid::rows_view(self.prompts@),
            lanes: lane_views(self.lanes@),
            width: self.width as nat,
            live: self.live as nat,
            step: self.step as nat,
        }
    }
}

/// The target text lengths of some segments.
pub open spec fn text_lens(segments: Seq<Segment>) -> Seq<usize> {
    Seq::new(segments.len(), |i: int| segments[i].text_len)
}

/// The length of a segment's prompt.
pub open spec fn prompt_len(s: Segment) -> nat {
    s.text@.len() + s.speech@.len() + 2
}

/// The widest prompt of some segments.
pub open spec fn widest(segments: Seq<Segment>) -> nat
    decreases segments.len(),
{
    if segments.len() == 0 {
        0
    } else {
        let w = widest(segments.drop_last());
        if prompt_len(segments.last()) > w {
            prompt_len(segments.last())
        } else {
            w
        }
    }
}

/// Every text carries the end-of-prompt marker.
pub open spec fn all_marked(segments: Seq<Segment>) -> bool {
    forall|i: int|
        0 <= i < segments.len() ==> (#[trigger] segments[i]).text@.contains(k::ENDOFPROMPT)
}

/// The most steps of a segment: twenty to a text token, as far as the caches reach.
pub open spec fn step_bound(text_len: int, width: int) -> int {
    if text_len * k::MAX_TOKEN_RATIO <= k::CAPACITY - width - 1 {
        text_len * k::MAX_TOKEN_RATIO
    } else {
        k::CAPACITY - width - 1
    }
}

/// A segment's lane before the first step.
pub open spec fn lane_start(s: Segment, width: nat) -> LaneView {
    LaneView {
        out: Seq::empty(),
        done: false,
        min_len: s.text_len as nat * k::MIN_TOKEN_RATIO as nat,
        max_len: step_bound(s.text_len as int, width as int) as nat,
        pad: (width - prompt_len(s)) as nat,
    }
}

/// The batch that some segments start as.
pub open spec fn starts(b: BatchView, segments: Seq<Segment>) -> bool {
    &&& order::ordered(text_lens(segments), true, b.order)
    &&& b.width == widest(segments)
    &&& b.live == segments.len()
    &&& b.step == 0
    &&& b.prompts.len() == segments.len()
    &&& forall|i: int|
        0 <= i < b.prompts.len() ==> #[trigger] b.prompts[i] == layout(
            segments[b.order[i] as int].text@,
            segments[b.order[i] as int].speech@,
        )
    &&& b.lanes.len() == segments.len()
    &&& forall|i: int|
        0 <= i < b.lanes.len() ==> #[trigger] b.lanes[i] == lane_start(
            segments[b.order[i] as int],
            b.width,
        )
}

/// The bound of the longest lane, which is when every lane has finished.
pub open spec fn last_step(lanes: Seq<LaneView>) -> nat
    decreases lanes.len(),
{
    if lanes.len() == 0 {
        0
    } else {
        let m = last_step(lanes.drop_last());
        if lanes.last().max_len > m {
            lanes.last().max_len
        } else {
            m
        }
    }
}

/// What holds of a batch between two steps: the caches have room for every step left, the lanes
/// past the live ones are done, and a lane that is not done has emitted a token in each step and
/// has not reached its bound.
pub open spec fn batch_wf(b: BatchView) -> bool {
    &&& order::permutation(b.order, b.lanes.len())
    &&& b.live <= b.lanes.len()
    &&& b.width < k::CAPACITY
    &&& b.step <= last_step(b.lanes)
    &&& b.width + last_step(b.lanes) < k::CAPACITY
    &&& forall|i: int| b.live <= i < b.lanes.len() ==> (#[trigger] b.lanes[i]).done
    &&& forall|i: int|
        0 <= i < b.lanes.len() ==> (#[trigger] b.lanes[i]).out.len() <= b.step && (
        !b.lanes[i].done ==> b.lanes[i].out.len() == b.step && (b.step == 0 || b.step
            < b.lanes[i].max_len))
    &&& forall|i: int| 0 <= i < b.lanes.len() ==> (#[trigger] b.lanes[i]).pad <= b.width
}

/// The lanes left once the finished ones are dropped off the tail.
pub open spec fn live_after(lanes: Seq<LaneView>, live: nat) -> nat
    decreases live,
{
    if live > 0 && lanes[live - 1].done {
        live_after(lanes, (live - 1) as nat)
    } else {
        live
    }
}

/// A batch after a step drew a token for each live lane.
pub open spec fn heard(b: BatchView, drawn: Seq<u32>) -> BatchView {
    let lanes = Seq::new(
        b.lanes.len(),
        |i: int|
            if i < b.live {
                lane_heard(b.lanes[i], drawn[i], b.step)
            } else {
                b.lanes[i]
            },
    );
    BatchView { lanes, live: live_after(lanes, b.live), step: b.step + 1, ..b }
}

/// The lanes behind the live ones are done.
pub proof fn lemma_live_after(lanes: Seq<LaneView>, live: nat)
    requires
        live <= lanes.len(),
    ensures
        live_after(lanes, live) <= live,
        forall|i: int| live_after(lanes, live) <= i < live ==> (#[trigger] lanes[i]).done,
    decreases live,
{
    if live > 0 && lanes[live - 1].done {
        lemma_live_after(lanes, (live - 1) as nat);
    }
}

pub proof fn lemma_last_step(lanes: Seq<LaneView>, i: int)
    requires
        0 <= i < lanes.len(),
    ensures
        lanes[i].max_len <= last_step(lanes),
    decreases lanes.len(),
{
    if i < lanes.len() - 1 {
        lemma_last_step(lanes.drop_last(), i);
    }
}

proof fn lemma_last_step_bound(lanes: Seq<LaneView>, bound: nat)
    requires
        forall|i: int| 0 <= i < lanes.len() ==> (#[trigger] lanes[i]).max_len <= bound,
    ensures
        last_step(lanes) <= bound,
    decreases lanes.len(),
{
    if lanes.len() > 0 {
        lemma_last_step_bound(lanes.drop_last(), bound);
        assert(lanes[lanes.len() - 1].max_len <= bound);
    }
}

pub proof fn lemma_last_step_same(a: Seq<LaneView>, b: Seq<LaneView>)
    requires
        a.len() == b.len(),
        forall|i: int| 0 <= i < a.len() ==> (#[trigger] a[i]).max_len == b[i].max_len,
    ensures
        last_step(a) == last_step(b),
    decreases a.len(),
{
    if a.len() > 0 {
        assert(a[a.len() - 1].max_len == b[b.len() - 1].max_len);
        assert forall|i: int| 0 <= i < a.drop_last().len() implies (
        #[trigger] a.drop_last()[i]).max_len == b.drop_last()[i].max_len by {
            assert(a[i].max_len == b[i].max_len);
        }
        lemma_last_step_same(a.drop_last(), b.drop_last());
    }
}

proof fn lemma_widest(segments: Seq<Segment>, i: int)
    requires
        0 <= i < segments.len(),
    ensures
        prompt_len(segments[i]) <= widest(segments),
    decreases segments.len(),
{
    if i < segments.len() - 1 {
        lemma_widest(segments.drop_last(), i);
    }
}

/// The tokens of a run that is over before it begins: without segments there are none, and no batch
/// is laid out.
pub fn decoded_at_once(segments: &Vec<Segment>) -> (r: Option<Vec<Vec<u32>>>)
    ensures
        match r {
            Some(tokens) => segments@.len() == 0 && tokens@.len() == 0,
            None => segments@.len() > 0,
        },
{
    if segments.len() == 0 {
        Some(Vec::new())
    } else {
        None
    }
}

impl Batch {
    /// Room for every step left, and lanes that agree with the steps taken.
    pub open spec fn wf(&self) -> bool {
        batch_wf(self@)
    }

    /// Lays out the prompts, aligns them, and bounds the steps of each lane.
    ///
    /// A prompt that fills the caches to the last position leaves no room to decode and is no
    /// input of this function.
    pub fn begin(segments: &Vec<Segment>) -> (r: Result<Self, LlmError>)
        requires
            widest(segments@) != k::CAPACITY,
            forall|i: int|
                0 <= i < segments@.len() ==> prompt_len(#[trigger] segments@[i]) <= usize::MAX
                    && segments@[i].text_len * k::MAX_TOKEN_RATIO <= usize::MAX,
        ensures
            match r {
                Ok(b) => segments@.len() > 0 && all_marked(segments@) && widest(segments@)
                    < k::CAPACITY && starts(b@, segments@) && b.wf(),
                Err(LlmError::NoPrompts) => segments@.len() == 0,
                Err(LlmError::NoEndOfPrompt) => !all_marked(segments@),
                Err(LlmError::TooWide { width }) => segments@.len() > 0 && all_marked(segments@)
                    && width == widest(segments@) && width > k::CAPACITY,
                Err(_) => false,
            },
    {
        if segments.len() == 0 {
            return Err(LlmError::NoPrompts);
        }
        let mut keys: Vec<usize> = Vec::new();
        let mut width: usize = 0;
        let mut i: usize = 0;
        while i < segments.len()
            invariant
                i <= segments@.len(),
                keys@ == text_lens(segments@).take(i as int),
                width == widest(segments@.take(i as int)),
                forall|j: int|
                    0 <= j < segments@.len() ==> prompt_len(#[trigger] segments@[j]) <= usize::MAX,
            decreases segments@.len() - i,
        {
            keys.push(segments[i].text_len);
            assert(text_lens(segments@).take(i + 1) =~= text_lens(segments@).take(i as int).push(
                segments@[i as int].text_len,
            ));
            assert(segments@.take(i + 1).drop_last() =~= segments@.take(i as int));
            assert(prompt_len(segments@[i as int]) <= usize::MAX);
            let len: usize = segments[i].text.len() + segments[i].speech.len() + 2;
            if len > width {
                width = len;
            }
            i += 1;
        }
        assert(segments@.take(i as int) =~= segments@);
        assert(keys@ =~= text_lens(segments@));
        let order = order_by(&keys, true);
        proof {
            order::lemma_ordered_permutation(keys@, true, order@);
        }
        let mut prompts: Vec<Vec<Row>> = Vec::new();
        let mut j: usize = 0;
        while j < order.len()
            invariant
                j <= order@.len() == segments@.len(),
                order::ordered(text_lens(segments@), true, order@),
                prompts@.len() == j,
                forall|q: int|
                    0 <= q < j ==> (#[trigger] prompts@[q])@ == layout(
                        segments@[order@[q] as int].text@,
                        segments@[order@[q] as int].speech@,
                    ) && segments@[order@[q] as int].text@.contains(k::ENDOFPROMPT),
            decreases order@.len() - j,
        {
            let s = &segments[order[j]];
            match build_prompt(&s.text, &s.speech) {
                Ok(p) => {
                    prompts.push(p);
                },
                Err(e) => {
                    assert(!segments@[order@[j as int] as int].text@.contains(k::ENDOFPROMPT));
                    return Err(e);
                },
            }
            j += 1;
        }
        proof {
            assert forall|q: int| 0 <= q < segments@.len() implies (
            #[trigger] segments@[q]).text@.contains(k::ENDOFPROMPT) by {
                assert(order@.contains(order::keys_index(q)));
                let at = choose|at: int|
                    0 <= at < order@.len() && order@[at] == order::keys_index(q);
                assert(prompts@[at]@ == layout(
                    segments@[order@[at] as int].text@,
                    segments@[order@[at] as int].speech@,
                ));
            }
        }
        if width > k::CAPACITY {
            return Err(LlmError::TooWide { width });
        }
        let mut lanes: Vec<Lane> = Vec::new();
        let mut q: usize = 0;
        while q < order.len()
            invariant
                q <= order@.len() == segments@.len(),
                order::ordered(text_lens(segments@), true, order@),
                width == widest(segments@),
                width < k::CAPACITY,
                forall|i: int|
                    0 <= i < segments@.len() ==> prompt_len(#[trigger] segments@[i]) <= usize::MAX
                        && segments@[i].text_len * k::MAX_TOKEN_RATIO <= usize::MAX,
                lanes@.len() == q,
                forall|i: int|
                    0 <= i < q ==> (#[trigger] lanes@[i])@ == lane_start(
                        segments@[order@[i] as int],
                        width as nat,
                    ),
            decreases order@.len() - q,
        {
            let s = &segments[order[q]];
            proof {
                lemma_widest(segments@, order@[q as int] as int);
                assert(prompt_len(segments@[order@[q as int] as int]) <= usize::MAX);
            }
            let room: usize = k::CAPACITY - width - 1;
            let most: usize = s.text_len * k::MAX_TOKEN_RATIO;
            let lane = Lane {
                out: Vec::new(),
                done: false,
                min_len: s.text_len * k::MIN_TOKEN_RATIO,
                max_len: if most <= room {
                    most
                } else {
                    room
                },
                pad: width - (s.text.len() + s.speech.len() + 2),
            };
            assert(lane@.out =~= Seq::<u32>::empty());
            lanes.push(lane);
            q += 1;
        }
        let live: usize = lanes.len();
        let b = Batch { order, prompts, lanes, width, live, step: 0 };
        proof {
            let v = b@;
            assert forall|i: int| 0 <= i < v.lanes.len() implies #[trigger] v.lanes[i]
                == lane_start(segments@[v.order[i] as int], v.width) by {
                assert(b.lanes@[i]@ == lane_start(segments@[v.order[i] as int], v.width));
            }
            assert forall|i: int| 0 <= i < v.lanes.len() implies (
            #[trigger] v.lanes[i]).pad <= v.width by {
                lemma_widest(segments@, v.order[i] as int);
            }
            lemma_last_step_bound(v.lanes, (k::CAPACITY - v.width - 1) as nat);
        }
        Ok(b)
    }

    /// The first `live` lanes' padding.
    pub fn pads(&self) -> (v: Vec<usize>)
        requires
            self.wf(),
        ensures
            v@.len() == self.live,
            forall|i: int| 0 <= i < v@.len() ==> #[trigger] v@[i] == self@.lanes[i].pad,
    {
        let mut v: Vec<usize> = Vec::new();
        let mut i: usize = 0;
        while i < self.live
            invariant
                i <= self.live <= self.lanes@.len(),
                v@.len() == i,
                forall|j: int| 0 <= j < i ==> #[trigger] v@[j] == self@.lanes[j].pad,
            decreases self.live - i,
        {
            v.push(self.lanes[i].pad);
            assert(self@.lanes[i as int].pad == self.lanes@[i as int].pad);
            i += 1;
        }
        v
    }

    /// Is the run over? Every lane has finished, or no lane was given a step.
    pub fn over(&self) -> (r: bool)
        requires
            self.wf(),
        ensures
            r == (self.live == 0 || self.step >= last_step(self@.lanes)),
    {
        if self.live == 0 {
            return true;
        }
        let ghost all = self@.lanes;
        let mut m: usize = 0;
        let mut i: usize = 0;
        while i < self.lanes.len()
            invariant
                i <= self.lanes@.len(),
                all == self@.lanes,
                m == last_step(all.take(i as int)),
            decreases self.lanes@.len() - i,
        {
            assert(all.take(i + 1).drop_last() =~= all.take(i as int));
            assert(all[i as int].max_len == self.lanes@[i as int].max_len);
            if self.lanes[i].max_len > m {
                m = self.lanes[i].max_len;
            }
            i += 1;
        }
        assert(all.take(i as int) =~= all);
        self.step >= m
    }

    /// Is the start marker masked for this lane in the coming step?
    pub fn start_masked(&self, lane: usize) -> (r: bool)
        requires
            lane < self.lanes@.len(),
        ensures
            r == (self.step < self@.lanes[lane as int].min_len),
    {
        assert(self@.lanes[lane as int].min_len == self.lanes@[lane as int].min_len);
        self.step < self.lanes[lane].min_len
    }

    /// Takes in the token drawn for each live lane, sheds the finished tail, and says what to
    /// feed the lanes that are left. What was drawn for a finished lane does not count.
    pub fn hear(&mut self, drawn: &Vec<u32>) -> (feed: Vec<u32>)
        requires
            old(self).wf(),
            old(self).live > 0,
            old(self).step < last_step(old(self)@.lanes),
            drawn@.len() == old(self).live,
        ensures
            final(self)@ == heard(old(self)@, drawn@),
            final(self).wf(),
            feed@.len() == final(self).live,
            forall|i: int|
                0 <= i < feed@.len() ==> #[trigger] feed@[i] == lane_feed(
                    old(self)@.lanes[i],
                    drawn@[i],
                ),
            final(self).step == last_step(final(self)@.lanes) ==> final(self).live == 0,
    {
        let ghost start = self@;
        let ghost want = heard(start, drawn@);
        let mut fed: Vec<u32> = Vec::new();
        let step: usize = self.step;
        let mut i: usize = 0;
        while i < self.live
            invariant
                i <= self.live <= self.lanes@.len(),
                drawn@.len() == self.live,
                start == old(self)@,
                want == heard(start, drawn@),
                batch_wf(start),
                step == self.step,
                step < last_step(start.lanes),
                self.order == old(self).order,
                self.prompts == old(self).prompts,
                self.width == old(self).width,
                self.live == old(self).live,
                self.step == old(self).step,
                self.lanes@.len() == start.lanes.len(),
                fed@.len() == i,
                forall|j: int| 0 <= j < i ==> (#[trigger] self.lanes@[j])@ == want.lanes[j],
                forall|j: int|
                    i <= j < self.lanes@.len() ==> (#[trigger] self.lanes@[j])@ == start.lanes[j],
                forall|j: int|
                    0 <= j < i ==> #[trigger] fed@[j] == lane_feed(start.lanes[j], drawn@[j]),
            decreases self.live - i,
        {
            let token = drawn[i];
            let mut x: u32 = 0;
            if !self.lanes[i].done {
                if token as usize >= k::SPEECH_TOKENS {
                    self.lanes[i].done = true;
                } else {
                    self.lanes[i].out.push(token);
                    x = token;
                    if step + 1 >= self.lanes[i].max_len {
                        self.lanes[i].done = true;
                    }
                }
            }
            fed.push(x);
            i += 1;
        }
        assert(self@.lanes =~= want.lanes);
        let ghost full = self.live as nat;
        proof {
            lemma_live_after(want.lanes, full);
        }
        while self.live > 0 && self.lanes[self.live - 1].done
            invariant
                self.live <= self.lanes@.len(),
                self@.lanes == want.lanes,
                live_after(want.lanes, self.live as nat) == live_after(want.lanes, full),
                self.order == old(self).order,
                self.prompts == old(self).prompts,
                self.width == old(self).width,
                self.step == old(self).step,
            decreases self.live,
        {
            assert(self@.lanes[self.live - 1] == self.lanes@[self.live - 1]@);
            self.live = self.live - 1;
        }
        assert(self.live > 0 ==> self@.lanes[self.live - 1] == self.lanes@[self.live - 1]@);
        self.step = step + 1;
        let feed = copy_range(fed.as_slice(), 0, self.live);
        proof {
            let v = self@;
            assert(v == want);
            lemma_last_step_same(v.lanes, start.lanes);
            assert forall|j: int| v.live <= j < v.lanes.len() implies (
            #[trigger] v.lanes[j]).done by {
                assert(start.lanes[j].done || j < start.live);
            }
            assert forall|j: int| 0 <= j < v.lanes.len() implies (
            #[trigger] v.lanes[j]).out.len() <= v.step && (!v.lanes[j].done
                ==> v.lanes[j].out.len() == v.step && (v.step == 0 || v.step
                < v.lanes[j].max_len)) by {
                assert(start.lanes[j].out.len() <= start.step);
                assert(j >= start.live ==> start.lanes[j].done);
            }
            assert forall|j: int| 0 <= j < v.lanes.len() implies (
            #[trigger] v.lanes[j]).pad <= v.width by {
                assert(start.lanes[j].pad <= start.width);
            }
            if v.step == last_step(v.lanes) && v.live > 0 {
                lemma_last_step(v.lanes, v.live - 1);
                lemma_live_top(want.lanes, full);
                assert(!v.lanes[v.live - 1].done);
            }
        }
        feed
    }

    /// The tokens of every segment, in the order in which the segments were given.
    pub fn finish(&self) -> (out: Vec<Vec<u32>>)
        requires
            self.wf(),
        ensures
            out@.len() == self.lanes@.len(),
            forall|i: int|
                0 <= i < self.lanes@.len() ==> out@[(#[trigger] self.order@[i]) as int]@
                    == self@.lanes[i].out,
    {
        let mut out: Vec<Vec<u32>> = Vec::new();
        let n: usize = self.lanes.len();
        let mut p: usize = 0;
        while p < n
            invariant
                p <= n == self.lanes@.len(),
                self.wf(),
                out@.len() == p,
                forall|i: int|
                    0 <= i < n && (#[trigger] self.order@[i]) < p
                        ==> out@[self.order@[i] as int]@ == self@.lanes[i].out,
            decreases n - p,
        {
            let lane: usize = place_of(&self.order, p);
            assert(self@.lanes[lane as int].out == self.lanes@[lane as int].out@);
            let tokens = copy_vec(&self.lanes[lane].out);
            out.push(tokens);
            p += 1;
        }
        out
    }

    /// The mask of the pass over the prompts, or `None` when no lane is padded.
    pub fn prefill_mask(&self, pads: &Vec<usize>) -> (mask: Option<Vec<bool>>)
        requires
            pads@.len() * self.width * self.width <= usize::MAX,
        ensures
            match mask {
                None => !masks::padded(pads@),
                Some(m) => masks::padded(pads@) && masks::is_grid(
                    m@,
                    pads@.len() * self.width * self.width,
                    |q: int| masks::prefill_at(pads@, self.width as int, q),
                ),
            },
    {
        if !any_padded(pads) {
            return None;
        }
        Some(prefill_grid(pads, self.width))
    }
}

proof fn lemma_live_top(lanes: Seq<LaneView>, live: nat)
    requires
        live <= lanes.len(),
    ensures
        live_after(lanes, live) > 0 ==> !lanes[live_after(lanes, live) - 1].done,
    decreases live,
{
    if live > 0 && lanes[live - 1].done {
        lemma_live_top(lanes, (live - 1) as nat);
    }
}

/// The mask of a decode step over `span` positions, or `None` when no lane is padded.
pub fn decode_mask(pads: &Vec<usize>, span: usize) -> (mask: Option<Vec<bool>>)
    requires
        pads@.len() * span <= usize::MAX,
    ensures
        match mask {
            None => !masks::padded(pads@),
            Some(m) => masks::padded(pads@) && masks::is_grid(
                m@,
                pads@.len() * span,
                |q: int| masks::decode_at(pads@, span as int, q),
            ),
        },
{
    if !any_padded(pads) {
        return None;
    }
    Some(decode_grid(pads, span))
}

/// What a step asks of the caches before it runs.
pub fn step_batch(width: usize, lanes: usize, tokens: usize) -> (r: Result<usize, LlmError>)
    ensures
        match r {
            Ok(next) => width < k::CAPACITY && tokens == lanes && next == width + 1,
            Err(LlmError::CacheFull) => width >= k::CAPACITY,
            Err(LlmError::LaneMismatch { tokens: t, lanes: l }) => width < k::CAPACITY && tokens
                != lanes && t == tokens && l == lanes,
            Err(_) => false,
        },
{
    if width >= k::CAPACITY {
        return Err(LlmError::CacheFull);
    }
    if tokens != lanes {
        return Err(LlmError::LaneMismatch { tokens, lanes });
    }
    Ok(width + 1)
}

} // verus!
