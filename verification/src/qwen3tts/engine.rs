//! Qwen3-TTS behind the engine-neutral types: what it can do, how its segments are grouped, which
//! of them look wrong, and how the results become an utterance.

use crate::assemble;
use crate::assemble::{cut, join_pieces, plan_segments};
use crate::chars;
use crate::engine;
use crate::engine::{validate_with_voice, Capabilities, Cloning, EngineConfig, FrameRate, Refusal,
    SynthesisRequest, Utterance, DEFAULT_TOP_K};
use crate::grid;
use crate::number;
use crate::number::parse_positive;
use crate::order;
use crate::order::order_by;
use crate::quant;
use crate::quant::{parse_weight, QuantError, Weight};
use crate::qwen3tts::cfg;
use crate::qwen3tts::cfg::talker::{language_id, tag_of};
use crate::text;
use crate::text::same;
use crate::settings;
use crate::tokens;
use crate::tokens::Tokens;
use crate::voice;
use crate::voice::Voice;
use tokenizers::Tokenizer;
use vstd::prelude::*;

verus! {

pub const ID: &'static str = "qwen3tts";

/// What a request without a voice is answered.
pub const NO_VOICE: &'static str = "engine `qwen3tts` requires a voice asset: the talker's prefill carries the reference clip's speaker embedding, and in-context cloning also needs its codes and transcript. Build one with references/qwen3tts/export_voice.py";

/// Lanes per batched decode. Bounded by memory, not by diminishing returns.
pub const MAX_BATCH: usize = 24;

/// Frames a batched lane may reach before the group is redone one segment at a time.
///
/// The cache is sized for this. A lane that does reach it is rerun unbatched with the full budget
/// rather than truncated, so this bounds memory without bounding output.
pub const BATCH_FRAME_CAP: usize = 512;

/// Below this many characters a segment's frames-per-character ratio is too noisy to judge.
pub const SEGMENT_MIN_CHARS: usize = 40;

/// Below this many frames the distinct-code count is not meaningful.
pub const SEGMENT_MIN_FRAMES: usize = 24;

/// The formats that load, the default first.
pub open spec fn formats() -> Seq<Seq<char>> {
    seq!["q8_0"@, "f16"@, "f32"@, "q5_0"@, "q4_1"@, "q4_0"@]
}

/// The formats that load, the preferred one first.
pub(crate) fn format_list() -> (v: Vec<&'static str>)
    ensures
        quant::listed(v@) == formats(),
{
    let mut v: Vec<&'static str> = Vec::new();
    v.push("q8_0");
    v.push("f16");
    v.push("f32");
    v.push("q5_0");
    v.push("q4_1");
    v.push("q4_0");
    assert(quant::listed(v@) =~= formats());
    v
}

/// What this engine says of itself.
pub open spec fn described(c: Capabilities) -> bool {
    &&& c.id@ == "qwen3tts"@
    &&& c.description@
        == "Qwen3-TTS-12Hz-1.7B-Base — Qwen3 talker, 15-step depth transformer, RVQ codec decoder. 24 kHz, no diffusion. Ten languages only (en, de, es, zh, ja, fr, ko, ru, it, pt)"@
    &&& c.sample_rate == cfg::SAMPLE_RATE
    &&& c.frame_rate == (FrameRate { frames: 25, seconds: 2 })
    &&& c.cloning == Cloning::PrecomputedAsset
    &&& !c.streaming
    &&& quant::listed(c.quantization@) == formats()
    &&& c.available
    &&& c.reason is None
}

/// What this engine can do.
///
/// The architecture streams; nothing here offers it yet, so it is not claimed.
pub fn capabilities() -> (c: Capabilities)
    ensures
        described(c),
{
    Capabilities {
        id: "qwen3tts",
        description: "Qwen3-TTS-12Hz-1.7B-Base — Qwen3 talker, 15-step depth transformer, RVQ codec decoder. 24 kHz, no diffusion. Ten languages only (en, de, es, zh, ja, fr, ko, ru, it, pt)",
        sample_rate: cfg::SAMPLE_RATE as u32,
        frame_rate: FrameRate { frames: 25, seconds: 2 },
        cloning: Cloning::PrecomputedAsset,
        streaming: false,
        quantization: format_list(),
        available: true,
        reason: None,
    }
}

/// What to load for a format name.
pub fn parse_quant(name: Option<&str>) -> (r: Result<Weight, QuantError>)
    ensures
        ({
            let n = quant::name_or_default(quant::name_view(name));
            match r {
                Ok(Weight::F32) => n == "f32"@,
                Ok(Weight::F16) => n != "f32"@ && n == "f16"@,
                Ok(Weight::Quant(f)) => n != "f32"@ && n != "f16"@ && quant::format_named(n)
                    == Some(f),
                Err(QuantError::Unknown { name: m }) => m@ == n && n != "f32"@ && n != "f16"@
                    && quant::format_named(n) is None,
                Err(QuantError::LargeBlocks { .. }) => false,
            }
        }),
{
    parse_weight(name)
}

/// Checkpoint paths: the talker at the root, the codec below it.
pub struct Paths {
    pub talker: String,
    pub codec: String,
    pub vocab: String,
    pub merges: String,
}

/// The files among four that are not there.
pub open spec fn absent(paths: Seq<Seq<char>>, present: Seq<bool>) -> Seq<Seq<char>>
    decreases paths.len(),
{
    if paths.len() == 0 {
        Seq::empty()
    } else {
        let before = absent(paths.drop_last(), present.drop_last());
        if present.last() {
            before
        } else {
            before.push(paths.last())
        }
    }
}

impl Paths {
    /// The four files, in the order in which they are reported.
    pub open spec fn all(&self) -> Seq<Seq<char>> {
        seq![self.talker@, self.codec@, self.vocab@, self.merges@]
    }

    /// Where the engine's files are.
    pub fn resolve(config: &EngineConfig) -> (p: Self)
        ensures
            p.talker@ == engine::located(*config, "talker"@, "model.safetensors"@),
            p.codec@ == engine::located(
                *config,
                "codec"@,
                "speech_tokenizer/model.safetensors"@,
            ),
            p.vocab@ == engine::located(*config, "vocab"@, "vocab.json"@),
            p.merges@ == engine::located(*config, "merges"@, "merges.txt"@),
    {
        Paths {
            talker: config.path("talker", "model.safetensors"),
            codec: config.path("codec", "speech_tokenizer/model.safetensors"),
            vocab: config.path("vocab", "vocab.json"),
            merges: config.path("merges", "merges.txt"),
        }
    }

    /// Given which of the four files are there, reports every missing one at once.
    pub fn check(&self, present: &[bool; 4]) -> (r: Result<(), Vec<String>>)
        ensures
            match r {
                Ok(_) => present@ == seq![true, true, true, true],
                Err(missing) => chars::texts(missing@) == absent(self.all(), present@)
                    && missing@.len() > 0,
            },
    {
        let mut missing: Vec<String> = Vec::new();
        let ghost a = self.all();
        proof {
            assert(present@.len() == 4);
            assert(chars::texts(missing@) =~= absent(a.take(0), present@.take(0)));
            assert(a.take(1).drop_last() =~= a.take(0));
            assert(a.take(2).drop_last() =~= a.take(1));
            assert(a.take(3).drop_last() =~= a.take(2));
            assert(a.drop_last() =~= a.take(3));
            assert(present@.take(1).drop_last() =~= present@.take(0));
            assert(present@.take(2).drop_last() =~= present@.take(1));
            assert(present@.take(3).drop_last() =~= present@.take(2));
            assert(present@.drop_last() =~= present@.take(3));
        }
        if !present[0] {
            let ghost done = chars::texts(missing@);
            missing.push(self.talker.clone());
            assert(chars::texts(missing@) =~= done.push(self.talker@));
        }
        assert(chars::texts(missing@) == absent(a.take(1), present@.take(1)));
        if !present[1] {
            let ghost done = chars::texts(missing@);
            missing.push(self.codec.clone());
            assert(chars::texts(missing@) =~= done.push(self.codec@));
        }
        assert(chars::texts(missing@) == absent(a.take(2), present@.take(2)));
        if !present[2] {
            let ghost done = chars::texts(missing@);
            missing.push(self.vocab.clone());
            assert(chars::texts(missing@) =~= done.push(self.vocab@));
        }
        assert(chars::texts(missing@) == absent(a.take(3), present@.take(3)));
        if !present[3] {
            let ghost done = chars::texts(missing@);
            missing.push(self.merges.clone());
            assert(chars::texts(missing@) =~= done.push(self.merges@));
        }
        assert(chars::texts(missing@) == absent(a, present@));
        if missing.len() == 0 {
            assert(present@ =~= seq![true, true, true, true]);
            return Ok(());
        }
        Err(missing)
    }
}

fn lower_char(c: char) -> (r: char)
    ensures
        r == chars::ascii_lower(c),
{
    if 'A' <= c && c <= 'Z' {
        (c as u8 + 32) as char
    } else {
        c
    }
}

/// `s` in lower-case ASCII.
pub fn to_ascii_lowercase(s: &str) -> (r: String)
    ensures
        r@ == chars::ascii_lowered(s@),
{
    let v = chars::to_chars(s);
    let mut r = String::new();
    let mut i: usize = 0;
    while i < v.len()
        invariant
            i <= v@.len(),
            v@ == s@,
            r@ == chars::ascii_lowered(s@).take(i as int),
        decreases v@.len() - i,
    {
        r.push(lower_char(v[i]));
        i += 1;
        assert(chars::ascii_lowered(s@).take(i as int) =~= chars::ascii_lowered(s@).take(i - 1).push(
            chars::ascii_lowered(s@)[i - 1],
        ));
    }
    assert(chars::ascii_lowered(s@).take(i as int) =~= chars::ascii_lowered(s@));
    r
}

/// The language tag to prefill: none without the setting or for `auto`, an error for a language
/// outside the list.
pub fn language(config: &EngineConfig) -> (r: Result<Option<u32>, String>)
    ensures
        match engine::looked_up(config.overrides@, "language"@) {
            None => r == Ok::<Option<u32>, String>(None),
            Some(name) => {
                let lower = chars::ascii_lowered(name);
                match r {
                    Ok(None) => lower == "auto"@,
                    Ok(Some(t)) => lower != "auto"@ && tag_of(lower) == Some(t),
                    Err(n) => lower != "auto"@ && tag_of(lower) is None && n@ == name,
                }
            },
        },
{
    match config.setting("language") {
        None => Ok(None),
        Some(name) => {
            let lower = to_ascii_lowercase(name.as_str());
            if same(lower.as_str(), "auto") {
                return Ok(None);
            }
            match language_id(lower.as_str()) {
                Some(t) => Ok(Some(t)),
                None => Err(name.clone()),
            }
        },
    }
}

/// The lanes that a tuning variable asks for: a positive number, or the usual ones.
pub open spec fn tuned(tuning: Option<Seq<char>>) -> usize {
    match tuning {
        Some(s) => if number::writes_number(s) && number::value(number::unsigned_part(s)) > 0 {
            number::value(number::unsigned_part(s)) as usize
        } else {
            MAX_BATCH
        },
        None => MAX_BATCH,
    }
}

/// The lanes per batch, given the tuning variable's value where it is set.
pub fn max_batch(tuning: Option<&str>) -> (n: usize)
    ensures
        n == tuned(quant::name_view(tuning)),
        n > 0,
{
    match tuning {
        Some(s) => match parse_positive(s) {
            Some(n) => n,
            None => MAX_BATCH,
        },
        None => MAX_BATCH,
    }
}

/// The lanes per batch of weights that batch or do not: only dense ones gain from sharing a pass,
/// so all others decode one segment at a time.
pub fn lanes(batches: bool, tuning: Option<&str>) -> (n: usize)
    ensures
        !batches ==> n == 1,
        batches ==> n == tuned(quant::name_view(tuning)),
        n > 0,
{
    if batches {
        max_batch(tuning)
    } else {
        1
    }
}

/// The candidates to keep: the model's own number where the request leaves the shared default.
pub fn pick_top_k(requested: usize) -> (k: usize)
    ensures
        k == if requested == DEFAULT_TOP_K {
            cfg::talker::TOP_K
        } else {
            requested
        },
{
    if requested == DEFAULT_TOP_K {
        cfg::talker::TOP_K
    } else {
        requested
    }
}

/// The frames that a segment may take: as many as asked for, within the talker's limits.
pub open spec fn budget_for(max_new_tokens: usize) -> usize {
    if max_new_tokens < 1 {
        1
    } else if max_new_tokens > cfg::talker::MAX_NEW_TOKENS {
        cfg::talker::MAX_NEW_TOKENS
    } else {
        max_new_tokens
    }
}

/// The frames that a segment may take.
pub fn frame_budget(max_new_tokens: usize) -> (n: usize)
    ensures
        n == budget_for(max_new_tokens),
        1 <= n <= cfg::talker::MAX_NEW_TOKENS,
{
    if max_new_tokens < 1 {
        1
    } else if max_new_tokens > cfg::talker::MAX_NEW_TOKENS {
        cfg::talker::MAX_NEW_TOKENS
    } else {
        max_new_tokens
    }
}

/// The frames that a lane of a batch may take.
pub fn batch_cap(budget: usize) -> (n: usize)
    ensures
        n == if budget <= BATCH_FRAME_CAP {
            budget
        } else {
            BATCH_FRAME_CAP
        },
{
    if budget <= BATCH_FRAME_CAP {
        budget
    } else {
        BATCH_FRAME_CAP
    }
}

/// Why nothing is synthesized.
#[derive(Clone, Copy, PartialEq, Eq, Structural, Debug)]
pub enum SpeakError {
    Refused(Refusal),
    /// No text to speak.
    NoText,
    /// The engine generated no frames.
    NoFrames,
    /// The engine produced no audio.
    NoAudio,
}

/// Checks a request and lays out what to speak: paragraph number and text of each segment, in
/// reading order.
pub fn plan(request: &SynthesisRequest) -> (r: Result<Vec<(usize, String)>, SpeakError>)
    ensures
        match r {
            Ok(v) => request.voice is Some && engine::voice_fits("qwen3tts"@, request.voice)
                && v@.len() > 0 && assemble::numbered(v@) == assemble::flat(
                text::segmented(request.text@, request.max_chars as nat),
            ),
            Err(SpeakError::Refused(Refusal::NoVoice)) => request.voice is None,
            Err(SpeakError::Refused(e)) => e == Refusal::WrongVoice && !engine::voice_fits(
                "qwen3tts"@,
                request.voice,
            ),
            Err(SpeakError::NoText) => request.voice is Some && engine::voice_fits(
                "qwen3tts"@,
                request.voice,
            ) && assemble::flat(text::segmented(request.text@, request.max_chars as nat)).len()
                == 0,
            Err(_) => false,
        },
{
    let caps = capabilities();
    if let Err(e) = validate_with_voice(&caps, request) {
        return Err(SpeakError::Refused(e));
    }
    match plan_segments(request.text.as_str(), request.max_chars) {
        Some(v) => Ok(v),
        None => Err(SpeakError::NoText),
    }
}

/// The segments to speak with their tokens.
pub fn tokenize(tokenizer: &Tokenizer, segments: &Vec<(usize, String)>) -> (r: Result<
    Vec<Tokens>,
    String,
>)
    ensures
        match r {
            Ok(out) => settings::harmless(*tokenizer, false) && tokens::tokenized(
                *tokenizer,
                out@,
                segments@,
                false,
            ),
            Err(_) => tokens::may_refuse(*tokenizer, segments@, false),
        },
        !settings::harmless(*tokenizer, false) ==> (r matches Err(e) && e@ == tokens::NOT_ENCODABLE@),
        settings::fixed(*tokenizer) ==> match r {
            Ok(out) => tokens::takes_all(*tokenizer, segments@, false) && tokens::tokens_of(
                out@,
                segments@,
                tokens::encodings(*tokenizer, segments@, false),
            ),
            Err(_) => !tokens::takes_all(*tokenizer, segments@, false),
        },
{
    tokens::tokenize(tokenizer, segments, false)
}

/// The clip that a voice is cloned from, as far as the voice carries it.
pub struct Reference {
    /// Its codes, frame by frame.
    pub codes: Vec<Vec<u32>>,
    /// Its transcript tokens.
    pub text: Vec<u32>,
}

/// `rows` are what the voice's tensor of that name holds. There are none where it has no such
/// tensor, or none that reads as rows; one that is not on the host may fail to come over.
pub open spec fn rows_or_none(v: Voice, name: Seq<char>, rows: Seq<Seq<u32>>) -> bool {
    match voice::found(v.tensors@, name) {
        None => rows.len() == 0,
        Some(t) => if !voice::gives_rows(t) {
            rows.len() == 0
        } else {
            voice::reads_rows(t, rows) || !voice::on_host(t) && rows.len() == 0
        },
    }
}

/// The first of some rows, nothing where there is none.
pub open spec fn first_or_nothing(rows: Seq<Seq<u32>>) -> Seq<u32> {
    if rows.len() > 0 {
        rows[0]
    } else {
        Seq::empty()
    }
}

/// `r` is what the voice says of its clip.
pub open spec fn refers(v: Voice, r: Reference) -> bool {
    &&& rows_or_none(v, "ref_codes"@, grid::rows_view(r.codes@))
    &&& exists|rows: Seq<Seq<u32>>| #[trigger]
        rows_or_none(v, "ref_text_tokens"@, rows) && r.text@ == first_or_nothing(rows)
}

/// Puts together what was read of a voice: the rows of its codes and of its transcript's tokens,
/// nothing where they could not be read.
pub fn reference_of(codes: Option<Vec<Vec<u32>>>, said: Option<Vec<Vec<u32>>>) -> (r: Reference)
    ensures
        r.codes@ == match codes {
            Some(rows) => rows@,
            None => Seq::empty(),
        },
        r.text@ == match said {
            Some(rows) => if rows@.len() > 0 {
                rows@[0]@
            } else {
                Seq::empty()
            },
            None => Seq::empty(),
        },
{
    let codes: Vec<Vec<u32>> = match codes {
        Some(rows) => rows,
        None => Vec::new(),
    };
    let text: Vec<u32> = match said {
        Some(rows) => if rows.len() > 0 {
            grid::copy_vec(&rows[0])
        } else {
            Vec::new()
        },
        None => Vec::new(),
    };
    Reference { codes, text }
}

/// What the voice says of its clip. Both parts are optional: without them the voice is cloned from
/// its speaker embedding alone.
pub fn reference(v: &Voice) -> (r: Reference)
    ensures
        refers(*v, r),
        !voice::names(v.tensors@).contains("ref_codes"@) ==> r.codes@.len() == 0,
        !voice::names(v.tensors@).contains("ref_text_tokens"@) ==> r.text@.len() == 0,
{
    proof {
        voice::a_name_finds_its_first_tensor(v.tensors@, "ref_codes"@);
        voice::a_name_finds_its_first_tensor(v.tensors@, "ref_text_tokens"@);
    }
    let codes = match v.get_rows_u32("ref_codes") {
        Ok(rows) => Some(rows),
        Err(_) => None,
    };
    let said = match v.get_rows_u32("ref_text_tokens") {
        Ok(rows) => Some(rows),
        Err(_) => None,
    };
    proof {
        let rows = if said is Some {
            grid::rows_view(said->0@)
        } else {
            Seq::empty()
        };
        assert(rows_or_none(*v, "ref_text_tokens"@, rows));
        if codes is None {
            assert(rows_or_none(*v, "ref_codes"@, Seq::empty()));
            assert(grid::rows_view(Seq::<Vec<u32>>::empty()) =~= Seq::<Seq<u32>>::empty());
        }
    }
    reference_of(codes, said)
}

/// A segment whose prompt is ready.
#[derive(Clone, Copy, PartialEq, Eq, Structural, Debug)]
pub struct Prepared {
    pub para: usize,
    /// Characters of its text.
    pub chars: usize,
    /// Positions of its prompt.
    pub prompt: usize,
    /// Positions of the text that follows it.
    pub trailing: usize,
}

/// Two segments that can share a batch: their prompts and what follows are equally long.
pub open spec fn alike(a: Prepared, b: Prepared) -> bool {
    a.prompt == b.prompt && a.trailing == b.trailing
}

/// `f` is the first segment like `i`.
pub open spec fn leads(p: Seq<Prepared>, f: int, i: int) -> bool {
    &&& 0 <= f <= i < p.len()
    &&& alike(p[f], p[i])
    &&& forall|j: int| 0 <= j < f ==> !alike(#[trigger] p[j], p[i])
}

/// Segment `a` is grouped before segment `b`: by the first segment of their shape, then by
/// length, then by position.
pub open spec fn before(p: Seq<Prepared>, leaders: Seq<usize>, a: int, b: int) -> bool {
    ||| leaders[a] < leaders[b]
    ||| leaders[a] == leaders[b] && p[a].chars < p[b].chars
    ||| leaders[a] == leaders[b] && p[a].chars == p[b].chars && a < b
}

/// `leaders[i]` is the first segment like `i`.
pub open spec fn all_led(p: Seq<Prepared>, leaders: Seq<usize>) -> bool {
    &&& leaders.len() == p.len()
    &&& forall|i: int| 0 <= i < p.len() ==> leads(p, #[trigger] leaders[i] as int, i)
}

/// `order` lists the segments as [`before`] puts them.
pub open spec fn grouped(p: Seq<Prepared>, leaders: Seq<usize>, order: Seq<usize>) -> bool {
    &&& order::permutation(order, p.len())
    &&& forall|a: int, b: int|
        0 <= a < b < order.len() ==> before(
            p,
            leaders,
            #[trigger] order[a] as int,
            #[trigger] order[b] as int,
        )
}

/// The first `n` segments of `order` in groups: one joins the last group while that has room and
/// is of its shape.
pub open spec fn grouped_up_to(
    order: Seq<usize>,
    leaders: Seq<usize>,
    lanes: nat,
    n: int,
) -> Seq<Seq<usize>>
    decreases n,
{
    if n <= 0 {
        Seq::empty()
    } else {
        let done = grouped_up_to(order, leaders, lanes, n - 1);
        let i = order[n - 1];
        if done.len() > 0 && done.last().len() < lanes && leaders[done.last()[0] as int]
            == leaders[i as int] {
            done.update(done.len() - 1, done.last().push(i))
        } else {
            done.push(seq![i])
        }
    }
}

fn find_leaders(p: &Vec<Prepared>) -> (leaders: Vec<usize>)
    ensures
        all_led(p@, leaders@),
{
    let mut leaders: Vec<usize> = Vec::new();
    let mut i: usize = 0;
    while i < p.len()
        invariant
            i <= p@.len(),
            leaders@.len() == i,
            forall|j: int| 0 <= j < i ==> leads(p@, #[trigger] leaders@[j] as int, j),
        decreases p@.len() - i,
    {
        let mut f: usize = 0;
        while f < i && !(p[f].prompt == p[i].prompt && p[f].trailing == p[i].trailing)
            invariant
                f <= i < p@.len(),
                forall|j: int| 0 <= j < f ==> !alike(#[trigger] p@[j], p@[i as int]),
            decreases i - f,
        {
            f += 1;
        }
        leaders.push(f);
        i += 1;
    }
    leaders
}

/// How segments decode together.
pub struct Groups {
    /// The first segment of each segment's shape.
    pub leaders: Vec<usize>,
    /// The segments in the order in which they decode.
    pub order: Vec<usize>,
    pub groups: Vec<Vec<usize>>,
}

fn decode_order(p: &Vec<Prepared>, leaders: &Vec<usize>) -> (order: Vec<usize>)
    requires
        all_led(p@, leaders@),
    ensures
        grouped(p@, leaders@, order@),
{
    let mut sizes: Vec<usize> = Vec::new();
    let mut i: usize = 0;
    while i < p.len()
        invariant
            i <= p@.len(),
            sizes@.len() == i,
            forall|j: int| 0 <= j < i ==> #[trigger] sizes@[j] == p@[j].chars,
        decreases p@.len() - i,
    {
        sizes.push(p[i].chars);
        i += 1;
    }
    let by_size = order_by(&sizes, false);
    let mut firsts: Vec<usize> = Vec::new();
    let mut j: usize = 0;
    while j < by_size.len()
        invariant
            j <= by_size@.len() == leaders@.len(),
            order::ordered(sizes@, false, by_size@),
            sizes@.len() == leaders@.len(),
            firsts@.len() == j,
            forall|q: int| 0 <= q < j ==> #[trigger] firsts@[q] == leaders@[by_size@[q] as int],
        decreases by_size@.len() - j,
    {
        firsts.push(leaders[by_size[j]]);
        j += 1;
    }
    let by_first = order_by(&firsts, false);
    let mut order: Vec<usize> = Vec::new();
    let mut k: usize = 0;
    while k < by_first.len()
        invariant
            k <= by_first@.len() == by_size@.len(),
            order::ordered(firsts@, false, by_first@),
            firsts@.len() == by_size@.len(),
            order@.len() == k,
            forall|q: int| 0 <= q < k ==> #[trigger] order@[q] == by_size@[by_first@[q] as int],
        decreases by_first@.len() - k,
    {
        order.push(by_size[by_first[k]]);
        k += 1;
    }
    proof {
        let n = p@.len();
        assert forall|a: int, b: int| 0 <= a < b < order@.len() implies before(
            p@,
            leaders@,
            #[trigger] order@[a] as int,
            #[trigger] order@[b] as int,
        ) by {
            let x = by_first@[a] as int;
            let y = by_first@[b] as int;
            assert(order::precedes(firsts@, false, x, y));
            assert(firsts@[x] == leaders@[by_size@[x] as int]);
            assert(firsts@[y] == leaders@[by_size@[y] as int]);
            if firsts@[x] == firsts@[y] {
                assert(x < y);
                assert(order::precedes(sizes@, false, by_size@[x] as int, by_size@[y] as int));
                assert(sizes@[by_size@[x] as int] == p@[by_size@[x] as int].chars);
                assert(sizes@[by_size@[y] as int] == p@[by_size@[y] as int].chars);
            }
        }
        assert forall|a: int, b: int| 0 <= a < b < n implies order@[a] != order@[b] by {
            assert(before(p@, leaders@, order@[a] as int, order@[b] as int));
        }
        assert forall|a: int| 0 <= a < n implies order@.contains(
            #[trigger] order::keys_index(a),
        ) by {
            assert(by_size@.contains(order::keys_index(a)));
            let x = choose|x: int| 0 <= x < by_size@.len() && by_size@[x] == order::keys_index(a);
            assert(by_first@.contains(order::keys_index(x)));
            let y = choose|y: int| 0 <= y < by_first@.len() && by_first@[y] == order::keys_index(x);
            assert(order@[y] == by_size@[x]);
        }
        assert forall|a: int| 0 <= a < n implies (#[trigger] order@[a]) < n by {
            assert(by_first@[a] < n);
        }
    }
    order
}

/// Groups segments of one shape, shorter ones first, at most `lanes` to a group.
///
/// A batched step costs the same whether all lanes are producing or one is, and a group runs as
/// long as its longest member, so similar lengths belong together. Ties go by position, so that a
/// rendering stays reproducible.
pub fn group(p: &Vec<Prepared>, lanes: usize) -> (g: Groups)
    requires
        lanes > 0,
    ensures
        all_led(p@, g.leaders@),
        grouped(p@, g.leaders@, g.order@),
        grid::rows_view(g.groups@) == grouped_up_to(
            g.order@,
            g.leaders@,
            lanes as nat,
            g.order@.len() as int,
        ),
{
    let leaders = find_leaders(p);
    let order = decode_order(p, &leaders);
    let mut groups: Vec<Vec<usize>> = Vec::new();
    let mut n: usize = 0;
    assert(grid::rows_view(groups@) =~= Seq::<Seq<usize>>::empty());
    while n < order.len()
        invariant
            n <= order@.len(),
            lanes > 0,
            order::permutation(order@, leaders@.len()),
            grid::rows_view(groups@) == grouped_up_to(
                order@,
                leaders@,
                lanes as nat,
                n as int,
            ),
            forall|q: int| 0 <= q < groups@.len() ==> (#[trigger] groups@[q])@.len() > 0,
            forall|q: int, r: int|
                0 <= q < groups@.len() && 0 <= r < groups@[q]@.len() ==> (
                #[trigger] groups@[q]@[r]) < leaders@.len(),
        decreases order@.len() - n,
    {
        let i: usize = order[n];
        let ghost done = grid::rows_view(groups@);
        let count: usize = groups.len();
        let mut joined = false;
        if count > 0 {
            assert(done.last() == groups@[count - 1]@);
            assert(groups@[count - 1]@[0] < leaders@.len());
            let room = groups[count - 1].len() < lanes;
            let first: usize = groups[count - 1][0];
            if room && leaders[first] == leaders[i] {
                groups[count - 1].push(i);
                assert(grid::rows_view(groups@) =~= done.update(
                    done.len() - 1,
                    done.last().push(i),
                ));
                joined = true;
            }
        }
        if !joined {
            let mut fresh: Vec<usize> = Vec::new();
            fresh.push(i);
            assert(fresh@ =~= seq![i]);
            groups.push(fresh);
            assert(grid::rows_view(groups@) =~= done.push(seq![i]));
        }
        n += 1;
    }
    Groups { leaders, order, groups }
}

/// A lane filled its cap, and so may have been cut off mid-sentence.
pub open spec fn capped(frames: Seq<Vec<Vec<u32>>>, cap: int) -> bool {
    exists|i: int| 0 <= i < frames.len() && (#[trigger] frames[i])@.len() >= cap
}

/// Must a batched group be redone one segment at a time?
pub fn must_rerun(frames: &Vec<Vec<Vec<u32>>>, cap: usize) -> (r: bool)
    ensures
        r == capped(frames@, cap as int),
{
    let mut i: usize = 0;
    while i < frames.len()
        invariant
            i <= frames@.len(),
            forall|j: int| 0 <= j < i ==> (#[trigger] frames@[j])@.len() < cap,
        decreases frames@.len() - i,
    {
        if frames[i].len() >= cap {
            return true;
        }
        i += 1;
    }
    false
}

/// How many different codes the first codebook takes in some frames.
pub open spec fn distinct_firsts(frames: Seq<Vec<u32>>) -> Set<u32>
    decreases frames.len(),
{
    if frames.len() == 0 {
        Set::empty()
    } else {
        distinct_firsts(frames.drop_last()).insert(frames.last()@[0])
    }
}

proof fn lemma_distinct_firsts(frames: Seq<Vec<u32>>, c: u32)
    ensures
        distinct_firsts(frames).finite(),
        distinct_firsts(frames).contains(c) <==> exists|i: int|
            0 <= i < frames.len() && (#[trigger] frames[i])@[0] == c,
    decreases frames.len(),
{
    if frames.len() > 0 {
        lemma_distinct_firsts(frames.drop_last(), c);
        let before = frames.drop_last();
        if distinct_firsts(before).contains(c) {
            let i = choose|i: int| 0 <= i < before.len() && (#[trigger] before[i])@[0] == c;
            assert(frames[i] == before[i]);
        }
        assert(frames[frames.len() - 1] == frames.last());
        assert forall|i: int| 0 <= i < frames.len() && (#[trigger] frames[i])@[0] == c implies
            distinct_firsts(frames).contains(c) by {
            if i < before.len() {
                assert(before[i] == frames[i]);
            }
        }
    }
}

/// Distinct codes of the first codebook across a segment's frames. A talker that has lost the
/// thread repeats one code.
pub fn distinct_first(frames: &Vec<Vec<u32>>) -> (n: usize)
    requires
        forall|i: int| 0 <= i < frames@.len() ==> (#[trigger] frames@[i])@.len() > 0,
    ensures
        n == distinct_firsts(frames@).len(),
        n <= frames@.len(),
{
    let mut n: usize = 0;
    let mut i: usize = 0;
    while i < frames.len()
        invariant
            n <= i <= frames@.len(),
            forall|j: int| 0 <= j < frames@.len() ==> (#[trigger] frames@[j])@.len() > 0,
            distinct_firsts(frames@.take(i as int)).finite(),
            n == distinct_firsts(frames@.take(i as int)).len(),
        decreases frames@.len() - i,
    {
        assert(frames@[i as int]@.len() > 0);
        let c: u32 = frames[i][0];
        let mut seen = false;
        let mut j: usize = 0;
        while j < i
            invariant
                j <= i < frames@.len(),
                forall|q: int| 0 <= q < frames@.len() ==> (#[trigger] frames@[q])@.len() > 0,
                seen == exists|q: int| 0 <= q < j && (#[trigger] frames@[q])@[0] == c,
            decreases i - j,
        {
            assert(frames@[j as int]@.len() > 0);
            if frames[j][0] == c {
                seen = true;
            }
            j += 1;
        }
        let ghost so_far = frames@.take(i as int);
        proof {
            lemma_distinct_firsts(so_far, c);
            assert(frames@.take(i + 1).drop_last() =~= so_far);
            assert(seen == distinct_firsts(so_far).contains(c)) by {
                if seen {
                    let q = choose|q: int| 0 <= q < i && (#[trigger] frames@[q])@[0] == c;
                    assert(so_far[q] == frames@[q]);
                }
                if distinct_firsts(so_far).contains(c) {
                    let q = choose|q: int|
                        0 <= q < so_far.len() && (#[trigger] so_far[q])@[0] == c;
                    assert(frames@[q] == so_far[q]);
                }
            }
        }
        if !seen {
            n += 1;
        } else {
            assert(distinct_firsts(so_far).insert(c) =~= distinct_firsts(so_far));
        }
        i += 1;
    }
    assert(frames@.take(i as int) =~= frames@);
    n
}

/// What is told of a segment once it is decoded.
#[derive(Clone, Copy, PartialEq, Eq, Structural, Debug)]
pub struct SegmentStat {
    /// Characters of its text.
    pub chars: usize,
    /// Frames it took.
    pub frames: usize,
    /// Distinct codes of the first codebook.
    pub distinct: usize,
}

/// The segments that emitted a frame, in reading order.
pub open spec fn voiced(results: Seq<Vec<Vec<u32>>>) -> Seq<int>
    decreases results.len(),
{
    if results.len() == 0 {
        Seq::empty()
    } else {
        let before = voiced(results.drop_last());
        if results.last()@.len() > 0 {
            before.push(results.len() - 1)
        } else {
            before
        }
    }
}

/// The frames of some segments, one behind the other.
pub open spec fn all_frames(results: Seq<Vec<Vec<u32>>>) -> Seq<Seq<u32>>
    decreases results.len(),
{
    if results.len() == 0 {
        Seq::empty()
    } else {
        all_frames(results.drop_last()) + grid::rows_view(results.last()@)
    }
}

/// The decoded segments as the codec takes them: one run of frames, and where each segment's
/// frames lie in it.
pub struct Spans {
    /// Paragraph of each segment that emitted a frame.
    pub paras: Vec<usize>,
    /// Its frames.
    pub lens: Vec<usize>,
    pub stats: Vec<SegmentStat>,
    pub frames: Vec<Vec<u32>>,
}

/// Results that belong to some prepared segments.
pub open spec fn spans_of(s: Spans, p: Seq<Prepared>, results: Seq<Vec<Vec<u32>>>) -> bool {
    let v = voiced(results);
    &&& s.paras@.len() == v.len()
    &&& s.lens@.len() == v.len()
    &&& s.stats@.len() == v.len()
    &&& grid::rows_view(s.frames@) == all_frames(results)
    &&& forall|k: int|
        0 <= k < v.len() ==> 0 <= #[trigger] v[k] < results.len() && s.paras@[k] == p[v[k]].para
            && s.lens@[k] == results[v[k]]@.len() && s.stats@[k] == (SegmentStat {
            chars: p[v[k]].chars,
            frames: results[v[k]]@.len() as usize,
            distinct: distinct_firsts(results[v[k]]@).len() as usize,
        })
}

/// Lays the decoded segments out for the codec; a segment without frames is left out. With no
/// frame at all there is nothing to say.
pub fn spans(p: &Vec<Prepared>, results: &Vec<Vec<Vec<u32>>>) -> (r: Result<Spans, SpeakError>)
    requires
        results@.len() == p@.len(),
        forall|i: int, f: int|
            0 <= i < results@.len() && 0 <= f < results@[i]@.len() ==> (
            #[trigger] results@[i]@[f])@.len() > 0,
    ensures
        match r {
            Ok(s) => spans_of(s, p@, results@) && voiced(results@).len() > 0,
            Err(e) => e == SpeakError::NoFrames && voiced(results@).len() == 0,
        },
{
    let mut s = Spans {
        paras: Vec::new(),
        lens: Vec::new(),
        stats: Vec::new(),
        frames: Vec::new(),
    };
    let mut i: usize = 0;
    assert(grid::rows_view(s.frames@) =~= Seq::<Seq<u32>>::empty());
    while i < results.len()
        invariant
            i <= results@.len() == p@.len(),
            forall|q: int, f: int|
                0 <= q < results@.len() && 0 <= f < results@[q]@.len() ==> (
                #[trigger] results@[q]@[f])@.len() > 0,
            spans_of(s, p@, results@.take(i as int)),
        decreases results@.len() - i,
    {
        let ghost so_far = results@.take(i as int);
        let ghost next = results@.take(i + 1);
        assert(next.drop_last() =~= so_far);
        assert(next.last() == results@[i as int]);
        let ghost was = s;
        let frames = grid::copy_rows(&results[i]);
        let ghost added = grid::rows_view(frames@);
        let mut frames = frames;
        let ghost had = grid::rows_view(s.frames@);
        if results[i].len() > 0 {
            s.paras.push(p[i].para);
            s.lens.push(results[i].len());
            let distinct: usize = distinct_first(&results[i]);
            s.stats.push(SegmentStat { chars: p[i].chars, frames: results[i].len(), distinct });
        }
        s.frames.append(&mut frames);
        proof {
            assert(grid::rows_view(s.frames@) =~= had + added);
            let v = voiced(next);
            let old_v = voiced(so_far);
            assert forall|k: int| 0 <= k < v.len() implies 0 <= #[trigger] v[k] < next.len()
                && s.paras@[k] == p@[v[k]].para && s.lens@[k] == next[v[k]]@.len() && s.stats@[k]
                == (SegmentStat {
                chars: p@[v[k]].chars,
                frames: next[v[k]]@.len() as usize,
                distinct: distinct_firsts(next[v[k]]@).len() as usize,
            }) by {
                if k < old_v.len() {
                    assert(v[k] == old_v[k]);
                    assert(next[old_v[k]] == so_far[old_v[k]]);
                    assert(s.paras@[k] == was.paras@[k]);
                    assert(s.lens@[k] == was.lens@[k]);
                    assert(s.stats@[k] == was.stats@[k]);
                } else {
                    assert(v[k] == i);
                }
            }
        }
        i += 1;
    }
    assert(results@.take(i as int) =~= results@);
    if s.lens.len() == 0 {
        return Err(SpeakError::NoFrames);
    }
    Ok(s)
}

/// The segments cut out of the joint waveform, with the request's gaps between them.
pub open spec fn uttered<T>(
    request: SynthesisRequest,
    spans: Spans,
    joined: Seq<T>,
    zero: T,
) -> Seq<T> {
    assemble::stitched(
        assemble::cut_pieces(
            spans.paras@,
            spans.lens@,
            cfg::SAMPLES_PER_FRAME as nat,
            joined,
            spans.lens@.len() as int,
        ),
        assemble::gap_of(zero, cfg::SAMPLE_RATE as int, request.gaps.segment_ms as int),
        assemble::gap_of(zero, cfg::SAMPLE_RATE as int, request.gaps.paragraph_ms as int),
    )
}

/// The utterance out of the joint waveform: cut back into its segments, at the samples of a frame
/// each, with the request's gaps between them.
///
/// The codec runs once over every segment's frames, so that each has real history in front of it;
/// cutting afterwards is exact, since a frame is always the same number of samples.
pub fn finish<T: Copy>(
    request: &SynthesisRequest,
    spans: &Spans,
    joined: &[T],
    zero: T,
) -> (r: Result<Utterance<T>, SpeakError>)
    requires
        spans.paras@.len() == spans.lens@.len(),
        cfg::SAMPLE_RATE * request.gaps.segment_ms <= usize::MAX,
        cfg::SAMPLE_RATE * request.gaps.paragraph_ms <= usize::MAX,
    ensures
        ({
            let all = uttered(*request, *spans, joined@, zero);
            match r {
                Ok(u) => u.samples@ == all && all.len() > 0 && u.sample_rate == cfg::SAMPLE_RATE,
                Err(e) => e == SpeakError::NoAudio && all.len() == 0,
            }
        }),
{
    let pieces = cut(&spans.paras, &spans.lens, cfg::SAMPLES_PER_FRAME, joined);
    match join_pieces(
        &pieces,
        zero,
        cfg::SAMPLE_RATE,
        request.gaps.segment_ms,
        request.gaps.paragraph_ms,
    ) {
        Some(samples) => Ok(Utterance { samples, sample_rate: cfg::SAMPLE_RATE as u32 }),
        None => Err(SpeakError::NoAudio),
    }
}

/// The sum of what is left unspoken.
pub open spec fn total_left(left: Seq<usize>) -> nat
    decreases left.len(),
{
    if left.len() == 0 {
        0
    } else {
        total_left(left.drop_last()) + left.last() as nat
    }
}

/// Text positions that never reached the talker: text is consumed one token per frame, so the
/// shortfall is an exact count.
pub fn unspoken(left: &Vec<usize>) -> (n: usize)
    requires
        total_left(left@) <= usize::MAX,
    ensures
        n == total_left(left@),
{
    let mut n: usize = 0;
    let mut i: usize = 0;
    while i < left.len()
        invariant
            i <= left@.len(),
            n == total_left(left@.take(i as int)),
            total_left(left@) <= usize::MAX,
        decreases left@.len() - i,
    {
        assert(left@.take(i + 1).drop_last() =~= left@.take(i as int));
        proof {
            lemma_total_left(left@, i + 1);
        }
        n = n + left[i];
        i += 1;
    }
    assert(left@.take(i as int) =~= left@);
    n
}

proof fn lemma_total_left(left: Seq<usize>, i: int)
    requires
        0 <= i <= left.len(),
    ensures
        total_left(left.take(i)) <= total_left(left),
    decreases left.len() - i,
{
    if i < left.len() {
        lemma_total_left(left, i + 1);
        assert(left.take(i + 1).drop_last() =~= left.take(i));
    } else {
        assert(left.take(i) =~= left);
    }
}

/// Frames per character of `a` are fewer than those of `b`; a text counts as one character at
/// least.
pub open spec fn slower(a: SegmentStat, b: SegmentStat) -> bool {
    a.frames * at_least_one(b.chars) < b.frames * at_least_one(a.chars)
}

/// A number, but one where it is zero.
pub open spec fn at_least_one(n: usize) -> int {
    if n == 0 {
        1
    } else {
        n as int
    }
}

/// `order` lists the segments by frames per character, the fewest first.
pub open spec fn by_pace(stats: Seq<SegmentStat>, order: Seq<usize>) -> bool {
    &&& order::permutation(order, stats.len())
    &&& forall|i: int, j: int|
        0 <= i < j < order.len() ==> !slower(
            stats[#[trigger] order[j] as int],
            stats[#[trigger] order[i] as int],
        )
}

/// The segment runs long: a text of some length at more than eight fifths of the median's frames
/// per character. The talker kept going after its text ran out.
pub open spec fn runs_long(s: SegmentStat, median: SegmentStat) -> bool {
    s.chars >= SEGMENT_MIN_CHARS && 5 * (s.frames * at_least_one(median.chars)) > 8 * (median.frames
        * at_least_one(s.chars))
}

/// The segment looks degenerate: of some length, with fewer than seven distinct codes of the
/// first codebook to twenty frames. Repeated codes decode as a buzz.
pub open spec fn degenerate(s: SegmentStat) -> bool {
    s.frames >= SEGMENT_MIN_FRAMES && 20 * s.distinct < 7 * s.frames
}

/// What the segments of a request look like.
pub struct Verdict {
    /// The segment whose frames per character are the median.
    pub median: usize,
    pub long: Vec<bool>,
    pub degenerate: Vec<bool>,
}

/// Counts that can be multiplied with one another.
pub open spec fn moderate(stats: Seq<SegmentStat>) -> bool {
    forall|i: int|
        0 <= i < stats.len() ==> (#[trigger] stats[i]).chars < 0x1000_0000_0000_0000
            && stats[i].frames < 0x1000_0000_0000_0000 && stats[i].distinct < 0x1000_0000_0000_0000
}

fn nonzero(n: usize) -> (r: u128)
    ensures
        r == at_least_one(n),
{
    if n == 0 {
        1
    } else {
        n as u128
    }
}

fn product(a: u128, b: u128) -> (r: u128)
    requires
        a < 0x1000_0000_0000_0000,
        b < 0x1000_0000_0000_0000,
    ensures
        r == a * b,
        r < 0x100_0000_0000_0000_0000_0000_0000_0000,
{
    assert(a * b <= 0xfff_ffff_ffff_ffff * 0xfff_ffff_ffff_ffff) by (nonlinear_arith)
        requires
            a <= 0xfff_ffff_ffff_ffff,
            b <= 0xfff_ffff_ffff_ffff,
    ;
    a * b
}

fn is_slower(a: &SegmentStat, b: &SegmentStat) -> (r: bool)
    requires
        moderate(seq![*a, *b]),
    ensures
        r == slower(*a, *b),
{
    assert(seq![*a, *b][0] == *a && seq![*a, *b][1] == *b);
    product(a.frames as u128, nonzero(b.chars)) < product(b.frames as u128, nonzero(a.chars))
}

proof fn lemma_not_slower_transitive(a: SegmentStat, b: SegmentStat, c: SegmentStat)
    requires
        !slower(b, a),
        !slower(c, b),
    ensures
        !slower(c, a),
{
    let (fa, ca) = (a.frames as int, at_least_one(a.chars));
    let (fb, cb) = (b.frames as int, at_least_one(b.chars));
    let (fc, cc) = (c.frames as int, at_least_one(c.chars));
    assert(fc * ca >= fa * cc) by (nonlinear_arith)
        requires
            fb * ca >= fa * cb,
            fc * cb >= fb * cc,
            ca >= 1,
            cb >= 1,
            cc >= 1,
            fa >= 0,
            fb >= 0,
            fc >= 0,
    {
        assert((fb * ca) * cc >= (fa * cb) * cc);
        assert((fc * cb) * ca >= (fb * cc) * ca);
        assert((fb * ca) * cc == (fb * cc) * ca);
        assert((fc * ca) * cb >= (fa * cc) * cb);
        if fc * ca < fa * cc {
            assert((fc * ca) * cb < (fa * cc) * cb);
        }
    }
}

fn order_by_pace(stats: &Vec<SegmentStat>) -> (order: Vec<usize>)
    requires
        moderate(stats@),
    ensures
        by_pace(stats@, order@),
{
    let mut order: Vec<usize> = Vec::new();
    let mut n: usize = 0;
    while n < stats.len()
        invariant
            n <= stats@.len(),
            moderate(stats@),
            order::permutation(order@, n as nat),
            forall|i: int, j: int|
                0 <= i < j < n ==> !slower(
                    stats@[#[trigger] order@[j] as int],
                    stats@[#[trigger] order@[i] as int],
                ),
        decreases stats@.len() - n,
    {
        let mut p: usize = 0;
        let mut stop = false;
        while p < order.len() && !stop
            invariant
                p <= order@.len() == n,
                n < stats@.len(),
                moderate(stats@),
                order::permutation(order@, n as nat),
                forall|i: int|
                    0 <= i < p ==> !slower(
                        stats@[n as int],
                        stats@[#[trigger] order@[i] as int],
                    ),
                stop ==> p < n && slower(stats@[n as int], stats@[order@[p as int] as int]),
            decreases n - p, !stop as int,
        {
            let o: usize = order[p];
            assert(moderate(seq![stats@[n as int], stats@[o as int]])) by {
                assert(stats@[n as int].chars < 0x1000_0000_0000_0000);
                assert(stats@[o as int].chars < 0x1000_0000_0000_0000);
            }
            if is_slower(&stats[n], &stats[o]) {
                stop = true;
            } else {
                p += 1;
            }
        }
        let ghost was = order@;
        assert forall|i: int| p <= i < n implies !slower(
            stats@[#[trigger] was[i] as int],
            stats@[n as int],
        ) by {
            let first = stats@[was[p as int] as int];
            assert(slower(stats@[n as int], first));
            assert(!slower(first, stats@[n as int]));
            if p < i {
                assert(!slower(stats@[was[i] as int], first));
                lemma_not_slower_transitive(stats@[n as int], first, stats@[was[i] as int]);
            }
        }
        order.insert(p, n);
        assert forall|i: int, j: int| 0 <= i < j < n + 1 implies !slower(
            stats@[#[trigger] order@[j] as int],
            stats@[#[trigger] order@[i] as int],
        ) by {
            let i0 = if i <= p { i } else { i - 1 };
            let j0 = if j <= p { j } else { j - 1 };
            if i == p {
                assert(order@[j] == was[j0]);
            } else if j == p {
                assert(order@[i] == was[i0]);
            } else {
                assert(order@[i] == was[i0]);
                assert(order@[j] == was[j0]);
            }
        }
        assert forall|a: int| 0 <= a < n + 1 implies order@.contains(
            #[trigger] order::keys_index(a),
        ) by {
            if a == n {
                assert(order@[p as int] == n);
            } else {
                assert(was.contains(order::keys_index(a)));
                let k = choose|k: int| 0 <= k < was.len() && was[k] == order::keys_index(a);
                if k < p {
                    assert(order@[k] == was[k]);
                } else {
                    assert(order@[k + 1] == was[k]);
                }
            }
        }
        n += 1;
    }
    order
}

/// Judges the segments of a request against its own median, which is measured from this voice and
/// this text rather than assumed. Fewer than three segments, or a median of no frames, say
/// nothing.
pub fn report_segments(stats: &Vec<SegmentStat>) -> (r: Option<Verdict>)
    requires
        moderate(stats@),
    ensures
        match r {
            None => stats@.len() < 3 || exists|order: Seq<usize>|
                #[trigger] by_pace(stats@, order) && stats@[order[(stats@.len() / 2) as int] as int].frames
                    == 0,
            Some(v) => stats@.len() >= 3 && v.long@.len() == stats@.len() && v.degenerate@.len()
                == stats@.len() && v.median < stats@.len() && stats@[v.median as int].frames > 0 && (
            exists|order: Seq<usize>|
                #[trigger] by_pace(stats@, order) && v.median == order[(stats@.len() / 2) as int])
                && forall|i: int|
                0 <= i < stats@.len() ==> (#[trigger] v.long@[i]) == runs_long(
                    stats@[i],
                    stats@[v.median as int],
                ) && v.degenerate@[i] == degenerate(stats@[i]),
        },
{
    if stats.len() < 3 {
        return None;
    }
    let order = order_by_pace(stats);
    let median: usize = order[stats.len() / 2];
    if stats[median].frames == 0 {
        return None;
    }
    let m = stats[median];
    let mut long: Vec<bool> = Vec::new();
    let mut flat: Vec<bool> = Vec::new();
    let mut i: usize = 0;
    while i < stats.len()
        invariant
            i <= stats@.len(),
            moderate(stats@),
            median < stats@.len(),
            m == stats@[median as int],
            long@.len() == i,
            flat@.len() == i,
            forall|j: int| 0 <= j < i ==> #[trigger] long@[j] == runs_long(stats@[j], m),
            forall|j: int| 0 <= j < i ==> #[trigger] flat@[j] == degenerate(stats@[j]),
        decreases stats@.len() - i,
    {
        assert(stats@[i as int].chars < 0x1000_0000_0000_0000);
        assert(stats@[median as int].chars < 0x1000_0000_0000_0000);
        let s = stats[i];
        let mine: u128 = product(s.frames as u128, nonzero(m.chars));
        let theirs: u128 = product(m.frames as u128, nonzero(s.chars));
        let is_long = s.chars >= SEGMENT_MIN_CHARS && 5 * mine > 8 * theirs;
        assert(is_long == runs_long(s, m));
        long.push(is_long);
        let is_flat = s.frames >= SEGMENT_MIN_FRAMES && 20 * (s.distinct as u128) < 7
            * (s.frames as u128);
        assert(is_flat == degenerate(s));
        flat.push(is_flat);
        i += 1;
    }
    Some(Verdict { median, long, degenerate: flat })
}

} // verus!
