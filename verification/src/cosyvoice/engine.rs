//! CosyVoice behind the engine-neutral types: what it can do, what a voice has to carry, how
//! segments share a pass of the flow decoder, and how the results become an utterance.

use crate::assemble;
use crate::assemble::{cut, extend_copied, join_pieces, plan_segments, Piece};
use crate::cosyvoice::cfg;
use crate::cosyvoice::llm::Segment;
use crate::engine;
use crate::engine::{validate_with_voice, Capabilities, Cloning, EngineConfig, FrameRate, Refusal,
    SynthesisRequest, Utterance};
use crate::grid;
use crate::grid::copy_vec;
use crate::number;
use crate::number::parse_positive;
use crate::quant;
use crate::quant::{block_format_list, parse_block_quant, Format, QuantError};
use crate::text;
use crate::text::same;
use crate::settings;
use crate::tokens;
use crate::tokens::Tokens;
use crate::voice;
use crate::voice::{second_dim, Voice, VoiceError};
use candle_core::{Device, Tensor};
use tokenizers::Tokenizer;
use vstd::prelude::*;

verus! {

pub const ID: &'static str = "cosyvoice";

/// What a request without a voice is answered.
pub const NO_VOICE: &'static str = "engine `cosyvoice` requires a voice asset: the LLM is conditioned on the reference clip's speech tokens and the flow decoder on its mel and speaker embedding, so there is no unconditioned path. Build one with references/cosyvoice/export_voice.py";

/// Segments decoded together in the language model unless the configuration says otherwise. Every
/// lane carries its own cache, so this has to be bounded.
pub const DEFAULT_LLM_BATCH: usize = 8;

/// Target mel frames of generated speech per flow call, the voice prompt not counted. Too small,
/// and every call pays the prompt again; too large, and quadratic attention takes over.
pub const FLOW_GROUP_FRAMES: usize = 2000;

/// What this engine says of itself.
pub open spec fn described(c: Capabilities) -> bool {
    &&& c.id@ == "cosyvoice"@
    &&& c.description@
        == "Fun-CosyVoice3-0.5B — Qwen2 LLM + DiT flow matching + HiFTGenerator, 24 kHz"@
    &&& c.sample_rate == cfg::SAMPLE_RATE
    &&& c.frame_rate == (FrameRate { frames: 50, seconds: 1 })
    &&& c.frame_rate.frames == cfg::TOKEN_RATE * cfg::TOKEN_MEL_RATIO
    &&& c.cloning == Cloning::PrecomputedAsset
    &&& !c.streaming
    &&& quant::listed(c.quantization@) == quant::block_formats()
    &&& c.available
    &&& c.reason is None
}

/// What this engine can do.
pub fn capabilities() -> (c: Capabilities)
    ensures
        described(c),
{
    Capabilities {
        id: "cosyvoice",
        description: "Fun-CosyVoice3-0.5B — Qwen2 LLM + DiT flow matching + HiFTGenerator, 24 kHz",
        sample_rate: cfg::SAMPLE_RATE as u32,
        frame_rate: FrameRate { frames: cfg::TOKEN_RATE * cfg::TOKEN_MEL_RATIO, seconds: 1 },
        cloning: Cloning::PrecomputedAsset,
        streaming: false,
        quantization: block_format_list(),
        available: true,
        reason: None,
    }
}

/// What to load for a format name.
pub fn parse_quant(name: Option<&str>) -> (r: Result<Option<Format>, QuantError>)
    ensures
        ({
            let n = quant::name_or_default(quant::name_view(name));
            match r {
                Ok(None) => n == "none"@ || n == "f32"@,
                Ok(Some(f)) => n != "none"@ && n != "f32"@ && quant::format_named(n) == Some(f),
                Err(QuantError::LargeBlocks { name: m }) => m@ == n && quant::large_blocks(n)
                    && quant::format_named(n) is None && n != "none"@ && n != "f32"@,
                Err(QuantError::Unknown { name: m }) => m@ == n && !quant::large_blocks(n)
                    && quant::format_named(n) is None && n != "none"@ && n != "f32"@,
            }
        }),
{
    parse_block_quant(name)
}

/// The files that the engine loads.
pub struct Files {
    pub llm: String,
    pub flow: String,
    pub hift: String,
    pub tokenizer: String,
    /// The fixed initial noise, which is no trained weight but which inference cannot do without.
    pub noise: String,
}

/// Where the engine's files are.
pub fn files(config: &EngineConfig) -> (f: Files)
    ensures
        f.llm@ == engine::located(*config, "llm"@, "llm.safetensors"@),
        f.flow@ == engine::located(*config, "flow"@, "flow.safetensors"@),
        f.hift@ == engine::located(*config, "hift"@, "hift.safetensors"@),
        f.tokenizer@ == engine::located(*config, "tokenizer"@, "tokenizer.json"@),
        f.noise@ == engine::located(*config, "noise"@, "rand_noise.safetensors"@),
{
    Files {
        llm: config.path("llm", "llm.safetensors"),
        flow: config.path("flow", "flow.safetensors"),
        hift: config.path("hift", "hift.safetensors"),
        tokenizer: config.path("tokenizer", "tokenizer.json"),
        noise: config.path("noise", "rand_noise.safetensors"),
    }
}

/// Is each segment decoded in a flow call of its own? Any setting but `0` says so.
pub fn flow_per_segment(config: &EngineConfig) -> (r: bool)
    ensures
        r == (engine::looked_up(config.overrides@, "flow_per_segment"@) matches Some(s) && s
            != "0"@),
{
    match config.setting("flow_per_segment") {
        None => false,
        Some(s) => !same(s.as_str(), "0"),
    }
}

/// The most segments decoded together in the language model.
pub fn llm_max_batch(config: &EngineConfig) -> (n: usize)
    ensures
        n == match engine::looked_up(config.overrides@, "llm_batch"@) {
            Some(s) => if number::writes_number(s) && number::value(number::unsigned_part(s)) > 0 {
                number::value(number::unsigned_part(s)) as usize
            } else {
                DEFAULT_LLM_BATCH
            },
            None => DEFAULT_LLM_BATCH,
        },
        n > 0,
{
    match config.setting("llm_batch") {
        None => DEFAULT_LLM_BATCH,
        Some(s) => match parse_positive(s.as_str()) {
            Some(n) => n,
            None => DEFAULT_LLM_BATCH,
        },
    }
}

/// Why nothing is synthesized.
#[derive(Debug)]
pub enum SpeakError {
    Refused(Refusal),
    /// A tensor of the voice could not be had.
    Voice(VoiceError),
    /// The voice's speech tokens are empty.
    NoSpeechTokens,
    /// The voice's transcript tokens are empty.
    NoTextTokens,
    /// The prompt mel does not have two frames for each speech token.
    MelMismatch { tokens: usize, frames: usize },
    /// The tensor library refused.
    Tensor(candle_core::Error),
    /// No text to speak.
    NoText,
    /// The engine generated no speech tokens.
    NoSpeech,
    /// The engine produced no audio.
    NoAudio,
}

/// The conditioning that a voice carries.
pub struct Conditioning {
    pub speaker: Tensor,
    /// The clip's speech tokens.
    pub tokens: Vec<u32>,
    pub mel: Tensor,
    /// The clip's transcript tokens.
    pub text_tokens: Vec<u32>,
}

/// The voice has tensors of all four names.
pub open spec fn complete(v: Voice) -> bool {
    let names = voice::names(v.tensors@);
    &&& names.contains("speech_tokens"@)
    &&& names.contains("prompt_text_tokens"@)
    &&& names.contains("prompt_mel"@)
    &&& names.contains("speaker_embedding"@)
}

/// Holds a prompt mel of `frames` frames against the speech tokens: the flow decoder holds each
/// token for exactly two frames, so anything else would misalign the prompt.
pub fn check_mel(tokens: usize, frames: usize) -> (r: Result<(), SpeakError>)
    ensures
        match r {
            Ok(_) => frames == tokens * cfg::TOKEN_MEL_RATIO,
            Err(SpeakError::MelMismatch { tokens: t, frames: f }) => t == tokens && f == frames
                && frames != tokens * cfg::TOKEN_MEL_RATIO,
            Err(_) => false,
        },
{
    let held: u128 = cfg::TOKEN_MEL_RATIO as u128;
    assert(tokens * 2 <= 2 * usize::MAX);
    if frames as u128 != tokens as u128 * held {
        return Err(SpeakError::MelMismatch { tokens, frames });
    }
    Ok(())
}

/// The first of some rows.
fn first_row(rows: &Vec<Vec<u32>>) -> (r: Option<Vec<u32>>)
    ensures
        match r {
            Some(v) => rows@.len() > 0 && v@ == rows@[0]@,
            None => rows@.len() == 0,
        },
{
    if rows.len() == 0 {
        return None;
    }
    Some(copy_vec(&rows[0]))
}

/// What the voice has under a name.
pub open spec fn carried(v: Voice, name: Seq<char>) -> Option<Tensor> {
    voice::found(v.tensors@, name)
}

/// `row` is the first row of a tensor that reads as rows.
pub open spec fn first_row_of(t: Tensor, row: Seq<u32>) -> bool {
    exists|rows: Seq<Seq<u32>>| #[trigger]
        voice::reads_rows(t, rows) && rows.len() > 0 && rows[0] == row
}

/// The voice's tensor of that name reads as rows, and has one.
pub open spec fn has_row(v: Voice, name: Seq<char>) -> bool {
    carried(v, name) matches Some(t) && voice::gives_rows(t) && voice::shape(t)[0] > 0
}

/// The voice's tensor of that name reads as rows, and has none.
pub open spec fn no_rows(v: Voice, name: Seq<char>) -> bool {
    carried(v, name) matches Some(t) && voice::gives_rows(t) && voice::shape(t)[0] == 0
}

/// The voice has the tokens of its clip and of its transcript.
pub open spec fn has_tokens(v: Voice) -> bool {
    has_row(v, "speech_tokens"@) && has_row(v, "prompt_text_tokens"@)
}

/// `t` is a copy of the voice's tensor of that name.
pub open spec fn copy_of(v: Voice, name: Seq<char>, t: Tensor) -> bool {
    carried(v, name) matches Some(u) && voice::copies(t, u)
}

/// The voice's tensor of that name is not on the host, or not asked for there: so the tensor
/// library may fail to place it.
pub open spec fn may_fail_to_move(v: Voice, name: Seq<char>, device: Device) -> bool {
    carried(v, name) matches Some(t) && !(voice::on_host(t) && voice::is_host(device))
}

/// Why a tensor of the voice cannot be had, in the order in which they are asked for: the speech
/// tokens, the transcript's tokens, the mel, the speaker embedding.
pub open spec fn lacks(v: Voice, device: Device, e: VoiceError) -> bool {
    ||| voice::rows_error(v.tensors@, "speech_tokens"@, e)
    ||| has_row(v, "speech_tokens"@) && voice::rows_error(v.tensors@, "prompt_text_tokens"@, e)
    ||| has_tokens(v) && match e {
        VoiceError::NoTensor { name, have } => voice::sorted_names(
            crate::chars::texts(have@),
            v.tensors@,
        ) && carried(v, name@) is None && (name@ == "prompt_mel"@ || name@ == "speaker_embedding"@
            && carried(v, "prompt_mel"@) is Some),
        VoiceError::Tensor(_) => may_fail_to_move(v, "prompt_mel"@, device) || carried(
            v,
            "prompt_mel"@,
        ) is Some && may_fail_to_move(v, "speaker_embedding"@, device),
        _ => false,
    }
}

/// Puts together what was read of a voice: the rows of its speech tokens and of its transcript's
/// tokens, its mel of `frames` frames and its speaker embedding.
pub fn settle(
    speech: &Vec<Vec<u32>>,
    said: &Vec<Vec<u32>>,
    mel: Tensor,
    frames: usize,
    speaker: Tensor,
) -> (r: Result<Conditioning, SpeakError>)
    ensures
        match r {
            Ok(c) => speech@.len() > 0 && said@.len() > 0 && c.tokens@ == speech@[0]@ && c.text_tokens@
                == said@[0]@ && c.mel == mel && c.speaker == speaker && frames == c.tokens@.len()
                * cfg::TOKEN_MEL_RATIO,
            Err(SpeakError::NoSpeechTokens) => speech@.len() == 0,
            Err(SpeakError::NoTextTokens) => speech@.len() > 0 && said@.len() == 0,
            Err(SpeakError::MelMismatch { tokens: t, frames: f }) => speech@.len() > 0 && said@.len()
                > 0 && t == speech@[0]@.len() && f == frames && f != t * cfg::TOKEN_MEL_RATIO,
            Err(_) => false,
        },
{
    let tokens = match first_row(speech) {
        Some(t) => t,
        None => {
            return Err(SpeakError::NoSpeechTokens);
        },
    };
    let text_tokens = match first_row(said) {
        Some(t) => t,
        None => {
            return Err(SpeakError::NoTextTokens);
        },
    };
    match check_mel(tokens.len(), frames) {
        Ok(_) => Ok(Conditioning { speaker, tokens, mel, text_tokens }),
        Err(e) => Err(e),
    }
}

/// `c` is what the voice carries.
pub open spec fn conditions(v: Voice, c: Conditioning) -> bool {
    &&& has_tokens(v)
    &&& first_row_of(carried(v, "speech_tokens"@)->0, c.tokens@)
    &&& first_row_of(carried(v, "prompt_text_tokens"@)->0, c.text_tokens@)
    &&& copy_of(v, "prompt_mel"@, c.mel)
    &&& copy_of(v, "speaker_embedding"@, c.speaker)
}

/// The voice has both its tokens on the host.
pub open spec fn tokens_at_hand(v: Voice) -> bool {
    &&& has_tokens(v)
    &&& voice::on_host(carried(v, "speech_tokens"@)->0)
    &&& voice::on_host(carried(v, "prompt_text_tokens"@)->0)
}

/// The voice carries everything on the host, is asked for there, and its mel matches its speech
/// tokens.
pub open spec fn settled(v: Voice, device: Device) -> bool {
    &&& voice::is_host(device)
    &&& complete(v)
    &&& tokens_at_hand(v)
    &&& voice::on_host(carried(v, "prompt_mel"@)->0)
    &&& voice::on_host(carried(v, "speaker_embedding"@)->0)
    &&& voice::shape(carried(v, "prompt_mel"@)->0).len() >= 2
    &&& voice::shape(carried(v, "prompt_mel"@)->0)[1] == voice::shape(
        carried(v, "speech_tokens"@)->0,
    )[1] * cfg::TOKEN_MEL_RATIO
}

/// What a voice carries, placed on `device`. Of a voice on the host, asked for there, everything
/// is decided by its tensors' names, types and shapes.
pub fn conditioning(v: &Voice, device: &Device) -> (r: Result<Conditioning, SpeakError>)
    ensures
        match r {
            Ok(c) => complete(*v) && has_tokens(*v) && voice::shape(c.mel).len() >= 2 && voice::shape(
                c.mel,
            )[1] == c.tokens@.len() * cfg::TOKEN_MEL_RATIO && conditions(*v, c),
            Err(SpeakError::Voice(e)) => lacks(*v, *device, e),
            Err(SpeakError::NoSpeechTokens) => no_rows(*v, "speech_tokens"@),
            Err(SpeakError::NoTextTokens) => has_row(*v, "speech_tokens"@) && no_rows(
                *v,
                "prompt_text_tokens"@,
            ),
            Err(SpeakError::Tensor(_)) => complete(*v) && has_tokens(*v) && voice::shape(
                carried(*v, "prompt_mel"@)->0,
            ).len() < 2,
            Err(SpeakError::MelMismatch { tokens, frames }) => complete(*v) && has_tokens(*v)
                && tokens == voice::shape(carried(*v, "speech_tokens"@)->0)[1] && voice::shape(
                carried(*v, "prompt_mel"@)->0,
            ).len() >= 2 && frames == voice::shape(carried(*v, "prompt_mel"@)->0)[1] && frames
                != tokens * cfg::TOKEN_MEL_RATIO,
            Err(SpeakError::Refused(_)) => false,
            Err(SpeakError::NoText) => false,
            Err(SpeakError::NoSpeech) => false,
            Err(SpeakError::NoAudio) => false,
        },
        !complete(*v) ==> r is Err,
        !voice::names(v.tensors@).contains("speech_tokens"@) ==> (r matches Err(
            SpeakError::Voice(VoiceError::NoTensor { name, .. }),
        ) && name@ == "speech_tokens"@),
        has_row(*v, "speech_tokens"@) && voice::on_host(carried(*v, "speech_tokens"@)->0)
            && !voice::names(v.tensors@).contains("prompt_text_tokens"@) ==> (r matches Err(
            SpeakError::Voice(VoiceError::NoTensor { name, .. }),
        ) && name@ == "prompt_text_tokens"@),
        tokens_at_hand(*v) && !voice::names(v.tensors@).contains("prompt_mel"@) ==> (r matches Err(
            SpeakError::Voice(VoiceError::NoTensor { name, .. }),
        ) && name@ == "prompt_mel"@),
        tokens_at_hand(*v) && voice::names(v.tensors@).contains("prompt_mel"@) && voice::on_host(
            carried(*v, "prompt_mel"@)->0,
        ) && voice::is_host(*device) && !voice::names(v.tensors@).contains("speaker_embedding"@)
            ==> (r matches Err(SpeakError::Voice(VoiceError::NoTensor { name, .. })) && name@
            == "speaker_embedding"@),
        settled(*v, *device) ==> r is Ok,
{
    proof {
        voice::a_name_finds_its_first_tensor(v.tensors@, "speech_tokens"@);
        voice::a_name_finds_its_first_tensor(v.tensors@, "prompt_text_tokens"@);
        voice::a_name_finds_its_first_tensor(v.tensors@, "prompt_mel"@);
        voice::a_name_finds_its_first_tensor(v.tensors@, "speaker_embedding"@);
    }
    let speech = match v.get_rows_u32("speech_tokens") {
        Ok(rows) => rows,
        Err(e) => {
            return Err(SpeakError::Voice(e));
        },
    };
    if speech.len() == 0 {
        return Err(SpeakError::NoSpeechTokens);
    }
    let said = match v.get_rows_u32("prompt_text_tokens") {
        Ok(rows) => rows,
        Err(e) => {
            return Err(SpeakError::Voice(e));
        },
    };
    if said.len() == 0 {
        return Err(SpeakError::NoTextTokens);
    }
    let mel = match v.get_on("prompt_mel", device) {
        Ok(t) => t,
        Err(e) => {
            return Err(SpeakError::Voice(e));
        },
    };
    let speaker = match v.get_on("speaker_embedding", device) {
        Ok(t) => t,
        Err(e) => {
            return Err(SpeakError::Voice(e));
        },
    };
    let frames: usize = match second_dim(&mel) {
        Ok(n) => n,
        Err(e) => {
            return Err(SpeakError::Tensor(e));
        },
    };
    assert(grid::rows_view(speech@)[0] == speech@[0]@);
    assert(grid::rows_view(said@)[0] == said@[0]@);
    settle(&speech, &said, mel, frames, speaker)
}

/// Checks a request and lays out what to speak: paragraph number and text of each segment, in
/// reading order.
pub fn plan(request: &SynthesisRequest) -> (r: Result<Vec<(usize, String)>, SpeakError>)
    ensures
        match r {
            Ok(v) => request.voice is Some && engine::voice_fits("cosyvoice"@, request.voice)
                && v@.len() > 0 && assemble::numbered(v@) == assemble::flat(
                text::segmented(request.text@, request.max_chars as nat),
            ),
            Err(SpeakError::Refused(Refusal::NoVoice)) => request.voice is None,
            Err(SpeakError::Refused(e)) => e == Refusal::WrongVoice && !engine::voice_fits(
                "cosyvoice"@,
                request.voice,
            ),
            Err(SpeakError::NoText) => request.voice is Some && engine::voice_fits(
                "cosyvoice"@,
                request.voice,
            ) && assemble::flat(text::segmented(request.text@, request.max_chars as nat)).len()
                == 0,
            Err(_) => false,
        },
{
    let caps = capabilities();
    if let Err(e) = validate_with_voice(&caps, request) {
        return Err(SpeakError::Refused(e));
    }
    match plan_segments(request.text.as_str(), request.max_chars) {
        Some(v) => Ok(v),
        None => Err(SpeakError::NoText),
    }
}

/// The segments to speak with their tokens, special tokens live: the marks of a voice and the
/// end-of-prompt marker have to come out as their ids rather than spelled out as text.
pub fn tokenize(tokenizer: &Tokenizer, segments: &Vec<(usize, String)>) -> (r: Result<
    Vec<Tokens>,
    String,
>)
    ensures
        match r {
            Ok(out) => settings::harmless(*tokenizer, true) && tokens::tokenized(
                *tokenizer,
                out@,
                segments@,
                true,
            ),
            Err(_) => tokens::may_refuse(*tokenizer, segments@, true),
        },
        !settings::harmless(*tokenizer, true) ==> (r matches Err(e) && e@ == tokens::NOT_ENCODABLE@),
        settings::fixed(*tokenizer) ==> match r {
            Ok(out) => tokens::takes_all(*tokenizer, segments@, true) && tokens::tokens_of(
                out@,
                segments@,
                tokens::encodings(*tokenizer, segments@, true),
            ),
            Err(_) => !tokens::takes_all(*tokenizer, segments@, true),
        },
{
    tokens::tokenize(tokenizer, segments, true)
}

/// `v` are the prompts of some segments.
pub open spec fn prompted(v: Seq<Segment>, cond: Conditioning, tokens: Seq<Tokens>) -> bool {
    &&& v.len() == tokens.len()
    &&& forall|i: int|
        0 <= i < v.len() ==> (#[trigger] v[i]).text@ == cond.text_tokens@ + tokens[i].ids@
            && v[i].speech@ == cond.tokens@ && v[i].text_len == tokens[i].ids@.len()
}

/// The prompts of the language model: the voice's transcript tokens in front of each segment's,
/// and the voice's speech tokens. Without any there is no text to speak.
pub fn prompts(cond: &Conditioning, tokens: &Vec<Tokens>) -> (r: Result<Vec<Segment>, SpeakError>)
    ensures
        match r {
            Ok(v) => tokens@.len() > 0 && prompted(v@, *cond, tokens@),
            Err(e) => e is NoText && tokens@.len() == 0,
        },
{
    if tokens.len() == 0 {
        return Err(SpeakError::NoText);
    }
    let mut out: Vec<Segment> = Vec::new();
    let mut i: usize = 0;
    while i < tokens.len()
        invariant
            i <= tokens@.len(),
            out@.len() == i,
            forall|j: int|
                0 <= j < i ==> (#[trigger] out@[j]).text@ == cond.text_tokens@ + tokens@[j].ids@
                    && out@[j].speech@ == cond.tokens@ && out@[j].text_len == tokens@[j].ids@.len(),
        decreases tokens@.len() - i,
    {
        let mut full = copy_vec(&cond.text_tokens);
        extend_copied(&mut full, tokens[i].ids.as_slice());
        let s = Segment {
            text: full,
            speech: copy_vec(&cond.tokens),
            text_len: tokens[i].ids.len(),
        };
        out.push(s);
        i += 1;
    }
    Ok(out)
}

/// The prompts from `from` on, up to `n`, in runs of at most `most`: where each starts and ends.
pub open spec fn runs(from: int, n: int, most: int) -> Seq<(usize, usize)>
    decreases n - from,
{
    if from >= n || most <= 0 {
        Seq::empty()
    } else if n - from <= most {
        seq![(from as usize, n as usize)]
    } else {
        seq![(from as usize, (from + most) as usize)] + runs(from + most, n, most)
    }
}

/// Which prompts the language model decodes together: one run of at most `most` after the other.
pub fn llm_groups(n: usize, most: usize) -> (v: Vec<(usize, usize)>)
    requires
        most > 0,
    ensures
        v@ == runs(0, n as int, most as int),
{
    let mut v: Vec<(usize, usize)> = Vec::new();
    let mut from: usize = 0;
    assert(v@ + runs(0, n as int, most as int) =~= runs(0, n as int, most as int));
    while from < n
        invariant
            from <= n,
            most > 0,
            v@ + runs(from as int, n as int, most as int) == runs(0, n as int, most as int),
        decreases n - from,
    {
        let ghost done = v@;
        let end: usize = if n - from <= most {
            n
        } else {
            from + most
        };
        v.push((from, end));
        assert(runs(n as int, n as int, most as int) =~= Seq::empty());
        assert(v@ + runs(end as int, n as int, most as int) =~= done + runs(
            from as int,
            n as int,
            most as int,
        ));
        from = end;
    }
    assert(v@ + runs(n as int, n as int, most as int) =~= v@);
    v
}

/// The runs cover the prompts: the first starts at the first prompt, each starts where the one
/// before it ends, the last ends at the last prompt, and none is empty or longer than allowed.
pub proof fn runs_cover_the_prompts(from: int, n: int, most: int)
    requires
        0 <= from < n <= usize::MAX,
        most > 0,
    ensures
        ({
            let r = runs(from, n, most);
            &&& r.len() > 0
            &&& r[0].0 == from
            &&& r.last().1 == n
            &&& forall|i: int| 0 <= i < r.len() ==> (#[trigger] r[i]).0 < r[i].1 <= r[i].0 + most
            &&& forall|i: int, j: int|
                0 <= i && j == i + 1 && j < r.len() ==> (#[trigger] r[i]).1 == (#[trigger] r[j]).0
        }),
    decreases n - from,
{
    if n - from > most {
        runs_cover_the_prompts(from + most, n, most);
        let rest = runs(from + most, n, most);
        let r = runs(from, n, most);
        assert(r =~= seq![(from as usize, (from + most) as usize)] + rest);
        assert forall|i: int| 0 <= i < r.len() implies (#[trigger] r[i]).0 < r[i].1 <= r[i].0
            + most by {
            if i > 0 {
                assert(r[i] == rest[i - 1]);
            }
        }
        assert forall|i: int, j: int| 0 <= i && j == i + 1 && j < r.len() implies (#[trigger] r[i]).1
            == (#[trigger] r[j]).0 by {
            assert(r[j] == rest[j - 1]);
            if i > 0 {
                assert(r[i] == rest[i - 1]);
            }
        }
    }
}

/// A decoded segment.
pub struct Span {
    pub para: usize,
    /// Its speech tokens.
    pub speech: Vec<u32>,
}

/// The segments that came to a speech token.
pub open spec fn voiced(generated: Seq<Vec<u32>>) -> Seq<int>
    decreases generated.len(),
{
    if generated.len() == 0 {
        Seq::empty()
    } else {
        let before = voiced(generated.drop_last());
        if generated.last()@.len() > 0 {
            before.push(generated.len() - 1)
        } else {
            before
        }
    }
}

/// `s` is segment `i` with what was generated for it.
pub open spec fn span_of(s: Span, tokens: Seq<Tokens>, generated: Seq<Vec<u32>>, i: int) -> bool {
    &&& 0 <= i < generated.len()
    &&& s.para == tokens[i].para
    &&& s.speech@ == generated[i]@
    &&& s.speech@.len() > 0
}

/// `out` lists the segments that came to a speech token, in reading order.
pub open spec fn spans_of(out: Seq<Span>, tokens: Seq<Tokens>, generated: Seq<Vec<u32>>) -> bool {
    &&& out.len() == voiced(generated).len()
    &&& forall|n: int|
        0 <= n < out.len() ==> span_of(#[trigger] out[n], tokens, generated, voiced(generated)[n])
}

/// The segments that came to a speech token; without any there is nothing to say.
pub fn spans(tokens: &Vec<Tokens>, generated: &Vec<Vec<u32>>) -> (r: Result<Vec<Span>, SpeakError>)
    requires
        tokens@.len() == generated@.len(),
    ensures
        match r {
            Ok(v) => v@.len() > 0 && spans_of(v@, tokens@, generated@),
            Err(e) => e is NoSpeech && voiced(generated@).len() == 0,
        },
{
    let mut out: Vec<Span> = Vec::new();
    let mut i: usize = 0;
    while i < generated.len()
        invariant
            i <= generated@.len() == tokens@.len(),
            spans_of(out@, tokens@, generated@.take(i as int)),
        decreases generated@.len() - i,
    {
        let ghost so_far = generated@.take(i as int);
        let ghost next = generated@.take(i + 1);
        let ghost was = out@;
        assert(next.drop_last() =~= so_far);
        if generated[i].len() > 0 {
            let speech = copy_vec(&generated[i]);
            out.push(Span { para: tokens[i].para, speech });
        }
        assert forall|n: int| 0 <= n < out@.len() implies span_of(
            #[trigger] out@[n],
            tokens@,
            next,
            voiced(next)[n],
        ) by {
            if n < was.len() {
                assert(span_of(was[n], tokens@, so_far, voiced(so_far)[n]));
            }
        }
        i += 1;
    }
    assert(generated@.take(i as int) =~= generated@);
    if out.len() == 0 {
        return Err(SpeakError::NoSpeech);
    }
    Ok(out)
}

/// Speech tokens that a flow call may take: one thousand, as far as the fixed noise reaches once
/// the prompt is in, and one at least; or one, where every segment has a call of its own.
pub open spec fn group_tokens(max_frames: int, prompt_tokens: int, per_segment: bool) -> int {
    let room = max_frames / cfg::TOKEN_MEL_RATIO as int - prompt_tokens;
    if per_segment || room < 1 {
        1
    } else if room < FLOW_GROUP_FRAMES / cfg::TOKEN_MEL_RATIO {
        room
    } else {
        (FLOW_GROUP_FRAMES / cfg::TOKEN_MEL_RATIO) as int
    }
}

/// How many speech tokens a flow call may take.
pub fn flow_budget(max_frames: usize, prompt_tokens: usize, per_segment: bool) -> (n: usize)
    ensures
        n == group_tokens(max_frames as int, prompt_tokens as int, per_segment),
        n >= 1,
{
    if per_segment {
        return 1;
    }
    let room: usize = (max_frames / cfg::TOKEN_MEL_RATIO).saturating_sub(prompt_tokens);
    let most: usize = FLOW_GROUP_FRAMES / cfg::TOKEN_MEL_RATIO;
    if room < 1 {
        1
    } else if room < most {
        room
    } else {
        most
    }
}

/// Groups in progress: those so far, and the tokens of the last one.
pub struct Filling {
    pub groups: Seq<Seq<usize>>,
    pub last: int,
}

/// The first `n` segments in groups: one joins the last group while that stays within the budget.
/// A segment over the budget gets a group to itself rather than being split.
pub open spec fn filled(lens: Seq<nat>, budget: int, n: int) -> Filling
    decreases n,
{
    if n <= 0 {
        Filling { groups: Seq::empty(), last: 0 }
    } else {
        let f = filled(lens, budget, n - 1);
        let len = lens[n - 1];
        if f.groups.len() == 0 || f.last + len > budget {
            Filling { groups: f.groups.push(seq![(n - 1) as usize]), last: len as int }
        } else {
            Filling {
                groups: f.groups.update(
                    f.groups.len() - 1,
                    f.groups.last().push((n - 1) as usize),
                ),
                last: f.last + len,
            }
        }
    }
}

/// The speech-token counts of some segments.
pub open spec fn speech_lens(spans: Seq<Span>) -> Seq<nat> {
    Seq::new(spans.len(), |i: int| spans[i].speech@.len())
}

/// Groups the segments that share a flow call.
pub fn flow_groups(spans: &Vec<Span>, budget: usize) -> (groups: Vec<Vec<usize>>)
    ensures
        grid::rows_view(groups@) == filled(
            speech_lens(spans@),
            budget as int,
            spans@.len() as int,
        ).groups,
{
    let ghost lens = speech_lens(spans@);
    let mut groups: Vec<Vec<usize>> = Vec::new();
    let mut last: usize = 0;
    let mut n: usize = 0;
    assert(grid::rows_view(groups@) =~= Seq::<Seq<usize>>::empty());
    while n < spans.len()
        invariant
            n <= spans@.len(),
            lens == speech_lens(spans@),
            filled(lens, budget as int, n as int) == (Filling {
                groups: grid::rows_view(groups@),
                last: last as int,
            }),
        decreases spans@.len() - n,
    {
        let ghost done = grid::rows_view(groups@);
        let len: usize = spans[n].speech.len();
        let count: usize = groups.len();
        assert(lens[n as int] == len);
        if count == 0 || last > budget || len > budget - last {
            let mut fresh: Vec<usize> = Vec::new();
            fresh.push(n);
            assert(fresh@ =~= seq![n]);
            groups.push(fresh);
            assert(grid::rows_view(groups@) =~= done.push(seq![n]));
            last = len;
        } else {
            groups[count - 1].push(n);
            assert(grid::rows_view(groups@) =~= done.update(
                done.len() - 1,
                done.last().push(n),
            ));
            last = last + len;
        }
        n += 1;
    }
    groups
}

proof fn lemma_filled(lens: Seq<nat>, budget: int, n: int)
    requires
        0 <= n <= lens.len(),
        n <= usize::MAX,
    ensures
        grid::flat_rows(filled(lens, budget, n).groups) == Seq::new(
            n as nat,
            |i: int| i as usize,
        ),
        forall|g: int|
            0 <= g < filled(lens, budget, n).groups.len() ==> (#[trigger] filled(
                lens,
                budget,
                n,
            ).groups[g]).len() > 0 && group_total(lens, filled(lens, budget, n).groups[g]) >= 0 && (
            filled(lens, budget, n).groups[g].len() > 1 ==> group_total(
                lens,
                filled(lens, budget, n).groups[g],
            ) <= budget),
        filled(lens, budget, n).groups.len() > 0 ==> filled(lens, budget, n).last == group_total(
            lens,
            filled(lens, budget, n).groups.last(),
        ),
    decreases n,
{
    let f = filled(lens, budget, n);
    if n > 0 {
        lemma_filled(lens, budget, n - 1);
        let before = filled(lens, budget, n - 1);
        let i = (n - 1) as usize;
        assert(Seq::new(n as nat, |k: int| k as usize) =~= Seq::new(
            (n - 1) as nat,
            |k: int| k as usize,
        ).push(i));
        if before.groups.len() == 0 || before.last + lens[n - 1] > budget {
            assert(f.groups.drop_last() =~= before.groups);
            assert(grid::flat_rows(before.groups) + seq![i] =~= grid::flat_rows(
                before.groups,
            ).push(i));
            assert(seq![i].drop_last() =~= Seq::<usize>::empty());
            assert(group_total(lens, seq![i]) == lens[n - 1]) by {
                reveal_with_fuel(group_total, 2);
            }
        } else {
            let last = before.groups.last();
            assert(f.groups.drop_last() =~= before.groups.drop_last());
            assert(grid::flat_rows(before.groups.drop_last()) + last.push(i) =~= (grid::flat_rows(
                before.groups.drop_last(),
            ) + last).push(i));
            assert(last.push(i).drop_last() =~= last);
            assert(before.groups[before.groups.len() - 1] == last);
        }
        assert forall|g: int| 0 <= g < f.groups.len() implies (#[trigger] f.groups[g]).len() > 0
            && group_total(lens, f.groups[g]) >= 0 && (f.groups[g].len() > 1 ==> group_total(
            lens,
            f.groups[g],
        ) <= budget) by {
            if g < before.groups.len() - 1 {
                assert(f.groups[g] == before.groups[g]);
            } else if g == before.groups.len() - 1 && f.groups.len() > before.groups.len() {
                assert(f.groups[g] == before.groups[g]);
            }
        }
    } else {
        assert(Seq::new(0, |i: int| i as usize) =~= Seq::<usize>::empty());
    }
}

/// The speech tokens of a group.
pub open spec fn group_total(lens: Seq<nat>, group: Seq<usize>) -> int
    decreases group.len(),
{
    if group.len() == 0 {
        0
    } else {
        group_total(lens, group.drop_last()) + lens[group.last() as int]
    }
}

/// The groups hold every segment once and in order; a group of several stays within the budget.
pub proof fn flow_groups_partition_the_segments(lens: Seq<nat>, budget: int)
    requires
        lens.len() <= usize::MAX,
    ensures
        grid::flat_rows(filled(lens, budget, lens.len() as int).groups) == Seq::new(
            lens.len(),
            |i: int| i as usize,
        ),
        forall|g: int|
            0 <= g < filled(lens, budget, lens.len() as int).groups.len() ==> (#[trigger] filled(
                lens,
                budget,
                lens.len() as int,
            ).groups[g]).len() > 0 && (filled(lens, budget, lens.len() as int).groups[g].len() > 1
                ==> group_total(lens, filled(lens, budget, lens.len() as int).groups[g])
                <= budget),
{
    lemma_filled(lens, budget, lens.len() as int);
}

/// The speech tokens of a group's segments, one behind the other.
pub open spec fn group_speech(spans: Seq<Span>, group: Seq<usize>) -> Seq<u32>
    decreases group.len(),
{
    if group.len() == 0 {
        Seq::empty()
    } else {
        group_speech(spans, group.drop_last()) + spans[group.last() as int].speech@
    }
}

/// What one flow call takes and how its waveform is cut.
pub struct Call {
    pub tokens: Vec<u32>,
    pub paras: Vec<usize>,
    pub lens: Vec<usize>,
}

/// `c` is the flow call of a group.
pub open spec fn call_of(c: Call, spans: Seq<Span>, group: Seq<usize>) -> bool {
    &&& c.tokens@ == group_speech(spans, group)
    &&& c.paras@.len() == group.len()
    &&& c.lens@.len() == group.len()
    &&& forall|i: int|
        0 <= i < group.len() ==> #[trigger] c.paras@[i] == spans[group[i] as int].para
    &&& forall|i: int|
        0 <= i < group.len() ==> #[trigger] c.lens@[i] == spans[group[i] as int].speech@.len()
}

/// The flow call of a group.
pub fn flow_call(spans: &Vec<Span>, group: &Vec<usize>) -> (c: Call)
    requires
        forall|i: int| 0 <= i < group@.len() ==> (#[trigger] group@[i]) < spans@.len(),
    ensures
        call_of(c, spans@, group@),
{
    let mut tokens: Vec<u32> = Vec::new();
    let mut paras: Vec<usize> = Vec::new();
    let mut lens: Vec<usize> = Vec::new();
    let mut i: usize = 0;
    while i < group.len()
        invariant
            i <= group@.len(),
            forall|j: int| 0 <= j < group@.len() ==> (#[trigger] group@[j]) < spans@.len(),
            tokens@ == group_speech(spans@, group@.take(i as int)),
            paras@.len() == i,
            lens@.len() == i,
            forall|j: int|
                0 <= j < i ==> #[trigger] paras@[j] == spans@[group@[j] as int].para,
            forall|j: int|
                0 <= j < i ==> #[trigger] lens@[j] == spans@[group@[j] as int].speech@.len(),
        decreases group@.len() - i,
    {
        let s: usize = group[i];
        extend_copied(&mut tokens, spans[s].speech.as_slice());
        paras.push(spans[s].para);
        lens.push(spans[s].speech.len());
        assert(group@.take(i + 1).drop_last() =~= group@.take(i as int));
        i += 1;
    }
    assert(group@.take(i as int) =~= group@);
    Call { tokens, paras, lens }
}

/// Samples per speech token: its mel frames, at the vocoder's samples for each.
pub const SAMPLES_PER_TOKEN: usize = 960;

/// Cuts a call's waveform back into its segments, so that the gaps still apply. A segment of `n`
/// tokens is exactly `n` times [`SAMPLES_PER_TOKEN`].
pub fn cut_call<T: Copy>(out: &mut Vec<Piece<T>>, call: &Call, samples: &[T])
    requires
        call.paras@.len() == call.lens@.len(),
    ensures
        assemble::piece_views(final(out)@) == assemble::piece_views(old(out)@)
            + assemble::cut_pieces(
            call.paras@,
            call.lens@,
            SAMPLES_PER_TOKEN as nat,
            samples@,
            call.lens@.len() as int,
        ),
{
    let pieces = cut(&call.paras, &call.lens, SAMPLES_PER_TOKEN, samples);
    let ghost had = assemble::piece_views(out@);
    let ghost added = assemble::piece_views(pieces@);
    let mut pieces = pieces;
    out.append(&mut pieces);
    assert(assemble::piece_views(out@) =~= had + added);
}

/// Some pieces with the request's gaps between them.
pub open spec fn uttered<T>(request: SynthesisRequest, pieces: Seq<(int, Seq<T>)>, zero: T) -> Seq<
    T,
> {
    assemble::stitched(
        pieces,
        assemble::gap_of(zero, cfg::SAMPLE_RATE as int, request.gaps.segment_ms as int),
        assemble::gap_of(zero, cfg::SAMPLE_RATE as int, request.gaps.paragraph_ms as int),
    )
}

/// The utterance: the pieces with the request's gaps between them.
pub fn finish<T: Copy>(request: &SynthesisRequest, pieces: &Vec<Piece<T>>, zero: T) -> (r: Result<
    Utterance<T>,
    SpeakError,
>)
    requires
        cfg::SAMPLE_RATE * request.gaps.segment_ms <= usize::MAX,
        cfg::SAMPLE_RATE * request.gaps.paragraph_ms <= usize::MAX,
    ensures
        ({
            let all = uttered(*request, assemble::piece_views(pieces@), zero);
            match r {
                Ok(u) => u.samples@ == all && all.len() > 0 && u.sample_rate == cfg::SAMPLE_RATE,
                Err(e) => e is NoAudio && all.len() == 0,
            }
        }),
{
    match join_pieces(
        pieces,
        zero,
        cfg::SAMPLE_RATE,
        request.gaps.segment_ms,
        request.gaps.paragraph_ms,
    ) {
        Some(samples) => Ok(Utterance { samples, sample_rate: cfg::SAMPLE_RATE as u32 }),
        None => Err(SpeakError::NoAudio),
    }
}

/// A token's samples are its mel frames at the vocoder's samples for each.
pub proof fn samples_per_token_agree()
    ensures
        SAMPLES_PER_TOKEN == cfg::TOKEN_MEL_RATIO * cfg::hift::UPSAMPLE_TOTAL,
        cfg::TOKEN_RATE * SAMPLES_PER_TOKEN == cfg::SAMPLE_RATE,
{
}

} // verus!
