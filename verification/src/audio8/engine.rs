//! Audio8 behind the engine-neutral types: what it can do, how its segments are grouped, and how
//! the results become an utterance.

use crate::assemble;
use crate::assemble::{join_pieces, plan_segments, Piece};
use crate::audio8::ar::{plan_batches, planned};
use crate::audio8::cfg;
use crate::engine::{validate_against, Capabilities, Cloning, EngineConfig, FrameRate, Refusal,
    SynthesisRequest, Utterance};
use crate::engine;
use crate::grid;
use crate::number;
use crate::number::parse_positive;
use crate::order;
use crate::order::{order_by, restore};
use crate::quant;
use crate::quant::{block_format_list, parse_block_quant, Format, QuantError};
use crate::text;
use crate::voice;
use crate::voice::VoiceError;
use vstd::prelude::*;

verus! {

pub const ID: &'static str = "audio8";

/// How many segments decode at once unless the configuration says otherwise.
///
/// Every lane carries its own cache, so this is a memory decision as much as one of throughput.
pub const DEFAULT_MAX_BATCH: usize = 8;

/// What this engine says of itself.
pub open spec fn described(c: Capabilities) -> bool {
    &&& c.id@ == "audio8"@
    &&& c.description@ == "Audio8-TTS-Preview-0.6b — DualAR + RVQ codec, 44.1 kHz"@
    &&& c.sample_rate == cfg::SAMPLE_RATE
    &&& c.frame_rate == (FrameRate { frames: cfg::SAMPLE_RATE, seconds: cfg::CODEC_FRAME_SIZE })
    &&& c.cloning == Cloning::PrecomputedAsset
    &&& !c.streaming
    &&& quant::listed(c.quantization@) == quant::block_formats()
    &&& c.available
    &&& c.reason is None
}

/// What this engine can do.
pub fn capabilities() -> (c: Capabilities)
    ensures
        described(c),
{
    Capabilities {
        id: "audio8",
        description: "Audio8-TTS-Preview-0.6b — DualAR + RVQ codec, 44.1 kHz",
        sample_rate: cfg::SAMPLE_RATE as u32,
        frame_rate: FrameRate { frames: cfg::SAMPLE_RATE, seconds: cfg::CODEC_FRAME_SIZE },
        cloning: Cloning::PrecomputedAsset,
        streaming: false,
        quantization: block_format_list(),
        available: true,
        reason: None,
    }
}

/// What to load for a format name.
pub fn parse_quant(name: Option<&str>) -> (r: Result<Option<Format>, QuantError>)
    ensures
        ({
            let n = quant::name_or_default(quant::name_view(name));
            match r {
                Ok(None) => n == "none"@ || n == "f32"@,
                Ok(Some(f)) => n != "none"@ && n != "f32"@ && quant::format_named(n) == Some(f),
                Err(QuantError::LargeBlocks { name: m }) => m@ == n && quant::large_blocks(n)
                    && quant::format_named(n) is None && n != "none"@ && n != "f32"@,
                Err(QuantError::Unknown { name: m }) => m@ == n && !quant::large_blocks(n)
                    && quant::format_named(n) is None && n != "none"@ && n != "f32"@,
            }
        }),
{
    parse_block_quant(name)
}

/// The files that the engine loads.
pub struct Files {
    pub weights: String,
    pub codec: String,
    pub tokenizer: String,
}

/// Where the engine's files are.
pub fn files(config: &EngineConfig) -> (f: Files)
    ensures
        f.weights@ == engine::located(*config, "weights"@, "model.safetensors"@),
        f.codec@ == engine::located(*config, "codec"@, "codec.safetensors"@),
        f.tokenizer@ == engine::located(*config, "tokenizer"@, "tokenizer.json"@),
{
    Files {
        weights: config.path("weights", "model.safetensors"),
        codec: config.path("codec", "codec.safetensors"),
        tokenizer: config.path("tokenizer", "tokenizer.json"),
    }
}

/// The batch size setting: absent, a positive number, or neither.
pub fn max_batch(config: &EngineConfig) -> (r: Option<usize>)
    ensures
        match engine::looked_up(config.overrides@, "max_batch"@) {
            None => r == Some(DEFAULT_MAX_BATCH),
            Some(s) => match r {
                Some(n) => n > 0 && number::writes_number(s) && n == number::value(
                    number::unsigned_part(s),
                ),
                None => !number::writes_number(s) || number::value(number::unsigned_part(s)) == 0,
            },
        },
{
    match config.setting("max_batch") {
        None => Some(DEFAULT_MAX_BATCH),
        Some(s) => parse_positive(s.as_str()),
    }
}

/// Why nothing is synthesized.
#[derive(Debug)]
pub enum SpeakError {
    Refused(Refusal),
    /// The voice has no transcript, which the prompt interleaves with its codes.
    NoTranscript,
    Voice(VoiceError),
    /// No text to speak.
    NoText,
    /// The engine produced no audio.
    NoAudio,
}

/// The clip that a voice is cloned from.
pub struct Reference {
    pub codes: Vec<Vec<u32>>,
    pub text: String,
}

/// What is settled before any model runs: the reference, and the segments to speak.
pub struct Plan {
    pub reference: Option<Reference>,
    /// Paragraph number and text of each segment, in reading order.
    pub segments: Vec<(usize, String)>,
}

/// A transcript that is blank.
pub open spec fn untold(request: SynthesisRequest) -> bool {
    request.voice matches Some(v) && text::trimmed(v.text@).len() == 0
}

/// A request that the engine would take.
pub open spec fn taken(request: SynthesisRequest) -> bool {
    engine::voice_fits("audio8"@, request.voice)
}

/// Checks a request: its voice has to be one of this engine's, and to say what its clip says.
pub fn check(request: &SynthesisRequest) -> (r: Result<(), SpeakError>)
    ensures
        match r {
            Ok(_) => taken(*request) && !untold(*request),
            Err(SpeakError::Refused(e)) => e == Refusal::WrongVoice && !taken(*request),
            Err(SpeakError::NoTranscript) => taken(*request) && untold(*request),
            Err(_) => false,
        },
{
    let caps = capabilities();
    if let Err(e) = validate_against(&caps, request) {
        return Err(SpeakError::Refused(e));
    }
    if let Some(v) = &request.voice {
        if text::trim(v.text.as_str()).as_str().is_empty() {
            return Err(SpeakError::NoTranscript);
        }
    }
    Ok(())
}

/// Lays out what to speak, given the codes that were read of the request's voice.
pub fn lay_out(request: &SynthesisRequest, codes: Option<Vec<Vec<u32>>>) -> (r: Result<
    Plan,
    SpeakError,
>)
    requires
        codes is Some <==> request.voice is Some,
    ensures
        match r {
            Ok(p) => p.segments@.len() > 0 && assemble::numbered(p.segments@) == assemble::flat(
                text::segmented(request.text@, request.max_chars as nat),
            ) && (p.reference is Some <==> request.voice is Some) && (p.reference matches Some(c)
                ==> c.text@ == request.voice->0.text@ && c.codes == codes->0),
            Err(e) => e is NoText && assemble::flat(
                text::segmented(request.text@, request.max_chars as nat),
            ).len() == 0,
        },
{
    let reference = match (&request.voice, codes) {
        (Some(v), Some(codes)) => Some(Reference { codes, text: v.text.clone() }),
        _ => None,
    };
    match plan_segments(request.text.as_str(), request.max_chars) {
        Some(segments) => Ok(Plan { reference, segments }),
        None => Err(SpeakError::NoText),
    }
}

/// The codes of the request's voice read as rows.
pub open spec fn coded(request: SynthesisRequest) -> bool {
    request.voice matches Some(v) ==> (voice::found(v.tensors@, "reference_codes"@) matches Some(t)
        && voice::gives_rows(t))
}

/// Checks a request and lays out what to speak.
pub fn plan(request: &SynthesisRequest) -> (r: Result<Plan, SpeakError>)
    ensures
        match r {
            Ok(p) => taken(*request) && !untold(*request) && coded(*request) && p.segments@.len() > 0
                && assemble::numbered(p.segments@) == assemble::flat(
                text::segmented(request.text@, request.max_chars as nat),
            ) && (p.reference is Some <==> request.voice is Some) && (p.reference matches Some(c)
                ==> c.text@ == request.voice->0.text@ && voice::reads_rows(
                voice::found(request.voice->0.tensors@, "reference_codes"@)->0,
                grid::rows_view(c.codes@),
            )),
            Err(SpeakError::Refused(e)) => e == Refusal::WrongVoice && !taken(*request),
            Err(SpeakError::NoTranscript) => taken(*request) && untold(*request),
            Err(SpeakError::Voice(e)) => taken(*request) && !untold(*request) && (
            request.voice matches Some(v) && voice::rows_error(
                v.tensors@,
                "reference_codes"@,
                e,
            )),
            Err(SpeakError::NoText) => taken(*request) && !untold(*request) && coded(*request)
                && assemble::flat(
                text::segmented(request.text@, request.max_chars as nat),
            ).len() == 0,
            Err(SpeakError::NoAudio) => false,
        },
        taken(*request) && !untold(*request) && request.voice is Some ==> (!voice::names(
            request.voice->0.tensors@,
        ).contains("reference_codes"@) <==> r matches Err(
            SpeakError::Voice(VoiceError::NoTensor { .. }),
        )),
{
    if let Err(e) = check(request) {
        return Err(e);
    }
    let codes = match &request.voice {
        None => None,
        Some(v) => match v.get_rows_u32("reference_codes") {
            Ok(codes) => Some(codes),
            Err(e) => {
                return Err(SpeakError::Voice(e));
            },
        },
    };
    lay_out(request, codes)
}

/// The prompts in the order in which they are grouped, and the groups of that order.
pub struct Schedule {
    /// Prompts by width: similar lengths travel together, so that less is padded.
    pub order: Vec<usize>,
    /// Which prompts decode together.
    pub groups: Vec<Vec<usize>>,
}

/// Groups prompts of the given lengths.
pub fn schedule(lens: &Vec<usize>, max_batch: usize) -> (s: Schedule)
    requires
        max_batch > 0,
    ensures
        order::ordered(lens@, false, s.order@),
        grid::flat_rows(grid::rows_view(s.groups@)) == s.order@,
        s.groups@.len() == planned(lens@.len(), max_batch as nat).len(),
        forall|g: int|
            0 <= g < s.groups@.len() ==> (#[trigger] s.groups@[g])@.len() == planned(
                lens@.len(),
                max_batch as nat,
            )[g].len(),
{
    let order = order_by(lens, false);
    let n: usize = lens.len();
    let plan = plan_batches(n, max_batch);
    let ghost want = planned(lens@.len(), max_batch as nat);
    let mut groups: Vec<Vec<usize>> = Vec::new();
    let mut g: usize = 0;
    let ghost mut at: int = 0;
    proof {
        crate::audio8::ar::plans_partition_the_indices(lens@.len(), max_batch as nat);
        assert(order@.take(0) =~= Seq::<usize>::empty());
        assert(grid::rows_view(groups@) =~= Seq::<Seq<usize>>::empty());
        assert(want.take(0) =~= Seq::<Seq<usize>>::empty());
    }
    while g < plan.len()
        invariant
            g <= plan@.len(),
            groups@.len() == g,
            want == grid::rows_view(plan@),
            n == order@.len() == lens@.len(),
            grid::flat_rows(want) == Seq::new(lens@.len(), |k: int| k as usize),
            at == grid::flat_rows(want.take(g as int)).len(),
            grid::flat_rows(grid::rows_view(groups@)) == order@.take(at),
            0 <= at <= order@.len(),
            forall|q: int|
                0 <= q < g ==> (#[trigger] groups@[q])@.len() == want[q].len(),
        decreases plan@.len() - g,
    {
        let ghost next = want.take(g + 1);
        proof {
            assert(next.drop_last() =~= want.take(g as int));
            assert(next.last() == plan@[g as int]@);
            lemma_flat_prefix(want, g + 1);
            assert forall|k: int| 0 <= k < plan@[g as int]@.len() implies #[trigger] plan@[g as int]@[k]
                == at + k by {
                assert(grid::flat_rows(next)[at + k] == plan@[g as int]@[k]);
                assert(grid::flat_rows(want)[at + k] == grid::flat_rows(next)[at + k]);
                assert(at + k < n);
            }
        }
        let mut group: Vec<usize> = Vec::new();
        let mut j: usize = 0;
        while j < plan[g].len()
            invariant
                g < plan@.len(),
                j <= plan@[g as int]@.len(),
                order@.len() == lens@.len(),
                0 <= at,
                at + plan@[g as int]@.len() <= order@.len(),
                forall|k: int|
                    0 <= k < plan@[g as int]@.len() ==> #[trigger] plan@[g as int]@[k] == at + k,
                group@ == order@.subrange(at, at + j),
            decreases plan@[g as int]@.len() - j,
        {
            assert(plan@[g as int]@[j as int] == at + j);
            group.push(order[plan[g][j]]);
            j += 1;
            assert(order@.subrange(at, at + j) =~= order@.subrange(at, at + j - 1).push(
                order@[at + j - 1],
            ));
        }
        let ghost done = grid::rows_view(groups@);
        let ghost added = group@;
        groups.push(group);
        proof {
            assert(grid::rows_view(groups@) =~= done.push(added));
            assert(done.push(added).drop_last() =~= done);
            let step = plan@[g as int]@.len();
            assert(order@.take(at + step) =~= order@.take(at) + added);
            at = at + step;
        }
        g += 1;
    }
    proof {
        assert(want.take(g as int) =~= want);
        assert(order@.take(at) =~= order@);
    }
    Schedule { order, groups }
}

proof fn lemma_flat_prefix(rows: Seq<Seq<usize>>, n: int)
    requires
        0 <= n <= rows.len(),
    ensures
        grid::flat_rows(rows.take(n)).len() <= grid::flat_rows(rows).len(),
        forall|k: int|
            0 <= k < grid::flat_rows(rows.take(n)).len() ==> #[trigger] grid::flat_rows(
                rows.take(n),
            )[k] == grid::flat_rows(rows)[k],
    decreases rows.len(),
{
    if n == rows.len() {
        assert(rows.take(n) =~= rows);
    } else {
        lemma_flat_prefix(rows.drop_last(), n);
        assert(rows.drop_last().take(n) =~= rows.take(n));
    }
}

/// A segment whose codes are to be decoded.
pub struct Spoken {
    /// Its place in reading order.
    pub index: usize,
    pub para: usize,
    pub frames: usize,
}

/// The codes of a segment come to at least one frame.
pub open spec fn sounds(codes: Vec<Vec<u32>>) -> bool {
    codes@[0]@.len() > 0
}

/// The places of the segments that come to something, in reading order.
pub open spec fn sounding(codes: Seq<Vec<Vec<u32>>>) -> Seq<int>
    decreases codes.len(),
{
    if codes.len() == 0 {
        Seq::empty()
    } else {
        let before = sounding(codes.drop_last());
        if sounds(codes.last()) {
            before.push(codes.len() - 1)
        } else {
            before
        }
    }
}

/// `out` lists the segments that come to something, in reading order.
pub open spec fn spoken_of(
    out: Seq<Spoken>,
    segments: Seq<(usize, String)>,
    codes: Seq<Vec<Vec<u32>>>,
) -> bool {
    &&& out.len() == sounding(codes).len()
    &&& forall|k: int|
        0 <= k < out.len() ==> {
            let s = #[trigger] out[k];
            &&& s.index == sounding(codes)[k]
            &&& s.index < codes.len()
            &&& s.para == segments[s.index as int].0
            &&& s.frames == codes[s.index as int]@[0]@.len()
        }
}

/// Which segments to decode into audio: those that emitted a frame, in reading order.
pub fn to_decode(segments: &Vec<(usize, String)>, codes: &Vec<Vec<Vec<u32>>>) -> (out: Vec<Spoken>)
    requires
        segments@.len() == codes@.len(),
        forall|i: int| 0 <= i < codes@.len() ==> (#[trigger] codes@[i])@.len() > 0,
    ensures
        spoken_of(out@, segments@, codes@),
{
    let mut out: Vec<Spoken> = Vec::new();
    let mut i: usize = 0;
    while i < codes.len()
        invariant
            i <= codes@.len() == segments@.len(),
            forall|q: int| 0 <= q < codes@.len() ==> (#[trigger] codes@[q])@.len() > 0,
            out@.len() == sounding(codes@.take(i as int)).len(),
            forall|k: int|
                0 <= k < out@.len() ==> {
                    let s = #[trigger] out@[k];
                    &&& s.index == sounding(codes@.take(i as int))[k]
                    &&& s.index < codes@.len()
                    &&& s.para == segments@[s.index as int].0
                    &&& s.frames == codes@[s.index as int]@[0]@.len()
                },
        decreases codes@.len() - i,
    {
        assert(codes@.take(i + 1).drop_last() =~= codes@.take(i as int));
        assert(codes@[i as int]@.len() > 0);
        let frames: usize = codes[i][0].len();
        if frames > 0 {
            out.push(Spoken { index: i, para: segments[i].0, frames });
        }
        i += 1;
    }
    assert(codes@.take(i as int) =~= codes@);
    out
}

/// The codes of every segment in reading order, from those of the groups one behind the other.
pub fn in_reading_order(s: &Schedule, results: &Vec<Vec<Vec<u32>>>) -> (out: Vec<Vec<Vec<u32>>>)
    requires
        order::permutation(s.order@, s.order@.len()),
        results@.len() == s.order@.len(),
    ensures
        out@.len() == s.order@.len(),
        forall|k: int|
            0 <= k < s.order@.len() ==> grid::rows_view(out@[(#[trigger] s.order@[k]) as int]@)
                == grid::rows_view(results@[k]@),
{
    restore(&s.order, results)
}

/// Some pieces with the request's gaps between them.
pub open spec fn uttered<T>(request: SynthesisRequest, pieces: Seq<(int, Seq<T>)>, zero: T) -> Seq<
    T,
> {
    assemble::stitched(
        pieces,
        assemble::gap_of(zero, cfg::SAMPLE_RATE as int, request.gaps.segment_ms as int),
        assemble::gap_of(zero, cfg::SAMPLE_RATE as int, request.gaps.paragraph_ms as int),
    )
}

/// The utterance: the decoded segments with the request's gaps between them.
pub fn finish<T: Copy>(request: &SynthesisRequest, pieces: &Vec<Piece<T>>, zero: T) -> (r: Result<
    Utterance<T>,
    SpeakError,
>)
    requires
        cfg::SAMPLE_RATE * request.gaps.segment_ms <= usize::MAX,
        cfg::SAMPLE_RATE * request.gaps.paragraph_ms <= usize::MAX,
    ensures
        ({
            let all = uttered(*request, assemble::piece_views(pieces@), zero);
            match r {
                Ok(u) => u.samples@ == all && all.len() > 0 && u.sample_rate == cfg::SAMPLE_RATE,
                Err(e) => e is NoAudio && all.len() == 0,
            }
        }),
{
    match join_pieces(
        pieces,
        zero,
        cfg::SAMPLE_RATE,
        request.gaps.segment_ms,
        request.gaps.paragraph_ms,
    ) {
        Some(samples) => Ok(Utterance { samples, sample_rate: cfg::SAMPLE_RATE as u32 }),
        None => Err(SpeakError::NoAudio),
    }
}

} // verus!
