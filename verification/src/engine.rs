//! Engine-neutral types: what every engine offers a client, and what a request asks.
//!
//! The things engines genuinely differ on are named explicitly. A request that an engine cannot
//! honour gets a clear error rather than a silent substitution.

use crate::chars;
use crate::text::same;
use crate::voice;
use crate::voice::Voice;
use vstd::prelude::*;

verus! {

/// How an engine clones a voice.
#[derive(Clone, Copy, PartialEq, Eq, Structural, Debug)]
pub enum Cloning {
    /// It does not.
    Unsupported,
    /// From an asset computed offline.
    PrecomputedAsset,
}

/// Frames per second, as a ratio.
#[derive(Clone, Copy, PartialEq, Eq, Structural, Debug)]
pub struct FrameRate {
    pub frames: usize,
    pub seconds: usize,
}

/// What an engine can do.
pub struct Capabilities {
    pub id: &'static str,
    pub description: &'static str,
    pub sample_rate: u32,
    pub frame_rate: FrameRate,
    pub cloning: Cloning,
    pub streaming: bool,
    /// Weight formats that load, the preferred one first.
    pub quantization: Vec<&'static str>,
    pub available: bool,
    /// Why the engine is not available.
    pub reason: Option<&'static str>,
}

/// Silence between two segments, and between two paragraphs, in milliseconds.
#[derive(Clone, Copy, PartialEq, Eq, Structural, Debug)]
pub struct Gaps {
    pub segment_ms: usize,
    pub paragraph_ms: usize,
}

/// How tokens are drawn. The real-valued settings stay with the sampler.
#[derive(Clone, Copy, PartialEq, Eq, Structural, Debug)]
pub struct Sampling {
    pub top_k: usize,
    pub seed: u64,
    pub greedy: bool,
}

/// The number of candidates that a request asks for unless it says otherwise.
pub const DEFAULT_TOP_K: usize = 50;

pub struct SynthesisRequest {
    pub text: String,
    pub voice: Option<Voice>,
    pub sampling: Sampling,
    /// The byte budget of a segment.
    pub max_chars: usize,
    /// The most steps that one segment may decode.
    pub max_new_tokens: usize,
    pub gaps: Gaps,
}

/// A request with the real-valued settings of its sampler, whatever they are.
pub struct Asked<S> {
    pub request: SynthesisRequest,
    pub settings: S,
}

/// How the tokens of a request are drawn.
pub open spec fn manner<S>(p: Asked<S>) -> (Sampling, S) {
    (p.request.sampling, p.settings)
}

/// Two requests ask for the same: the same text in the same voice, drawn in the same manner, cut
/// and bounded alike, with the same gaps.
pub open spec fn alike<S>(p: Asked<S>, q: Asked<S>) -> bool {
    &&& p.request.text@ == q.request.text@
    &&& match (p.request.voice, q.request.voice) {
        (Some(v), Some(w)) => voice::same_voice(v, w),
        (None, None) => true,
        _ => false,
    }
    &&& manner(p) == manner(q)
    &&& p.request.max_chars == q.request.max_chars
    &&& p.request.max_new_tokens == q.request.max_new_tokens
    &&& p.request.gaps == q.request.gaps
}

/// What an engine says: samples, and how many of them make a second.
pub struct Utterance<T> {
    pub samples: Vec<T>,
    pub sample_rate: u32,
}

/// Two utterances are the same.
pub open spec fn same_sound<T>(x: Utterance<T>, y: Utterance<T>) -> bool {
    x.samples@ == y.samples@ && x.sample_rate == y.sample_rate
}

impl SynthesisRequest {
    /// A request to speak `text`, everything else at its default.
    pub fn new(text: &str) -> (r: Self)
        ensures
            r.text@ == text@,
            r.voice is None,
            r.sampling == (Sampling { top_k: DEFAULT_TOP_K, seed: 1234, greedy: false }),
            r.max_chars == 220,
            r.max_new_tokens == 512,
            r.gaps == (Gaps { segment_ms: 90, paragraph_ms: 320 }),
    {
        SynthesisRequest {
            text: text.to_owned(),
            voice: None,
            sampling: Sampling { top_k: DEFAULT_TOP_K, seed: 1234, greedy: false },
            max_chars: 220,
            max_new_tokens: 512,
            gaps: Gaps { segment_ms: 90, paragraph_ms: 320 },
        }
    }

    /// The same request in the given voice.
    pub fn with_voice(self, voice: Voice) -> (r: Self)
        ensures
            r == (SynthesisRequest { voice: Some(voice), ..self }),
    {
        SynthesisRequest {
            text: self.text,
            voice: Some(voice),
            sampling: self.sampling,
            max_chars: self.max_chars,
            max_new_tokens: self.max_new_tokens,
            gaps: self.gaps,
        }
    }
}

/// Why a request is refused.
#[derive(Clone, Copy, PartialEq, Eq, Structural, Debug)]
pub enum Refusal {
    /// The engine is listed but cannot synthesize.
    Unavailable,
    /// The request has a voice and the engine does not clone.
    NoCloning,
    /// The voice was built for another engine.
    WrongVoice,
    /// The engine speaks in a voice only, and the request has none.
    NoVoice,
}

/// The request's voice, if it has one, was built for engine `id`.
pub open spec fn voice_fits(id: Seq<char>, voice: Option<Voice>) -> bool {
    voice matches Some(v) ==> v.engine@ == id
}

/// Holds a request against what an engine can do: the engine has to be available, and a voice has
/// to have been built for it.
pub fn validate_against(caps: &Capabilities, request: &SynthesisRequest) -> (r: Result<(), Refusal>)
    ensures
        match r {
            Ok(_) => caps.available && (request.voice is Some ==> caps.cloning != Cloning::Unsupported)
                && voice_fits(caps.id@, request.voice),
            Err(Refusal::Unavailable) => !caps.available,
            Err(Refusal::NoCloning) => caps.available && request.voice is Some && caps.cloning
                == Cloning::Unsupported,
            Err(Refusal::WrongVoice) => caps.available && caps.cloning != Cloning::Unsupported
                && !voice_fits(caps.id@, request.voice),
            Err(Refusal::NoVoice) => false,
        },
{
    if !caps.available {
        return Err(Refusal::Unavailable);
    }
    if let Some(v) = &request.voice {
        if caps.cloning == Cloning::Unsupported {
            return Err(Refusal::NoCloning);
        }
        if !same(v.engine.as_str(), caps.id) {
            return Err(Refusal::WrongVoice);
        }
    }
    Ok(())
}

/// [`validate_against`], for an engine that has no path without a voice.
pub fn validate_with_voice(caps: &Capabilities, request: &SynthesisRequest) -> (r: Result<
    (),
    Refusal,
>)
    ensures
        match r {
            Ok(_) => caps.available && caps.cloning != Cloning::Unsupported && request.voice is Some
                && voice_fits(caps.id@, request.voice),
            Err(Refusal::Unavailable) => !caps.available,
            Err(Refusal::NoCloning) => caps.available && request.voice is Some && caps.cloning
                == Cloning::Unsupported,
            Err(Refusal::WrongVoice) => caps.available && caps.cloning != Cloning::Unsupported
                && !voice_fits(caps.id@, request.voice),
            Err(Refusal::NoVoice) => caps.available && request.voice is None,
        },
{
    match validate_against(caps, request) {
        Ok(_) => {
            if request.voice.is_none() {
                return Err(Refusal::NoVoice);
            }
            Ok(())
        },
        Err(e) => Err(e),
    }
}

/// Where an engine's files are, and how its weights load.
pub struct EngineConfig {
    pub model_root: String,
    pub quant: Option<String>,
    pub cpu: bool,
    /// Settings and file locations by key; a later entry replaces an earlier one.
    pub overrides: Vec<(String, String)>,
}

/// The last entry of that key.
pub open spec fn looked_up(overrides: Seq<(String, String)>, key: Seq<char>) -> Option<Seq<char>>
    decreases overrides.len(),
{
    if overrides.len() == 0 {
        None
    } else if overrides.last().0@ == key {
        Some(overrides.last().1@)
    } else {
        looked_up(overrides.drop_last(), key)
    }
}

/// `rel` below `root`; an absolute `rel` stands for itself.
pub open spec fn below(root: Seq<char>, rel: Seq<char>) -> Seq<char> {
    if root.len() == 0 || (rel.len() > 0 && rel[0] == '/') {
        rel
    } else if root.last() == '/' {
        root + rel
    } else {
        root.push('/') + rel
    }
}

/// The file for `key`: the override if there is one, else `default` below the model root.
pub open spec fn located(config: EngineConfig, key: Seq<char>, default: Seq<char>) -> Seq<char> {
    match looked_up(config.overrides@, key) {
        Some(p) => p,
        None => below(config.model_root@, default),
    }
}

impl EngineConfig {
    /// A configuration with the given root and no overrides.
    pub fn new(root: &str) -> (c: Self)
        ensures
            c.model_root@ == root@,
            c.quant is None,
            !c.cpu,
            c.overrides@.len() == 0,
    {
        EngineConfig {
            model_root: root.to_owned(),
            quant: None,
            cpu: false,
            overrides: Vec::new(),
        }
    }

    /// The setting for `key`.
    pub fn setting(&self, key: &str) -> (r: Option<&String>)
        ensures
            match r {
                Some(v) => looked_up(self.overrides@, key@) == Some(v@),
                None => looked_up(self.overrides@, key@) is None,
            },
    {
        let mut i: usize = self.overrides.len();
        assert(self.overrides@.take(i as int) =~= self.overrides@);
        while i > 0
            invariant
                i <= self.overrides@.len(),
                looked_up(self.overrides@.take(i as int), key@) == looked_up(
                    self.overrides@,
                    key@,
                ),
            decreases i,
        {
            assert(self.overrides@.take(i as int).drop_last() =~= self.overrides@.take(i - 1));
            i -= 1;
            if same(self.overrides[i].0.as_str(), key) {
                return Some(&self.overrides[i].1);
            }
        }
        None
    }

    /// The file for `key`.
    pub fn path(&self, key: &str, default: &str) -> (p: String)
        ensures
            p@ == located(*self, key@, default@),
    {
        if let Some(p) = self.setting(key) {
            return p.clone();
        }
        let root = chars::to_chars(self.model_root.as_str());
        let rel = chars::to_chars(default);
        let mut out = String::new();
        if root.len() == 0 || (rel.len() > 0 && rel[0] == '/') {
            assert(out@ + default@ =~= default@);
        } else {
            out.append(self.model_root.as_str());
            assert(out@ =~= self.model_root@);
            if root[root.len() - 1] != '/' {
                out.push('/');
            }
        }
        out.append(default);
        out
    }
}

/// What a run cost, in counts. Seconds are measured around the library.
#[derive(Clone, Copy, PartialEq, Eq, Structural, Debug)]
pub struct Stats {
    pub segments: usize,
    pub frames: usize,
}

impl Stats {
    /// Nothing done yet.
    pub fn new() -> (s: Self)
        ensures
            s == (Stats { segments: 0, frames: 0 }),
    {
        Stats { segments: 0, frames: 0 }
    }

    /// Counts some segments that came to `frames` frames together.
    pub fn count(&mut self, segments: usize, frames: usize)
        requires
            old(self).segments + segments <= usize::MAX,
            old(self).frames + frames <= usize::MAX,
        ensures
            final(self).segments == old(self).segments + segments,
            final(self).frames == old(self).frames + frames,
    {
        self.segments = self.segments + segments;
        self.frames = self.frames + frames;
    }
}

/// The last entry of a key counts, and a key without an entry has no value.
pub proof fn the_last_entry_counts(overrides: Seq<(String, String)>, key: Seq<char>, i: int)
    requires
        forall|j: int| i < j < overrides.len() ==> (#[trigger] overrides[j]).0@ != key,
        -1 <= i < overrides.len(),
        i >= 0 ==> overrides[i].0@ == key,
    ensures
        i >= 0 ==> looked_up(overrides, key) == Some(overrides[i].1@),
        i == -1 ==> looked_up(overrides, key) is None,
    decreases overrides.len(),
{
    if overrides.len() > 0 && i < overrides.len() - 1 {
        let b = overrides.drop_last();
        assert(overrides.last() == overrides[overrides.len() - 1]);
        assert forall|j: int| i < j < b.len() implies (#[trigger] b[j]).0@ != key by {
            assert(b[j] == overrides[j]);
        }
        the_last_entry_counts(b, key, i);
        if i >= 0 {
            assert(b[i] == overrides[i]);
        }
    }
}

/// A file is where the settings put it, and otherwise below the root under its usual name, with
/// one slash between the two.
pub proof fn files_are_below_the_root(config: EngineConfig, key: Seq<char>, usual: Seq<char>)
    requires
        usual.len() > 0,
        usual[0] != '/',
    ensures
        ({
            let p = located(config, key, usual);
            let root = config.model_root@;
            match looked_up(config.overrides@, key) {
                Some(given) => p == given,
                None => {
                    &&& root.len() == 0 ==> p == usual
                    &&& root.len() > 0 ==> {
                        &&& p.subrange(p.len() - usual.len(), p.len() as int) == usual
                        &&& p.subrange(0, root.len() as int) == root
                        &&& p[p.len() - usual.len() - 1] == '/'
                        &&& p.len() == root.len() + usual.len() + (if root.last() == '/' {
                            0int
                        } else {
                            1int
                        })
                    }
                },
            }
        }),
{
    let p = located(config, key, usual);
    let root = config.model_root@;
    if looked_up(config.overrides@, key) is None && root.len() > 0 {
        assert(p.subrange(p.len() - usual.len(), p.len() as int) =~= usual);
        assert(p.subrange(0, root.len() as int) =~= root);
    }
}

/// A voice fits the engine that it was built for and no other; no voice fits any engine.
pub proof fn a_voice_fits_its_own_engine(a: Seq<char>, b: Seq<char>, v: Voice)
    requires
        a != b,
    ensures
        voice_fits(a, None),
        voice_fits(v.engine@, Some(v)),
        voice_fits(a, Some(v)) ==> !voice_fits(b, Some(v)),
{
}

} // verus!
