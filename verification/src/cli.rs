//! What a command line settles before anything is read or loaded.

use crate::chars;
use crate::engine;
use crate::engine::{Capabilities, Cloning, EngineConfig};
use crate::engines::{default_id, default_root};
use crate::text::same;
use crate::voice::Voice;
use vstd::prelude::*;

verus! {

/// Splits `key=value` at the first equals sign; a text without one is an error that quotes it.
pub fn parse_override(s: &str) -> (r: Result<(String, String), String>)
    ensures
        match r {
            Ok((k, v)) => s@ == k@.push('=') + v@ && !k@.contains('='),
            Err(t) => !s@.contains('=') && t@ == "expected key=path, got "@ + chars::quoted(s@),
        },
{
    let v = chars::to_chars(s);
    let mut i: usize = 0;
    while i < v.len() && v[i] != '='
        invariant
            i <= v@.len(),
            v@ == s@,
            forall|j: int| 0 <= j < i ==> #[trigger] v@[j] != '=',
        decreases v@.len() - i,
    {
        i += 1;
    }
    if i == v.len() {
        let shown = chars::quote(s);
        return Err("expected key=path, got ".to_owned().concat(shown.as_str()));
    }
    let key = chars::from_chars(v.as_slice(), 0, i);
    let value = chars::from_chars(v.as_slice(), i + 1, v.len());
    assert(s@ =~= key@.push('=') + value@);
    Ok((key, value))
}

/// Where the text to speak comes from.
pub enum Source {
    Given(String),
    File(String),
}

/// The text to speak: given as it is, or in a file; what is given goes first.
pub fn text_source(text: Option<&str>, file: Option<&str>) -> (r: Option<Source>)
    ensures
        match (text, file, r) {
            (Some(t), _, Some(Source::Given(s))) => s@ == t@,
            (None, Some(p), Some(Source::File(s))) => s@ == p@,
            (None, None, None) => true,
            _ => false,
        },
{
    match text {
        Some(t) => Some(Source::Given(t.to_owned())),
        None => match file {
            Some(p) => Some(Source::File(p.to_owned())),
            None => None,
        },
    }
}

/// The engine to use: the one that is named, else the first available one.
pub fn engine_id(named: Option<&str>) -> (id: String)
    ensures
        id@ == match named {
            Some(n) => n@,
            None => "audio8"@,
        },
{
    match named {
        Some(n) => n.to_owned(),
        None => default_id().to_owned(),
    }
}

/// The configuration of an engine: its usual root unless another is named. Of several overrides
/// of one key the last counts.
pub fn configure(
    id: &str,
    root: Option<&str>,
    quant: Option<String>,
    cpu: bool,
    overrides: Vec<(String, String)>,
) -> (c: EngineConfig)
    ensures
        c.quant == quant,
        c.cpu == cpu,
        c.overrides == overrides,
        root matches Some(p) ==> c.model_root@ == p@,
        root is None && id@ == "audio8"@ ==> c.model_root@ == "references/audio8/weights"@,
        root is None && id@ == "cosyvoice"@ ==> c.model_root@ == "references/cosyvoice/weights"@,
        root is None && id@ == "qwen3tts"@ ==> c.model_root@ == "references/qwen3tts/weights"@,
        root is None && id@ != "audio8"@ && id@ != "cosyvoice"@ && id@ != "qwen3tts"@
            ==> c.model_root@ == "."@,
{
    proof {
        reveal_strlit("audio8");
        reveal_strlit("cosyvoice");
        reveal_strlit("qwen3tts");
        assert("audio8"@.len() != "cosyvoice"@.len());
        assert("audio8"@.len() != "qwen3tts"@.len());
        assert("cosyvoice"@.len() != "qwen3tts"@.len());
    }
    let model_root = match root {
        Some(p) => p.to_owned(),
        None => default_root(id).to_owned(),
    };
    EngineConfig { model_root, quant, cpu, overrides }
}

/// A voice that was built for another engine.
pub struct Mismatch {
    pub name: String,
    pub built_for: String,
}

/// Fails on a voice for another engine before any weights are loaded.
pub fn check_voice(id: &str, voice: &Option<Voice>) -> (r: Result<(), Mismatch>)
    ensures
        match r {
            Ok(_) => engine::voice_fits(id@, *voice),
            Err(m) => !engine::voice_fits(id@, *voice) && (voice matches Some(v) && m.name@
                == v.name@ && m.built_for@ == v.engine@),
        },
{
    if let Some(v) = voice {
        if !same(v.engine.as_str(), id) {
            return Err(Mismatch { name: v.name.clone(), built_for: v.engine.clone() });
        }
    }
    Ok(())
}

/// What a build can do with a voice.
#[derive(Clone, Copy, PartialEq, Eq, Structural, Debug)]
pub enum Standing {
    /// The engine at this place of the catalogue speaks it.
    Usable { at: usize },
    /// The engine at this place is listed but does not work yet.
    Staged { at: usize },
    /// No engine claims it.
    Unclaimed,
}

/// `at` is the first engine of that identifier.
pub open spec fn claims(all: Seq<Capabilities>, id: Seq<char>, at: int) -> bool {
    &&& 0 <= at < all.len()
    &&& all[at].id@ == id
    &&& forall|j: int| 0 <= j < at ==> (#[trigger] all[j]).id@ != id
}

/// Looks up the engine that a voice was built for.
pub fn standing(all: &Vec<Capabilities>, built_for: &str) -> (s: Standing)
    ensures
        match s {
            Standing::Usable { at } => claims(all@, built_for@, at as int) && all@[at as int].available,
            Standing::Staged { at } => claims(all@, built_for@, at as int)
                && !all@[at as int].available,
            Standing::Unclaimed => forall|j: int|
                0 <= j < all@.len() ==> (#[trigger] all@[j]).id@ != built_for@,
        },
{
    let mut i: usize = 0;
    while i < all.len()
        invariant
            i <= all@.len(),
            forall|j: int| 0 <= j < i ==> (#[trigger] all@[j]).id@ != built_for@,
        decreases all@.len() - i,
    {
        if same(all[i].id, built_for) {
            return if all[i].available {
                Standing::Usable { at: i }
            } else {
                Standing::Staged { at: i }
            };
        }
        i += 1;
    }
    Standing::Unclaimed
}

/// How a listing puts an engine's properties.
pub struct Listing {
    pub cloning: &'static str,
    pub stream: &'static str,
    pub state: &'static str,
}

/// The words of a listing.
pub fn listing(c: &Capabilities) -> (l: Listing)
    ensures
        l.cloning@ == (if c.cloning == Cloning::PrecomputedAsset {
            "asset"@
        } else {
            "no"@
        }),
        l.stream@ == (if c.streaming {
            "yes"@
        } else {
            "no"@
        }),
        l.state@ == (if c.available {
            "ready"@
        } else {
            "staged"@
        }),
{
    Listing {
        cloning: match c.cloning {
            Cloning::Unsupported => "no",
            Cloning::PrecomputedAsset => "asset",
        },
        stream: if c.streaming {
            "yes"
        } else {
            "no"
        },
        state: if c.available {
            "ready"
        } else {
            "staged"
        },
    }
}

/// An override reads back as the key and the value it was written with, as long as the key has no
/// equals sign.
pub proof fn overrides_read_back(s: Seq<char>, k: Seq<char>, v: Seq<char>, k2: Seq<char>, v2: Seq<char>)
    requires
        s == k.push('=') + v,
        !k.contains('='),
        s == k2.push('=') + v2,
        !k2.contains('='),
    ensures
        k == k2,
        v == v2,
{
    let n = k.len() as int;
    let m = k2.len() as int;
    assert(s[n] == '=');
    assert(s[m] == '=');
    if n < m {
        assert(k2[n] == s[n]);
    }
    if m < n {
        assert(k[m] == s[m]);
    }
    assert(k =~= s.take(n));
    assert(k2 =~= s.take(n));
    assert(v =~= s.skip(n + 1));
    assert(v2 =~= s.skip(n + 1));
}

} // verus!
