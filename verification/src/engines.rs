//! The registry: the one place that knows which engines exist.
//!
//! Unavailable engines are listed rather than hidden, so a client can discover an identifier
//! before it works and get an error that says why instead of silently getting a different voice
//! from a different model.

use crate::audio8;
use crate::chars;
use crate::cosyvoice;
use crate::engine;
use crate::engine::{Capabilities, EngineConfig};
use crate::number;
use crate::quant;
use crate::quant::{Format, QuantError, Weight};
use crate::qwen3tts;
use crate::text::same;
use vstd::prelude::*;

verus! {

/// The engines' identifiers, in preference order.
pub open spec fn known() -> Seq<Seq<char>> {
    seq!["audio8"@, "cosyvoice"@, "qwen3tts"@]
}

/// The identifiers of some engines.
pub open spec fn ids_of(v: Seq<Capabilities>) -> Seq<Seq<char>> {
    Seq::new(v.len(), |i: int| v[i].id@)
}

/// Every engine known to this build, in preference order.
pub fn catalogue() -> (v: Vec<Capabilities>)
    ensures
        ids_of(v@) == known(),
        v@.len() == 3,
        audio8::engine::described(v@[0]),
        cosyvoice::engine::described(v@[1]),
        qwen3tts::engine::described(v@[2]),
{
    let mut v: Vec<Capabilities> = Vec::new();
    v.push(audio8::engine::capabilities());
    v.push(cosyvoice::engine::capabilities());
    v.push(qwen3tts::engine::capabilities());
    assert(ids_of(v@) =~= known());
    v
}

/// Identifiers that a caller may pass to [`load`].
pub fn ids() -> (v: Vec<&'static str>)
    ensures
        quant::listed(v@) == known(),
{
    let all = catalogue();
    let mut v: Vec<&'static str> = Vec::new();
    let mut i: usize = 0;
    while i < all.len()
        invariant
            i <= all@.len(),
            quant::listed(v@) == ids_of(all@).take(i as int),
        decreases all@.len() - i,
    {
        let ghost done = quant::listed(v@);
        v.push(all[i].id);
        assert(quant::listed(v@) =~= done.push(all@[i as int].id@));
        assert(ids_of(all@).take(i + 1) =~= ids_of(all@).take(i as int).push(
            ids_of(all@)[i as int],
        ));
        i += 1;
    }
    assert(ids_of(all@).take(i as int) =~= ids_of(all@));
    v
}

/// The identifier of the first engine that is available, and `audio8` where none is.
pub open spec fn first_available(v: Seq<Capabilities>) -> Seq<char>
    decreases v.len(),
{
    if v.len() == 0 {
        "audio8"@
    } else if v[0].available {
        v[0].id@
    } else {
        first_available(v.drop_first())
    }
}

/// The first engine of a list that can actually synthesize.
pub fn first_id(v: &Vec<Capabilities>) -> (id: &'static str)
    ensures
        id@ == first_available(v@),
{
    let mut i: usize = 0;
    assert(v@.skip(0) =~= v@);
    while i < v.len()
        invariant
            i <= v@.len(),
            first_available(v@) == first_available(v@.skip(i as int)),
        decreases v@.len() - i,
    {
        if v[i].available {
            return v[i].id;
        }
        assert(v@.skip(i as int).drop_first() =~= v@.skip(i + 1));
        i += 1;
    }
    "audio8"
}

/// What a client gets when it does not care which.
pub fn default_id() -> (id: &'static str)
    ensures
        id@ == "audio8"@,
{
    let all = catalogue();
    assert(ids_of(all@)[0] == known()[0]);
    first_id(&all)
}

/// What an engine is loaded with.
pub enum Setup {
    Audio8 { files: audio8::engine::Files, quant: Option<Format>, max_batch: usize },
    CosyVoice {
        models: cosyvoice::engine::Files,
        quant: Option<Format>,
        flow_per_segment: bool,
        llm_batch: usize,
    },
    Qwen3Tts {
        paths: qwen3tts::engine::Paths,
        weight: Weight,
        language: Option<u32>,
        batches: bool,
    },
}

/// Why an engine does not load.
pub enum LoadError {
    /// No engine of that identifier; these are there.
    Unknown { id: String, available: Vec<&'static str> },
    Quant(QuantError),
    /// The batch size is not a positive number.
    MaxBatch,
    /// The engine has no such language.
    Language(String),
}

/// The format name that a configuration asks for.
pub open spec fn asked(config: EngineConfig) -> Seq<char> {
    match config.quant {
        Some(n) => n@,
        None => quant::name_or_default(None),
    }
}

/// A setting writes a positive number.
pub open spec fn positive(s: Seq<char>) -> bool {
    number::writes_number(s) && number::value(number::unsigned_part(s)) > 0
}

/// The batch size setting, if it is a good one.
pub open spec fn batch_setting(config: EngineConfig) -> Option<nat> {
    match engine::looked_up(config.overrides@, "max_batch"@) {
        None => Some(audio8::engine::DEFAULT_MAX_BATCH as nat),
        Some(s) => if positive(s) {
            Some(number::value(number::unsigned_part(s)))
        } else {
            None
        },
    }
}

/// The language setting in lower case, where there is one that is not `auto`.
pub open spec fn language_setting(config: EngineConfig) -> Option<Seq<char>> {
    match engine::looked_up(config.overrides@, "language"@) {
        None => None,
        Some(name) => if chars::ascii_lowered(name) == "auto"@ {
            None
        } else {
            Some(chars::ascii_lowered(name))
        },
    }
}

/// The tag of the language that is asked for, if the list has it.
pub open spec fn language_choice(config: EngineConfig) -> Option<Option<u32>> {
    match language_setting(config) {
        None => Some(None),
        Some(l) => match qwen3tts::cfg::talker::tag_of(l) {
            Some(t) => Some(Some(t)),
            None => None,
        },
    }
}

/// Settles what engine `id` is loaded with: where its files are, the format of its weights and
/// its settings.
pub fn load(id: &str, config: &EngineConfig) -> (r: Result<Setup, LoadError>)
    ensures
        match r {
            Ok(Setup::Audio8 { files, quant: q, max_batch }) => id@ == "audio8"@
                && quant::block_choice(asked(*config)) == Some(q) && batch_setting(*config)
                == Some(max_batch as nat) && files.weights@ == engine::located(
                *config,
                "weights"@,
                "model.safetensors"@,
            ) && files.codec@ == engine::located(*config, "codec"@, "codec.safetensors"@)
                && files.tokenizer@ == engine::located(
                *config,
                "tokenizer"@,
                "tokenizer.json"@,
            ),
            Ok(Setup::CosyVoice { models, quant: q, flow_per_segment, llm_batch }) => id@
                == "cosyvoice"@ && quant::block_choice(asked(*config)) == Some(q)
                && flow_per_segment == (engine::looked_up(
                config.overrides@,
                "flow_per_segment"@,
            ) matches Some(s) && s != "0"@) && llm_batch == (match engine::looked_up(
                config.overrides@,
                "llm_batch"@,
            ) {
                Some(s) => if positive(s) {
                    number::value(number::unsigned_part(s))
                } else {
                    cosyvoice::engine::DEFAULT_LLM_BATCH as nat
                },
                None => cosyvoice::engine::DEFAULT_LLM_BATCH as nat,
            }) && models.llm@ == engine::located(*config, "llm"@, "llm.safetensors"@) && models.flow@
                == engine::located(*config, "flow"@, "flow.safetensors"@) && models.hift@
                == engine::located(*config, "hift"@, "hift.safetensors"@) && models.tokenizer@
                == engine::located(*config, "tokenizer"@, "tokenizer.json"@) && models.noise@
                == engine::located(*config, "noise"@, "rand_noise.safetensors"@),
            Ok(Setup::Qwen3Tts { paths, weight, language, batches }) => id@ == "qwen3tts"@
                && quant::weight_choice(asked(*config)) == Some(weight) && language_choice(*config)
                == Some(language) && batches == !(weight is Quant) && paths.all() == seq![
                engine::located(*config, "talker"@, "model.safetensors"@),
                engine::located(*config, "codec"@, "speech_tokenizer/model.safetensors"@),
                engine::located(*config, "vocab"@, "vocab.json"@),
                engine::located(*config, "merges"@, "merges.txt"@),
            ],
            Err(LoadError::Unknown { id: name, available }) => name@ == id@ && !known().contains(
                id@,
            ) && quant::listed(available@) == known(),
            Err(LoadError::Quant(QuantError::LargeBlocks { name })) => name@ == asked(*config) && (
            id@ == "audio8"@ || id@ == "cosyvoice"@) && quant::block_choice(asked(*config)) is None
                && quant::large_blocks(name@),
            Err(LoadError::Quant(QuantError::Unknown { name })) => name@ == asked(*config) && (if id@
                == "qwen3tts"@ {
                quant::weight_choice(name@) is None
            } else {
                known().contains(id@) && quant::block_choice(name@) is None && !quant::large_blocks(
                    name@,
                )
            }),
            Err(LoadError::MaxBatch) => id@ == "audio8"@ && quant::block_choice(
                asked(*config),
            ) is Some && batch_setting(*config) is None,
            Err(LoadError::Language(name)) => id@ == "qwen3tts"@ && quant::weight_choice(
                asked(*config),
            ) is Some && language_choice(*config) is None && engine::looked_up(
                config.overrides@,
                "language"@,
            ) == Some(name@),
        },
{
    let wanted: Option<&str> = match &config.quant {
        Some(n) => Some(n.as_str()),
        None => None,
    };
    proof {
        lemma_ids_differ();
        assert(known()[0] == "audio8"@ && known()[1] == "cosyvoice"@ && known()[2] == "qwen3tts"@);
    }
    if same(id, "audio8") {
        let q = match audio8::engine::parse_quant(wanted) {
            Ok(q) => q,
            Err(e) => {
                return Err(LoadError::Quant(e));
            },
        };
        return match audio8::engine::max_batch(config) {
            Some(n) => Ok(
                Setup::Audio8 { files: audio8::engine::files(config), quant: q, max_batch: n },
            ),
            None => Err(LoadError::MaxBatch),
        };
    }
    if same(id, "cosyvoice") {
        let q = match cosyvoice::engine::parse_quant(wanted) {
            Ok(q) => q,
            Err(e) => {
                return Err(LoadError::Quant(e));
            },
        };
        return Ok(
            Setup::CosyVoice {
                models: cosyvoice::engine::files(config),
                quant: q,
                flow_per_segment: cosyvoice::engine::flow_per_segment(config),
                llm_batch: cosyvoice::engine::llm_max_batch(config),
            },
        );
    }
    if same(id, "qwen3tts") {
        let weight = match qwen3tts::engine::parse_quant(wanted) {
            Ok(w) => w,
            Err(e) => {
                return Err(LoadError::Quant(e));
            },
        };
        let language = match qwen3tts::engine::language(config) {
            Ok(l) => l,
            Err(name) => {
                return Err(LoadError::Language(name));
            },
        };
        let paths = qwen3tts::engine::Paths::resolve(config);
        return Ok(
            Setup::Qwen3Tts { paths, weight, language, batches: weight.batches() },
        );
    }
    assert(!known().contains(id@)) by {
        if known().contains(id@) {
            let i = choose|i: int| 0 <= i < known().len() && known()[i] == id@;
            assert(i == 0 || i == 1 || i == 2);
        }
    }
    Err(LoadError::Unknown { id: id.to_owned(), available: ids() })
}

proof fn lemma_ids_differ()
    ensures
        "audio8"@ != "cosyvoice"@,
        "audio8"@ != "qwen3tts"@,
        "cosyvoice"@ != "qwen3tts"@,
{
    reveal_strlit("audio8");
    reveal_strlit("cosyvoice");
    reveal_strlit("qwen3tts");
    assert("audio8"@.len() != "cosyvoice"@.len());
    assert("audio8"@.len() != "qwen3tts"@.len());
    assert("cosyvoice"@.len() != "qwen3tts"@.len());
}

/// Default model root per engine: a convention rather than configuration.
pub fn default_root(id: &str) -> (root: &'static str)
    ensures
        root@ == if id@ == "audio8"@ {
            "references/audio8/weights"@
        } else if id@ == "cosyvoice"@ {
            "references/cosyvoice/weights"@
        } else if id@ == "qwen3tts"@ {
            "references/qwen3tts/weights"@
        } else {
            "."@
        },
{
    if same(id, "audio8") {
        "references/audio8/weights"
    } else if same(id, "cosyvoice") {
        "references/cosyvoice/weights"
    } else if same(id, "qwen3tts") {
        "references/qwen3tts/weights"
    } else {
        "."
    }
}

/// The engines' identifiers are distinct, and an unfinished engine never becomes the default: the
/// default is available whenever any engine is.
pub proof fn the_default_is_available(v: Seq<Capabilities>, i: int)
    requires
        0 <= i < v.len(),
        v[i].available,
    ensures
        exists|j: int|
            0 <= j <= i && (#[trigger] v[j]).available && v[j].id@ == first_available(v),
        known().no_duplicates(),
    decreases v.len(),
{
    lemma_ids_differ();
    if v[0].available {
        assert(v[0].id@ == first_available(v));
    } else {
        the_default_is_available(v.drop_first(), i - 1);
        let j = choose|j: int|
            0 <= j <= i - 1 && (#[trigger] v.drop_first()[j]).available && v.drop_first()[j].id@
                == first_available(v.drop_first());
        assert(v[j + 1] == v.drop_first()[j]);
    }
}

/// What a configuration asks for: q8_0 unless it names a format, eight at a time unless it sets a
/// positive number, and a language only where it names one other than `auto`, in any case.
pub proof fn settings_mean_what_they_say(config: EngineConfig)
    ensures
        asked(config) == (match config.quant {
            Some(n) => n@,
            None => seq!['q', '8', '_', '0'],
        }),
        ({
            let given = engine::looked_up(config.overrides@, "max_batch"@);
            &&& given is None ==> batch_setting(config) == Some(8nat)
            &&& given matches Some(s) ==> match batch_setting(config) {
                Some(n) => n > 0 && number::writes_number(s) && n == number::value(
                    number::unsigned_part(s),
                ),
                None => !number::writes_number(s) || number::value(number::unsigned_part(s)) == 0,
            }
        }),
        ({
            let given = engine::looked_up(config.overrides@, "language"@);
            let lowered = chars::ascii_lowered(given->0);
            &&& given is None ==> language_choice(config) == Some(None::<u32>)
            &&& given is Some && lowered == seq!['a', 'u', 't', 'o'] ==> language_choice(config)
                == Some(None::<u32>)
            &&& given is Some && lowered != seq!['a', 'u', 't', 'o'] ==> match language_choice(
                config,
            ) {
                Some(t) => t is Some && t == qwen3tts::cfg::talker::tag_of(lowered),
                None => qwen3tts::cfg::talker::tag_of(lowered) is None,
            }
        }),
{
    reveal_strlit("q8_0");
    reveal_strlit("auto");
    assert("q8_0"@ =~= seq!['q', '8', '_', '0']);
    assert("auto"@ =~= seq!['a', 'u', 't', 'o']);
}

/// There are three engines, in the order of their names, and without one that is available the
/// first is the default.
pub proof fn the_engines_are_these(v: Seq<Capabilities>)
    ensures
        known().len() == 3,
        known()[0] == seq!['a', 'u', 'd', 'i', 'o', '8'],
        known()[1] == seq!['c', 'o', 's', 'y', 'v', 'o', 'i', 'c', 'e'],
        known()[2] == seq!['q', 'w', 'e', 'n', '3', 't', 't', 's'],
        (forall|i: int| 0 <= i < v.len() ==> !(#[trigger] v[i]).available) ==> first_available(v)
            == known()[0],
    decreases v.len(),
{
    reveal_strlit("audio8");
    reveal_strlit("cosyvoice");
    reveal_strlit("qwen3tts");
    assert("audio8"@ =~= seq!['a', 'u', 'd', 'i', 'o', '8']);
    assert("cosyvoice"@ =~= seq!['c', 'o', 's', 'y', 'v', 'o', 'i', 'c', 'e']);
    assert("qwen3tts"@ =~= seq!['q', 'w', 'e', 'n', '3', 't', 't', 's']);
    if v.len() > 0 {
        the_engines_are_these(v.drop_first());
        if forall|i: int| 0 <= i < v.len() ==> !(#[trigger] v[i]).available {
            let r = v.drop_first();
            assert forall|i: int| 0 <= i < r.len() implies !(#[trigger] r[i]).available by {
                assert(r[i] == v[i + 1]);
            }
            assert(!v[0].available);
        }
    }
}

/// Engines go by the identifiers in their descriptions.
pub proof fn engines_go_by_their_ids(v: Seq<Capabilities>, i: int)
    requires
        0 <= i < v.len(),
    ensures
        ids_of(v).len() == v.len(),
        ids_of(v)[i] == v[i].id@,
{
}

} // verus!
