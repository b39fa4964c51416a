//! What a user is told when something is wrong.

use crate::chars;
use crate::chars::quote;
use crate::cli::Mismatch;
use crate::engine::Refusal;
use crate::engines::LoadError;
use crate::number;
use crate::number::write_usize;
use crate::quant;
use crate::quant::{block_format_list, QuantError};
use crate::qwen3tts::cfg::talker;
use crate::qwen3tts::engine as qwen3tts;
use crate::text::same;
use crate::voice::{Voice, VoiceError};
use vstd::prelude::*;

verus! {

/// Some texts with `sep` between them.
pub open spec fn joined_by(parts: Seq<Seq<char>>, sep: Seq<char>) -> Seq<char>
    decreases parts.len(),
{
    if parts.len() == 0 {
        Seq::empty()
    } else if parts.len() == 1 {
        parts[0]
    } else {
        joined_by(parts.drop_last(), sep) + sep + parts.last()
    }
}

/// Some texts, each between quotation marks.
pub open spec fn quoted_each(parts: Seq<Seq<char>>) -> Seq<Seq<char>> {
    Seq::new(parts.len(), |i: int| chars::quoted(parts[i]))
}

/// Joins texts with `sep` between them.
pub fn join(parts: &Vec<String>, sep: &str) -> (r: String)
    ensures
        r@ == joined_by(chars::texts(parts@), sep@),
{
    let ghost all = chars::texts(parts@);
    let mut r = String::new();
    let mut i: usize = 0;
    assert(r@ =~= joined_by(all.take(0), sep@));
    while i < parts.len()
        invariant
            i <= parts@.len(),
            all == chars::texts(parts@),
            r@ == joined_by(all.take(i as int), sep@),
        decreases parts@.len() - i,
    {
        assert(all.take(i + 1).drop_last() =~= all.take(i as int));
        assert(all.take(i + 1).last() == parts@[i as int]@);
        if i > 0 {
            r.append(sep);
        } else {
            assert(r@ =~= Seq::<char>::empty());
        }
        r.append(parts[i].as_str());
        if i == 0 {
            assert(r@ =~= all.take(1)[0]);
        }
        i += 1;
    }
    assert(all.take(i as int) =~= all);
    r
}

fn owned(names: &Vec<&'static str>) -> (v: Vec<String>)
    ensures
        chars::texts(v@) == quant::listed(names@),
{
    let mut v: Vec<String> = Vec::new();
    let mut i: usize = 0;
    while i < names.len()
        invariant
            i <= names@.len(),
            v@.len() == i,
            forall|j: int| 0 <= j < i ==> (#[trigger] v@[j])@ == names@[j]@,
        decreases names@.len() - i,
    {
        v.push(names[i].to_owned());
        i += 1;
    }
    assert(chars::texts(v@) =~= quant::listed(names@));
    v
}

fn quote_each(parts: &Vec<String>) -> (v: Vec<String>)
    ensures
        chars::texts(v@) == quoted_each(chars::texts(parts@)),
{
    let mut v: Vec<String> = Vec::new();
    let mut i: usize = 0;
    while i < parts.len()
        invariant
            i <= parts@.len(),
            v@.len() == i,
            forall|j: int| 0 <= j < i ==> (#[trigger] v@[j])@ == chars::quoted(parts@[j]@),
        decreases parts@.len() - i,
    {
        v.push(quote(parts[i].as_str()));
        i += 1;
    }
    assert(chars::texts(v@) =~= quoted_each(chars::texts(parts@)));
    v
}

/// What is told of a weight format that an engine does not have.
pub open spec fn quant_text(id: Seq<char>, e: QuantError) -> Seq<char> {
    match e {
        QuantError::LargeBlocks { name } => name@ + if id == "audio8"@ {
            " uses 256-element blocks; every k=896 projection fails. Use q8_0."@
        } else {
            " uses 256-element blocks; the LLM's k=896 projections cannot use it. Use q8_0."@
        },
        QuantError::Unknown { name } => if id == "qwen3tts"@ {
            "engine `qwen3tts` does not support weight format `"@ + name@ + "`; it accepts "@
                + joined_by(qwen3tts::formats(), ", "@)
        } else {
            "unknown quant "@ + name@ + " for engine "@ + id + "; try one of ["@ + joined_by(
                quoted_each(quant::block_formats()),
                ", "@,
            ) + "]"@
        },
    }
}

/// What is told of an engine that does not load.
pub open spec fn load_text(id: Seq<char>, e: LoadError) -> Seq<char> {
    match e {
        LoadError::Unknown { id: name, available } => "unknown engine `"@ + name@
            + "`; available: "@ + joined_by(quant::listed(available@), ", "@),
        LoadError::Quant(q) => quant_text(id, q),
        LoadError::MaxBatch => "--set max_batch=<n> needs a positive integer"@,
        LoadError::Language(name) => "engine `qwen3tts` has no language id for `"@ + name@
            + "`; it supports "@ + joined_by(talker::language_names(), ", "@) + " (or `auto`)"@,
    }
}

fn quant_problem(id: &str, e: &QuantError) -> (r: String)
    ensures
        r@ == quant_text(id@, *e),
{
    match e {
        QuantError::LargeBlocks { name } => {
            let mut r = name.clone();
            if same(id, "audio8") {
                r.append(" uses 256-element blocks; every k=896 projection fails. Use q8_0.");
            } else {
                r.append(
                    " uses 256-element blocks; the LLM's k=896 projections cannot use it. Use q8_0.",
                );
            }
            r
        },
        QuantError::Unknown { name } => {
            if same(id, "qwen3tts") {
                let mut r = "engine `qwen3tts` does not support weight format `".to_owned();
                r.append(name.as_str());
                r.append("`; it accepts ");
                let list = join(&owned(&qwen3tts::format_list()), ", ");
                r.append(list.as_str());
                r
            } else {
                let mut r = "unknown quant ".to_owned();
                r.append(name.as_str());
                r.append(" for engine ");
                r.append(id);
                r.append("; try one of [");
                let list = join(&quote_each(&owned(&block_format_list())), ", ");
                r.append(list.as_str());
                r.append("]");
                r
            }
        },
    }
}

/// What a user is told of an engine that does not load.
pub fn load_problem(id: &str, e: &LoadError) -> (r: String)
    ensures
        r@ == load_text(id@, *e),
{
    match e {
        LoadError::Unknown { id: name, available } => {
            let mut r = "unknown engine `".to_owned();
            r.append(name.as_str());
            r.append("`; available: ");
            let list = join(&owned(available), ", ");
            r.append(list.as_str());
            r
        },
        LoadError::Quant(q) => quant_problem(id, q),
        LoadError::MaxBatch => "--set max_batch=<n> needs a positive integer".to_owned(),
        LoadError::Language(name) => {
            let mut r = "engine `qwen3tts` has no language id for `".to_owned();
            r.append(name.as_str());
            r.append("`; it supports ");
            let list = join(&owned(&talker::languages()), ", ");
            r.append(list.as_str());
            r.append(" (or `auto`)");
            r
        },
    }
}

/// What is told of a request that an engine refuses; `no_voice` is what the engine says of one
/// without a voice.
pub open spec fn refusal_text(id: Seq<char>, r: Refusal, no_voice: Seq<char>) -> Seq<char> {
    match r {
        Refusal::Unavailable => "engine `"@ + id + "` is not available"@,
        Refusal::NoCloning => "engine `"@ + id + "` does not clone voices"@,
        Refusal::WrongVoice => "the voice was built for another engine than `"@ + id + "`"@,
        Refusal::NoVoice => no_voice,
    }
}

/// What a user is told of a request that an engine refuses.
pub fn refused(id: &str, r: Refusal, no_voice: &str) -> (s: String)
    ensures
        s@ == refusal_text(id@, r, no_voice@),
{
    let (before, after) = match r {
        Refusal::Unavailable => ("engine `", "` is not available"),
        Refusal::NoCloning => ("engine `", "` does not clone voices"),
        Refusal::WrongVoice => ("the voice was built for another engine than `", "`"),
        Refusal::NoVoice => {
            return no_voice.to_owned();
        },
    };
    let mut s = before.to_owned();
    s.append(id);
    s.append(after);
    s
}

/// What a user is told of weight files that are not there.
pub fn missing_files(missing: &Vec<String>) -> (r: String)
    ensures
        r@ == "engine `qwen3tts` is missing "@ + number::written(missing@.len())
            + " weight file(s): "@ + joined_by(chars::texts(missing@), ", "@)
            + ". Download Qwen/Qwen3-TTS-12Hz-1.7B-Base into references/qwen3tts/weights — see docs/setup.md"@,
{
    let mut r = "engine `qwen3tts` is missing ".to_owned();
    let count = write_usize(missing.len());
    r.append(count.as_str());
    r.append(" weight file(s): ");
    let list = join(missing, ", ");
    r.append(list.as_str());
    r.append(
        ". Download Qwen/Qwen3-TTS-12Hz-1.7B-Base into references/qwen3tts/weights — see docs/setup.md",
    );
    r
}

/// What a user is told of a voice that was built for another engine than the one asked for.
pub fn voice_mismatch(id: &str, m: &Mismatch) -> (r: String)
    ensures
        r@ == "voice `"@ + m.name@ + "` was built for engine `"@ + m.built_for@ + "`, but `"@ + id@
            + "` was requested — voice assets are not interchangeable between engines"@,
{
    let mut r = "voice `".to_owned();
    r.append(m.name.as_str());
    r.append("` was built for engine `");
    r.append(m.built_for.as_str());
    r.append("`, but `");
    r.append(id);
    r.append("` was requested — voice assets are not interchangeable between engines");
    r
}

/// What is told of a tensor that a voice does not have as it should; nothing where the tensor
/// library has the word.
pub open spec fn voice_text(v: Voice, e: VoiceError) -> Option<Seq<char>> {
    match e {
        VoiceError::NoTensor { name, have } => Some(
            "voice `"@ + v.name@ + "` (engine "@ + v.engine@ + ") has no tensor `"@ + name@
                + "`; it has: "@ + joined_by(chars::texts(have@), ", "@),
        ),
        VoiceError::NotTwoDim { name } => Some(
            "tensor `"@ + name@ + "` in voice `"@ + v.name@ + "` is not 2-D"@,
        ),
        VoiceError::TooLarge { name } => Some(
            "tensor `"@ + name@ + "` in voice `"@ + v.name@ + "` is too large"@,
        ),
        VoiceError::Tensor(_) => None,
    }
}

/// What a user is told of a tensor that a voice does not have as it should.
pub fn voice_problem(v: &Voice, e: &VoiceError) -> (r: Option<String>)
    ensures
        match r {
            Some(s) => voice_text(*v, *e) == Some(s@),
            None => voice_text(*v, *e) is None,
        },
{
    match e {
        VoiceError::NoTensor { name, have } => {
            let mut r = "voice `".to_owned();
            r.append(v.name.as_str());
            r.append("` (engine ");
            r.append(v.engine.as_str());
            r.append(") has no tensor `");
            r.append(name.as_str());
            r.append("`; it has: ");
            let list = join(have, ", ");
            r.append(list.as_str());
            Some(r)
        },
        VoiceError::NotTwoDim { name } => Some(about(v, name.as_str(), "` is not 2-D")),
        VoiceError::TooLarge { name } => Some(about(v, name.as_str(), "` is too large")),
        VoiceError::Tensor(_) => None,
    }
}

fn about(v: &Voice, name: &str, what: &str) -> (r: String)
    ensures
        r@ == "tensor `"@ + name@ + "` in voice `"@ + v.name@ + what@,
{
    let mut r = "tensor `".to_owned();
    r.append(name);
    r.append("` in voice `");
    r.append(v.name.as_str());
    r.append(what);
    r
}

/// That a text stands in another from a place on.
pub open spec fn stands_in(text: Seq<char>, part: Seq<char>, at: int) -> bool {
    0 <= at && at + part.len() <= text.len() && text.subrange(at, at + part.len()) == part
}

/// A list holds its parts in order, the separator between neighbours and nothing else.
#[verifier::rlimit(50)]
pub proof fn a_list_holds_its_parts_in_order(parts: Seq<Seq<char>>, sep: Seq<char>) -> (at: Seq<int>)
    ensures
        at.len() == parts.len(),
        parts.len() == 0 ==> joined_by(parts, sep).len() == 0,
        parts.len() > 0 ==> at[0] == 0 && joined_by(parts, sep).len() == at.last()
            + parts.last().len(),
        forall|k: int|
            0 <= k < parts.len() ==> #[trigger] stands_in(joined_by(parts, sep), parts[k], at[k]),
        forall|k: int, l: int|
            0 <= k && l == k + 1 && l < parts.len() ==> #[trigger] at[l] == #[trigger] at[k]
                + parts[k].len() + sep.len(),
        forall|k: int|
            0 <= k < parts.len() - 1 ==> #[trigger] stands_in(
                joined_by(parts, sep),
                sep,
                at[k] + parts[k].len(),
            ),
    decreases parts.len(),
{
    let all = joined_by(parts, sep);
    if parts.len() == 0 {
        Seq::empty()
    } else if parts.len() == 1 {
        assert(all.subrange(0, all.len() as int) =~= parts[0]);
        seq![0int]
    } else {
        let b = parts.drop_last();
        let n = parts.len() - 1;
        let was = a_list_holds_its_parts_in_order(b, sep);
        let before = joined_by(b, sep);
        let at = was.push((before.len() + sep.len()) as int);
        assert(all == before + sep + parts[n]);
        assert forall|k: int| 0 <= k < parts.len() implies #[trigger] stands_in(
            all,
            parts[k],
            at[k],
        ) by {
            if k < n {
                assert(stands_in(before, b[k], was[k]));
                assert(all.subrange(at[k], at[k] + parts[k].len()) =~= before.subrange(
                    was[k],
                    was[k] + b[k].len(),
                ));
            } else {
                assert(all.subrange(at[k], at[k] + parts[k].len()) =~= parts[k]);
            }
        }
        assert forall|k: int, l: int| 0 <= k && l == k + 1 && l < parts.len() implies
            #[trigger] at[l] == #[trigger] at[k] + parts[k].len() + sep.len() by {
            if l < n {
                assert(was[l] == was[k] + b[k].len() + sep.len());
            } else {
                assert(at[k] == was[k]);
                assert(before.len() == was.last() + b.last().len());
            }
        }
        assert forall|k: int| 0 <= k < parts.len() - 1 implies #[trigger] stands_in(
            all,
            sep,
            at[k] + parts[k].len(),
        ) by {
            if k < n - 1 {
                assert(stands_in(before, sep, was[k] + b[k].len()));
                let p = at[k] + parts[k].len();
                assert(all.subrange(p, p + sep.len()) =~= before.subrange(p, p + sep.len()));
            } else {
                assert(before.len() == was.last() + b.last().len());
                let p = before.len() as int;
                assert(all.subrange(p, p + sep.len()) =~= sep);
            }
        }
        at
    }
}

/// That a text is told somewhere in a message.
pub open spec fn told(message: Seq<char>, part: Seq<char>) -> bool {
    exists|at: int| #[trigger] stands_in(message, part, at)
}

proof fn lemma_told(a: Seq<char>, part: Seq<char>, b: Seq<char>)
    ensures
        told(a + part + b, part),
        told(a + part, part),
        told(part + b, part),
{
    let n = a.len() as int;
    assert((a + part + b).subrange(n, n + part.len()) =~= part);
    assert((a + part).subrange(n, n + part.len()) =~= part);
    assert((part + b).subrange(0, part.len() as int) =~= part);
    assert(stands_in(a + part + b, part, n));
    assert(stands_in(a + part, part, n));
    assert(stands_in(part + b, part, 0));
}

/// A refused format is told by its name, and where it is unknown the formats that load are listed.
pub proof fn a_refused_format_is_told(id: Seq<char>, e: QuantError)
    ensures
        e matches QuantError::LargeBlocks { name } ==> told(quant_text(id, e), name@),
        e matches QuantError::Unknown { name } ==> told(quant_text(id, e), name@) && (if id
            == "qwen3tts"@ {
            told(quant_text(id, e), joined_by(qwen3tts::formats(), ", "@))
        } else {
            told(quant_text(id, e), id) && told(
                quant_text(id, e),
                joined_by(quoted_each(quant::block_formats()), ", "@),
            )
        }),
{
    match e {
        QuantError::LargeBlocks { name } => {
            let rest = if id == "audio8"@ {
                " uses 256-element blocks; every k=896 projection fails. Use q8_0."@
            } else {
                " uses 256-element blocks; the LLM's k=896 projections cannot use it. Use q8_0."@
            };
            lemma_told(Seq::empty(), name@, rest);
        },
        QuantError::Unknown { name } => {
            let m = quant_text(id, e);
            if id == "qwen3tts"@ {
                let head = "engine `qwen3tts` does not support weight format `"@;
                let mid = "`; it accepts "@;
                let list = joined_by(qwen3tts::formats(), ", "@);
                lemma_told(head, name@, mid + list);
                assert(m =~= head + name@ + (mid + list));
                lemma_told(head + name@ + mid, list, Seq::empty());
            } else {
                let list = joined_by(quoted_each(quant::block_formats()), ", "@);
                let (a, b, c, d) = ("unknown quant "@, " for engine "@, "; try one of ["@, "]"@);
                lemma_told(a, name@, b + id + c + list + d);
                assert(m =~= a + name@ + (b + id + c + list + d));
                lemma_told(a + name@ + b, id, c + list + d);
                assert(m =~= a + name@ + b + id + (c + list + d));
                lemma_told(a + name@ + b + id + c, list, d);
            }
        },
    }
}

/// An engine or a language that is not there is told by its name, with those that are.
pub proof fn what_is_not_there_is_told(id: Seq<char>, e: LoadError)
    ensures
        e matches LoadError::Unknown { id: name, available } ==> told(load_text(id, e), name@)
            && told(load_text(id, e), joined_by(quant::listed(available@), ", "@)),
        e matches LoadError::Language(name) ==> told(load_text(id, e), name@) && told(
            load_text(id, e),
            joined_by(talker::language_names(), ", "@),
        ),
        e matches LoadError::Quant(q) ==> load_text(id, e) == quant_text(id, q),
        e is MaxBatch ==> told(load_text(id, e), "max_batch"@),
{
    let m = load_text(id, e);
    match e {
        LoadError::Unknown { id: name, available } => {
            let list = joined_by(quant::listed(available@), ", "@);
            let (a, b) = ("unknown engine `"@, "`; available: "@);
            lemma_told(a, name@, b + list);
            assert(m =~= a + name@ + (b + list));
            lemma_told(a + name@ + b, list, Seq::empty());
        },
        LoadError::Language(name) => {
            let list = joined_by(talker::language_names(), ", "@);
            let (a, b, c) = (
                "engine `qwen3tts` has no language id for `"@,
                "`; it supports "@,
                " (or `auto`)"@,
            );
            lemma_told(a, name@, b + list + c);
            assert(m =~= a + name@ + (b + list + c));
            lemma_told(a + name@ + b, list, c);
        },
        LoadError::MaxBatch => {
            reveal_strlit("--set max_batch=<n> needs a positive integer");
            reveal_strlit("max_batch");
            assert(m.subrange(6, 15) =~= "max_batch"@);
            assert(stands_in(m, "max_batch"@, 6));
        },
        LoadError::Quant(_) => {},
    }
}

/// A tensor that a voice lacks is told by its name and the voice's, with those that it has.
pub proof fn what_a_voice_lacks_is_told(v: Voice, e: VoiceError)
    ensures
        voice_text(v, e) is None <==> e is Tensor,
        e matches VoiceError::NoTensor { name, have } ==> told(voice_text(v, e)->0, name@) && told(
            voice_text(v, e)->0,
            v.name@,
        ) && told(voice_text(v, e)->0, v.engine@) && told(
            voice_text(v, e)->0,
            joined_by(chars::texts(have@), ", "@),
        ),
        e matches VoiceError::NotTwoDim { name } ==> told(voice_text(v, e)->0, name@) && told(
            voice_text(v, e)->0,
            v.name@,
        ),
        e matches VoiceError::TooLarge { name } ==> told(voice_text(v, e)->0, name@) && told(
            voice_text(v, e)->0,
            v.name@,
        ),
{
    match e {
        VoiceError::NoTensor { name, have } => {
            let m = voice_text(v, e)->0;
            let list = joined_by(chars::texts(have@), ", "@);
            let (a, b, c, d) = ("voice `"@, "` (engine "@, ") has no tensor `"@, "`; it has: "@);
            lemma_told(a, v.name@, b + v.engine@ + c + name@ + d + list);
            assert(m =~= a + v.name@ + (b + v.engine@ + c + name@ + d + list));
            lemma_told(a + v.name@ + b, v.engine@, c + name@ + d + list);
            assert(m =~= a + v.name@ + b + v.engine@ + (c + name@ + d + list));
            lemma_told(a + v.name@ + b + v.engine@ + c, name@, d + list);
            assert(m =~= a + v.name@ + b + v.engine@ + c + name@ + (d + list));
            lemma_told(a + v.name@ + b + v.engine@ + c + name@ + d, list, Seq::empty());
        },
        VoiceError::NotTwoDim { name } => {
            lemma_about(name@, v.name@, "` is not 2-D"@);
        },
        VoiceError::TooLarge { name } => {
            lemma_about(name@, v.name@, "` is too large"@);
        },
        VoiceError::Tensor(_) => {},
    }
}

proof fn lemma_about(name: Seq<char>, voice: Seq<char>, what: Seq<char>)
    ensures
        told("tensor `"@ + name + "` in voice `"@ + voice + what, name),
        told("tensor `"@ + name + "` in voice `"@ + voice + what, voice),
{
    let (a, b) = ("tensor `"@, "` in voice `"@);
    lemma_told(a, name, b + voice + what);
    assert(a + name + b + voice + what =~= a + name + (b + voice + what));
    lemma_told(a + name + b, voice, what);
}

/// A refusal is told by the engine that refused, except that a missing voice has a text of its own.
pub proof fn a_refusal_is_told_by_its_engine(id: Seq<char>, r: Refusal, no_voice: Seq<char>)
    ensures
        r is NoVoice ==> refusal_text(id, r, no_voice) == no_voice,
        !(r is NoVoice) ==> told(refusal_text(id, r, no_voice), id),
{
    lemma_told("engine `"@, id, "` is not available"@);
    lemma_told("engine `"@, id, "` does not clone voices"@);
    lemma_told("the voice was built for another engine than `"@, id, "`"@);
}

} // verus!
