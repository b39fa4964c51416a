//! The trunk that turns text into the codes of the first codebook.

use crate::text::same;
use vstd::prelude::*;

verus! {

pub const DIM: usize = 2048;

pub const LAYERS: usize = 28;

pub const HEADS: usize = 16;

pub const N_KV: usize = 8;

pub const HEAD_DIM: usize = 128;

pub const FFN: usize = 6144;

/// How many query heads share one key-value head.
pub const GQA: usize = 2;

/// No attention biases.
pub const ATTENTION_BIAS: bool = false;

/// Queries and keys are normalised over the head dimension, before the rotation.
pub const QK_NORM: bool = true;

pub const TEXT_VOCAB: usize = 151936;

pub const TEXT_DIM: usize = 2048;

/// The text projection is biased even though attention is not.
pub const TEXT_PROJECTION_BIAS: bool = true;

/// Real codes, then a block of control ids.
pub const VOCAB: usize = 3072;

/// Codes the talker may emit: the live range is `0..CODES` plus the end marker.
pub const CODES: usize = 2048;

pub const CODEC_PAD: u32 = 2148;

pub const CODEC_BOS: u32 = 2149;

pub const CODEC_EOS: u32 = 2150;

pub const CODEC_THINK: u32 = 2154;

pub const CODEC_NOTHINK: u32 = 2155;

pub const CODEC_THINK_BOS: u32 = 2156;

pub const CODEC_THINK_EOS: u32 = 2157;

pub const TTS_PAD: u32 = 151671;

pub const TTS_BOS: u32 = 151672;

pub const TTS_EOS: u32 = 151673;

pub const IM_START: u32 = 151644;

pub const IM_END: u32 = 151645;

pub const ASSISTANT: u32 = 77091;

pub const TOP_K: usize = 50;

pub const MIN_NEW_TOKENS: usize = 2;

pub const MAX_NEW_TOKENS: usize = 4096;

/// The languages and the tag of each.
pub open spec fn tag_of(name: Seq<char>) -> Option<u32> {
    if name == "english"@ {
        Some(2050)
    } else if name == "german"@ {
        Some(2053)
    } else if name == "spanish"@ {
        Some(2054)
    } else if name == "chinese"@ {
        Some(2055)
    } else if name == "japanese"@ {
        Some(2058)
    } else if name == "french"@ {
        Some(2061)
    } else if name == "korean"@ {
        Some(2064)
    } else if name == "russian"@ {
        Some(2069)
    } else if name == "italian"@ {
        Some(2070)
    } else if name == "portuguese"@ {
        Some(2071)
    } else {
        None
    }
}

/// The names that have a tag.
pub open spec fn language_names() -> Seq<Seq<char>> {
    seq![
        "english"@,
        "german"@,
        "spanish"@,
        "chinese"@,
        "japanese"@,
        "french"@,
        "korean"@,
        "russian"@,
        "italian"@,
        "portuguese"@,
    ]
}

/// The language tag prefilled into the codec stream.
pub fn language_id(name: &str) -> (r: Option<u32>)
    ensures
        r == tag_of(name@),
{
    if same(name, "english") {
        Some(2050)
    } else if same(name, "german") {
        Some(2053)
    } else if same(name, "spanish") {
        Some(2054)
    } else if same(name, "chinese") {
        Some(2055)
    } else if same(name, "japanese") {
        Some(2058)
    } else if same(name, "french") {
        Some(2061)
    } else if same(name, "korean") {
        Some(2064)
    } else if same(name, "russian") {
        Some(2069)
    } else if same(name, "italian") {
        Some(2070)
    } else if same(name, "portuguese") {
        Some(2071)
    } else {
        None
    }
}

/// What several names say.
pub open spec fn listed(v: Seq<&'static str>) -> Seq<Seq<char>> {
    Seq::new(v.len(), |i: int| v[i]@)
}

/// Ten, and closed: there is no tag for anything else, so text outside this set has no faithful
/// prefill.
pub fn languages() -> (v: Vec<&'static str>)
    ensures
        listed(v@) == language_names(),
{
    let mut v: Vec<&'static str> = Vec::new();
    v.push("english");
    v.push("german");
    v.push("spanish");
    v.push("chinese");
    v.push("japanese");
    v.push("french");
    v.push("korean");
    v.push("russian");
    v.push("italian");
    v.push("portuguese");
    assert(listed(v@) =~= language_names());
    v
}

/// A name has a tag exactly when it is on the list, and every tag lies between the live codes and
/// the control ids.
pub proof fn the_language_list_is_closed(name: Seq<char>)
    ensures
        tag_of(name) is Some <==> language_names().contains(name),
        tag_of(name) matches Some(t) ==> CODES <= t < CODEC_PAD,
{
    let l = language_names();
    if tag_of(name) is Some {
        assert(l[0] == "english"@ && l[1] == "german"@ && l[2] == "spanish"@ && l[3] == "chinese"@
            && l[4] == "japanese"@ && l[5] == "french"@ && l[6] == "korean"@ && l[7] == "russian"@
            && l[8] == "italian"@ && l[9] == "portuguese"@);
    } else {
        assert forall|i: int| 0 <= i < l.len() implies l[i] != name by {
            assert(l.len() == 10);
        }
    }
}

/// Each language has the checkpoint's own tag: a name has a tag exactly where it is one of these ten,
/// and then this one, so that no two languages share a tag.
pub proof fn each_language_has_its_own_tag(name: Seq<char>)
    ensures
        tag_of("english"@) == Some(2050u32),
        tag_of("german"@) == Some(2053u32),
        tag_of("spanish"@) == Some(2054u32),
        tag_of("chinese"@) == Some(2055u32),
        tag_of("japanese"@) == Some(2058u32),
        tag_of("french"@) == Some(2061u32),
        tag_of("korean"@) == Some(2064u32),
        tag_of("russian"@) == Some(2069u32),
        tag_of("italian"@) == Some(2070u32),
        tag_of("portuguese"@) == Some(2071u32),
        tag_of(name) == Some(2050u32) <==> name == "english"@,
        tag_of(name) == Some(2053u32) <==> name == "german"@,
        tag_of(name) == Some(2054u32) <==> name == "spanish"@,
        tag_of(name) == Some(2055u32) <==> name == "chinese"@,
        tag_of(name) == Some(2058u32) <==> name == "japanese"@,
        tag_of(name) == Some(2061u32) <==> name == "french"@,
        tag_of(name) == Some(2064u32) <==> name == "korean"@,
        tag_of(name) == Some(2069u32) <==> name == "russian"@,
        tag_of(name) == Some(2070u32) <==> name == "italian"@,
        tag_of(name) == Some(2071u32) <==> name == "portuguese"@,
        tag_of(name) matches Some(t) ==> t == 2050 || t == 2053 || t == 2054 || t == 2055 || t
            == 2058 || t == 2061 || t == 2064 || t == 2069 || t == 2070 || t == 2071,
{
    reveal_strlit("english");
    reveal_strlit("german");
    reveal_strlit("spanish");
    reveal_strlit("chinese");
    reveal_strlit("japanese");
    reveal_strlit("french");
    reveal_strlit("korean");
    reveal_strlit("russian");
    reveal_strlit("italian");
    reveal_strlit("portuguese");
    assert("english"@[0] == 'e' && "german"@[0] == 'g' && "spanish"@[0] == 's' && "chinese"@[0]
        == 'c' && "japanese"@[0] == 'j' && "french"@[0] == 'f' && "korean"@[0] == 'k'
        && "russian"@[0] == 'r' && "italian"@[0] == 'i' && "portuguese"@[0] == 'p');
}

/// The list of languages shows their names, each in its place.
pub proof fn the_list_shows_its_names(v: Seq<&'static str>, i: int)
    requires
        0 <= i < v.len(),
    ensures
        listed(v).len() == v.len(),
        listed(v)[i] == v[i]@,
{
}

} // verus!
