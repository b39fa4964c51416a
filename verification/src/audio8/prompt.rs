//! Prompt construction.
//!
//! The prompt is a grid, not a flat sequence. Row 0 carries text token ids and, when cloning,
//! the reference clip's semantic codes offset into the semantic id range. The rows below carry
//! that clip's residual codes, aligned under the semantic ones and zero everywhere else.

use crate::assemble::extend_copied;
use crate::audio8::cfg;
use crate::chars;
use crate::chars::to_chars;
use crate::grid;
use crate::number;
use crate::text;
use crate::text::clean_text;
use crate::settings;
use crate::tokens;
use crate::tokens::encode_ids;
use crate::voice;
use crate::voice::{rows_of, GridError};
use candle_core::Tensor;
use tokenizers::Tokenizer;
use vstd::prelude::*;

verus! {

/// A prompt ready for the model: row-major, `len` columns.
pub struct Prompt {
    pub rows: Vec<Vec<u32>>,
    pub len: usize,
}

impl Prompt {
    /// One row of tokens and one for each codebook, all of the same length.
    pub open spec fn wf(&self) -> bool {
        &&& self.rows@.len() == cfg::NUM_CODEBOOKS + 1
        &&& grid::rectangular(grid::rows_view(self.rows@), self.len as nat)
    }
}

/// `pat` stands in `v` at `at`.
pub open spec fn occurs_at(v: Seq<char>, at: int, pat: Seq<char>) -> bool {
    0 <= at && at + pat.len() <= v.len() && v.subrange(at, at + pat.len()) == pat
}

/// A speaker tag with `n` digits starts at `i`: `<|speaker:`, the digits, `|>`.
pub open spec fn tag_at(v: Seq<char>, i: int, n: int) -> bool {
    let from = i + "<|speaker:"@.len();
    &&& n >= 1
    &&& occurs_at(v, i, "<|speaker:"@)
    &&& from + n <= v.len()
    &&& number::digits(v.subrange(from, from + n))
    &&& occurs_at(v, from + n, "|>"@)
}

/// Some speaker tag occurs.
pub open spec fn tagged(v: Seq<char>) -> bool {
    exists|i: int, n: int| #[trigger] tag_at(v, i, n)
}

fn starts_at(v: &[char], at: usize, pat: &[char]) -> (r: bool)
    requires
        at <= v@.len(),
    ensures
        r == occurs_at(v@, at as int, pat@),
{
    if pat.len() > v.len() - at {
        return false;
    }
    let mut k: usize = 0;
    while k < pat.len()
        invariant
            k <= pat@.len(),
            at + pat@.len() <= v@.len(),
            forall|j: int| 0 <= j < k ==> v@[at + j] == #[trigger] pat@[j],
        decreases pat@.len() - k,
    {
        assert(at + k < v.len());
        if v[at + k] != pat[k] {
            assert(v@.subrange(at as int, at + pat@.len())[k as int] != pat@[k as int]);
            return false;
        }
        k += 1;
    }
    assert(v@.subrange(at as int, at + pat@.len()) =~= pat@);
    true
}

/// Does a speaker tag occur anywhere in `s`?
pub fn has_speaker_tag(s: &str) -> (r: bool)
    ensures
        r == tagged(s@),
{
    let v = to_chars(s);
    let open = to_chars("<|speaker:");
    let close = to_chars("|>");
    let mut i: usize = 0;
    while i < v.len()
        invariant
            i <= v@.len(),
            v@ == s@,
            open@ == "<|speaker:"@,
            close@ == "|>"@,
            forall|k: int, n: int| k < i ==> !#[trigger] tag_at(v@, k, n),
        decreases v@.len() - i,
    {
        let mut found = false;
        let ghost from = i + open@.len();
        if starts_at(v.as_slice(), i, open.as_slice()) {
            let start: usize = i + open.len();
            let mut j: usize = start;
            while j < v.len() && '0' <= v[j] && v[j] <= '9'
                invariant
                    start <= j <= v@.len(),
                    number::digits(v@.subrange(start as int, j as int)),
                decreases v@.len() - j,
            {
                assert(v@.subrange(start as int, j + 1) =~= v@.subrange(
                    start as int,
                    j as int,
                ).push(v@[j as int]));
                j += 1;
            }
            if j > start && starts_at(v.as_slice(), j, close.as_slice()) {
                assert(tag_at(v@, i as int, j - start));
                return true;
            }
            assert forall|n: int| !#[trigger] tag_at(v@, i as int, n) by {
                if tag_at(v@, i as int, n) {
                    reveal_strlit("|>");
                    let k = from + n;
                    assert(v@.subrange(k, k + 2)[0] == '|');
                    assert(v@[k] == '|');
                    if k < j {
                        let d = v@.subrange(start as int, j as int);
                        assert(d[k - start] == '|');
                        assert(number::digit(d[k - start]));
                    } else if k > j {
                        let d = v@.subrange(from as int, from + n);
                        assert(d[j - from] == v@[j as int]);
                        assert(number::digit(d[j - from]));
                    }
                }
            }
        }
        i += 1;
    }
    assert forall|k: int, n: int| !#[trigger] tag_at(v@, k, n) by {
        if tag_at(v@, k, n) {
            reveal_strlit("<|speaker:");
        }
    }
    false
}

/// A reference transcript as the prompt carries it: cleaned, with a speaker tag in front unless
/// it has one somewhere.
pub open spec fn reference_text(t: Seq<char>) -> Seq<char> {
    let c = text::joined(text::words(t));
    if tagged(c) {
        c
    } else {
        "<|speaker:0|>"@ + c
    }
}

/// The transcript with its speaker tag.
pub fn format_reference_text(t: &str) -> (r: String)
    ensures
        r@ == reference_text(t@),
{
    let cleaned = clean_text(t);
    if has_speaker_tag(cleaned.as_str()) {
        cleaned
    } else {
        "<|speaker:0|>".to_owned().concat(cleaned.as_str())
    }
}

/// Why a prompt cannot be built.
#[derive(Debug)]
pub enum PromptError {
    /// The text must not be empty.
    EmptyText,
    /// A reference voice needs its transcript.
    NoReferenceText,
    /// The prompt does not fit.
    TooLong { total: usize },
    /// The rows of the reference codes differ in length.
    Ragged { row: usize },
    /// The reference codes do not have one row for each codebook.
    Codebooks { found: usize },
    /// The tokenizer refused.
    Tokenizer(String),
    /// The reference codes could not be read.
    Codes(GridError),
}

/// The turns of a prompt without a reference, each tokenized on its own: a merge across a
/// boundary would change the ids.
pub open spec fn plain_turns(target: Seq<char>) -> Seq<Seq<char>> {
    seq![
        "<|im_start|>system\n"@,
        "convert the provided text to speech"@,
        "<|im_end|>\n"@,
        "<|im_start|>user\n"@,
        target,
        "<|im_end|>\n"@,
        "<|im_start|>assistant\n<|voice|>"@,
    ]
}

/// The turns in front of the reference codes.
pub open spec fn reference_turns(formatted: Seq<char>) -> Seq<Seq<char>> {
    seq![
        "<|im_start|>system\n"@,
        "convert the provided text to speech reference to the following:\n\nText:\n"@,
        formatted,
        "\n\nSpeech:\n"@,
    ]
}

/// The turns behind them.
pub open spec fn answer_turns(target: Seq<char>) -> Seq<Seq<char>> {
    seq![
        "<|im_end|>\n"@,
        "<|im_start|>user\n"@,
        target,
        "<|im_end|>\n"@,
        "<|im_start|>assistant\n<|voice|>"@,
    ]
}

/// A text as it is spoken: white space collapsed.
pub open spec fn cleaned(t: Seq<char>) -> Seq<char> {
    text::joined(text::words(t))
}

/// The pieces of text in front of and behind the reference codes.
pub struct Turns {
    pub prefix: Vec<String>,
    pub suffix: Vec<String>,
}

/// The turns of a prompt without a reference: everything in front, nothing behind.
pub fn turns_plain(t: &str) -> (r: Result<Turns, PromptError>)
    ensures
        match r {
            Ok(p) => cleaned(t@).len() > 0 && chars::texts(p.prefix@) == plain_turns(cleaned(t@))
                && p.suffix@.len() == 0,
            Err(PromptError::EmptyText) => cleaned(t@).len() == 0,
            Err(_) => false,
        },
{
    let target = clean_text(t);
    if target.as_str().is_empty() {
        return Err(PromptError::EmptyText);
    }
    let ghost spoken = target@;
    let mut prefix: Vec<String> = Vec::new();
    prefix.push("<|im_start|>system\n".to_owned());
    prefix.push("convert the provided text to speech".to_owned());
    prefix.push("<|im_end|>\n".to_owned());
    prefix.push("<|im_start|>user\n".to_owned());
    prefix.push(target);
    prefix.push("<|im_end|>\n".to_owned());
    prefix.push("<|im_start|>assistant\n<|voice|>".to_owned());
    assert(chars::texts(prefix@) =~= plain_turns(spoken));
    Ok(Turns { prefix, suffix: Vec::new() })
}

/// The turns of a cloning prompt: the transcript goes in the system turn, and the clip's codes
/// between the two lists.
pub fn turns_reference(t: &str, reference: &str) -> (r: Result<Turns, PromptError>)
    ensures
        match r {
            Ok(p) => cleaned(t@).len() > 0 && cleaned(reference@).len() > 0 && chars::texts(
                p.prefix@,
            ) == reference_turns(reference_text(reference@)) && chars::texts(p.suffix@)
                == answer_turns(cleaned(t@)),
            Err(PromptError::EmptyText) => cleaned(t@).len() == 0,
            Err(PromptError::NoReferenceText) => cleaned(t@).len() > 0 && cleaned(
                reference@,
            ).len() == 0,
            Err(_) => false,
        },
{
    let target = clean_text(t);
    if target.as_str().is_empty() {
        return Err(PromptError::EmptyText);
    }
    if clean_text(reference).as_str().is_empty() {
        return Err(PromptError::NoReferenceText);
    }
    let formatted = format_reference_text(reference);
    let ghost spoken = target@;
    let ghost said = formatted@;
    let mut prefix: Vec<String> = Vec::new();
    prefix.push("<|im_start|>system\n".to_owned());
    prefix.push(
        "convert the provided text to speech reference to the following:\n\nText:\n".to_owned(),
    );
    prefix.push(formatted);
    prefix.push("\n\nSpeech:\n".to_owned());
    assert(chars::texts(prefix@) =~= reference_turns(said));
    let mut suffix: Vec<String> = Vec::new();
    suffix.push("<|im_end|>\n".to_owned());
    suffix.push("<|im_start|>user\n".to_owned());
    suffix.push(target);
    suffix.push("<|im_end|>\n".to_owned());
    suffix.push("<|im_start|>assistant\n<|voice|>".to_owned());
    assert(chars::texts(suffix@) =~= answer_turns(spoken));
    Ok(Turns { prefix, suffix })
}

/// `n` zeros.
pub open spec fn zeros(n: nat) -> Seq<u32> {
    Seq::new(n, |k: int| 0u32)
}

/// Codes as semantic ids.
pub open spec fn as_semantic(row: Seq<u32>) -> Seq<u32> {
    Seq::new(row.len(), |k: int| (row[k] + cfg::SEMANTIC_BEGIN_ID) as u32)
}

/// Columns that the reference codes take.
pub open spec fn reference_len(codes: Option<Seq<Seq<u32>>>) -> nat {
    match codes {
        Some(c) => c[0].len(),
        None => 0,
    }
}

/// Row `r` of the prompt grid.
pub open spec fn grid_row(
    prefix: Seq<u32>,
    codes: Option<Seq<Seq<u32>>>,
    suffix: Seq<u32>,
    r: int,
) -> Seq<u32> {
    let n = reference_len(codes);
    if r == 0 {
        prefix + (match codes {
            Some(c) => as_semantic(c[0]),
            None => Seq::empty(),
        }) + suffix
    } else {
        zeros(prefix.len()) + (match codes {
            Some(c) => if r <= c.len() {
                c[r - 1]
            } else {
                zeros(n)
            },
            None => Seq::empty(),
        }) + zeros(suffix.len())
    }
}

/// The prompt grid.
pub open spec fn prompt_grid(
    prefix: Seq<u32>,
    codes: Option<Seq<Seq<u32>>>,
    suffix: Seq<u32>,
) -> Seq<Seq<u32>> {
    Seq::new(
        (cfg::NUM_CODEBOOKS + 1) as nat,
        |r: int| grid_row(prefix, codes, suffix, r),
    )
}

/// What optional codes hold.
pub open spec fn codes_view(codes: Option<&Vec<Vec<u32>>>) -> Option<Seq<Seq<u32>>> {
    match codes {
        Some(c) => Some(grid::rows_view(c@)),
        None => None,
    }
}

/// Codes that a prompt can take: a row at least and no more than there are codebooks, and a
/// first row that stays a token id once it is moved.
pub open spec fn codes_ok(codes: Option<Seq<Seq<u32>>>) -> bool {
    codes matches Some(c) ==> 1 <= c.len() <= cfg::NUM_CODEBOOKS && forall|k: int|
        0 <= k < c[0].len() ==> (#[trigger] c[0][k]) + cfg::SEMANTIC_BEGIN_ID <= u32::MAX
}

/// The rows before `n` are all as long as the first.
pub open spec fn even_before(codes: Option<Seq<Seq<u32>>>, n: int) -> bool {
    codes matches Some(c) ==> forall|i: int|
        0 <= i < n && i < c.len() ==> (#[trigger] c[i]).len() == c[0].len()
}

fn push_zeros(out: &mut Vec<u32>, n: usize)
    ensures
        final(out)@ == old(out)@ + zeros(n as nat),
{
    let mut i: usize = 0;
    assert(out@ + zeros(0) =~= out@);
    while i < n
        invariant
            i <= n,
            out@ == old(out)@ + zeros(i as nat),
        decreases n - i,
    {
        out.push(0);
        i += 1;
        assert(out@ =~= old(out)@ + zeros(i as nat));
    }
}

/// What laying out a prompt comes to: the grid, or the first thing that is wrong with it.
pub open spec fn assembled(
    r: Result<Prompt, PromptError>,
    prefix: Seq<u32>,
    c: Option<Seq<Seq<u32>>>,
    suffix: Seq<u32>,
) -> bool {
    let n = prefix.len() + reference_len(c) + suffix.len();
    match r {
        Ok(p) => n < cfg::MAX_SEQ_LEN && even_before(c, cfg::NUM_CODEBOOKS as int) && p.len == n
            && grid::rows_view(p.rows@) == prompt_grid(prefix, c, suffix) && p.wf(),
        Err(PromptError::TooLong { total }) => n >= cfg::MAX_SEQ_LEN && (n <= usize::MAX ==> total
            == n),
        Err(PromptError::Ragged { row }) => n < cfg::MAX_SEQ_LEN && c is Some && row < c->0.len()
            && c->0[row as int].len() != c->0[0].len() && even_before(c, row as int),
        Err(_) => false,
    }
}

/// Lays the grid out: tokens and semantic codes in row 0, the codes of all codebooks below them.
pub fn assemble(
    prefix: &Vec<u32>,
    codes: Option<&Vec<Vec<u32>>>,
    suffix: &Vec<u32>,
) -> (r: Result<Prompt, PromptError>)
    requires
        codes_ok(codes_view(codes)),
    ensures
        assembled(r, prefix@, codes_view(codes), suffix@),
{
    let ghost c = codes_view(codes);
    let span: usize = match codes {
        Some(rows) => {
            assert(c->0[0] == rows@[0]@);
            rows[0].len()
        },
        None => 0,
    };
    let total: usize = prefix.len().saturating_add(span).saturating_add(suffix.len());
    if total >= cfg::MAX_SEQ_LEN {
        return Err(PromptError::TooLong { total });
    }
    if let Some(rows) = codes {
        let mut i: usize = 0;
        while i < rows.len()
            invariant
                i <= rows@.len(),
                c == Some(grid::rows_view(rows@)),
                c == codes_view(codes),
                span == c->0[0].len(),
                even_before(c, i as int),
                total < cfg::MAX_SEQ_LEN,
                total == prefix@.len() + reference_len(c) + suffix@.len(),
            decreases rows@.len() - i,
        {
            assert(c->0[i as int] == rows@[i as int]@);
            if rows[i].len() != span {
                return Err(PromptError::Ragged { row: i });
            }
            i += 1;
        }
    }
    let ghost want = prompt_grid(prefix@, c, suffix@);
    let mut rows: Vec<Vec<u32>> = Vec::new();
    let mut row0: Vec<u32> = Vec::new();
    extend_copied(&mut row0, prefix.as_slice());
    assert(row0@ =~= prefix@);
    if let Some(codes) = codes {
        let mut k: usize = 0;
        assert(c->0[0] == codes@[0]@);
        assert(row0@ =~= prefix@ + as_semantic(c->0[0]).take(0));
        while k < codes[0].len()
            invariant
                codes@.len() >= 1,
                k <= codes@[0]@.len(),
                c == Some(grid::rows_view(codes@)),
                c->0[0] == codes@[0]@,
                codes_ok(c),
                row0@ == prefix@ + as_semantic(c->0[0]).take(k as int),
            decreases codes@[0]@.len() - k,
        {
            assert(c->0[0][k as int] + cfg::SEMANTIC_BEGIN_ID <= u32::MAX);
            row0.push(codes[0][k] + cfg::SEMANTIC_BEGIN_ID);
            k += 1;
            assert(prefix@ + as_semantic(c->0[0]).take(k as int) =~= (prefix@ + as_semantic(
                c->0[0],
            ).take(k - 1)).push(as_semantic(c->0[0])[k - 1]));
        }
        assert(as_semantic(c->0[0]).take(k as int) =~= as_semantic(c->0[0]));
    } else {
        assert(row0@ =~= prefix@ + Seq::<u32>::empty());
    }
    extend_copied(&mut row0, suffix.as_slice());
    assert(row0@ == grid_row(prefix@, c, suffix@, 0));
    rows.push(row0);
    assert(grid::rows_view(rows@) =~= want.take(1));
    let mut r: usize = 1;
    while r <= cfg::NUM_CODEBOOKS
        invariant
            1 <= r <= cfg::NUM_CODEBOOKS + 1,
            c == codes_view(codes),
            codes_ok(c),
            even_before(c, cfg::NUM_CODEBOOKS as int),
            span == reference_len(c),
            want == prompt_grid(prefix@, c, suffix@),
            grid::rows_view(rows@) == want.take(r as int),
        decreases cfg::NUM_CODEBOOKS + 1 - r,
    {
        let mut row: Vec<u32> = Vec::new();
        push_zeros(&mut row, prefix.len());
        assert(row@ =~= zeros(prefix@.len()));
        match codes {
            Some(all) => {
                if r <= all.len() {
                    assert(c->0[r - 1] == all@[r - 1]@);
                    extend_copied(&mut row, all[r - 1].as_slice());
                } else {
                    push_zeros(&mut row, span);
                }
            },
            None => {
                assert(row@ =~= zeros(prefix@.len()) + Seq::<u32>::empty());
            },
        }
        push_zeros(&mut row, suffix.len());
        let ghost done = grid::rows_view(rows@);
        let ghost added = row@;
        assert(added == grid_row(prefix@, c, suffix@, r as int));
        rows.push(row);
        assert(grid::rows_view(rows@) =~= done.push(added));
        assert(want.take(r + 1) =~= want.take(r as int).push(want[r as int]));
        r += 1;
    }
    assert(want.take(r as int) =~= want);
    assert forall|i: int| 0 <= i < want.len() implies (#[trigger] want[i]).len() == total by {
        if c is Some && 1 <= i && i <= c->0.len() {
            assert(c->0[i - 1].len() == c->0[0].len());
        }
    }
    Ok(Prompt { rows, len: total })
}

pub struct PromptBuilder {
    pub tokenizer: Tokenizer,
    /// Whether texts can be handed to it.
    pub ready: bool,
}

/// Reference codes out of a tensor, which has to have one row for each codebook.
pub fn reference_codes(t: &Tensor) -> (r: Result<Vec<Vec<u32>>, PromptError>)
    ensures
        match r {
            Ok(rows) => rows@.len() == cfg::NUM_CODEBOOKS && voice::gives_rows(*t)
                && voice::reads_rows(*t, grid::rows_view(rows@)),
            Err(PromptError::Codebooks { found }) => voice::gives_rows(*t) && found == voice::shape(
                *t,
            )[0] && found != cfg::NUM_CODEBOOKS,
            Err(PromptError::Codes(e)) => voice::grid_error(*t, e),
            Err(_) => false,
        },
{
    match rows_of(t) {
        Ok(rows) => {
            if rows.len() != cfg::NUM_CODEBOOKS {
                return Err(PromptError::Codebooks { found: rows.len() });
            }
            Ok(rows)
        },
        Err(e) => Err(PromptError::Codes(e)),
    }
}

/// The codes of an optional reference.
pub open spec fn reference_view(reference: Option<(&Vec<Vec<u32>>, &str)>) -> Option<
    Seq<Seq<u32>>,
> {
    match reference {
        Some((codes, _)) => Some(grid::rows_view(codes@)),
        None => None,
    }
}

/// What is said in an optional reference.
pub open spec fn said_view(reference: Option<(&Vec<Vec<u32>>, &str)>) -> Option<Seq<char>> {
    match reference {
        Some((_, said)) => Some(said@),
        None => None,
    }
}

/// There is something to say, and something was said in the reference if there is one.
pub open spec fn speakable(t: Seq<char>, said: Option<Seq<char>>) -> bool {
    cleaned(t).len() > 0 && (said matches Some(s) ==> cleaned(s).len() > 0)
}

/// The turns in front of the reference's codes, all of them where there is no reference.
pub open spec fn front_turns(t: Seq<char>, said: Option<Seq<char>>) -> Seq<Seq<char>> {
    match said {
        None => plain_turns(cleaned(t)),
        Some(s) => reference_turns(reference_text(s)),
    }
}

/// The turns behind the reference's codes.
pub open spec fn back_turns(t: Seq<char>, said: Option<Seq<char>>) -> Seq<Seq<char>> {
    match said {
        None => Seq::empty(),
        Some(_) => answer_turns(cleaned(t)),
    }
}

/// The ids of one text with a fixed tokenizer; an empty one has none.
pub open spec fn ids_of(t: Tokenizer, text: Seq<char>) -> Seq<u32> {
    if text.len() == 0 {
        Seq::empty()
    } else {
        tokens::encoding(t, text, false)->0
    }
}

/// A fixed tokenizer can be handed the text, and takes it.
pub open spec fn takes(t: Tokenizer, text: Seq<char>) -> bool {
    text.len() == 0 || settings::harmless(t, false) && tokens::encoding(t, text, false) is Some
}

/// A fixed tokenizer takes every one of the texts.
pub open spec fn takes_each(t: Tokenizer, parts: Seq<Seq<char>>) -> bool {
    forall|i: int| 0 <= i < parts.len() ==> takes(t, #[trigger] parts[i])
}

/// The ids of several texts with a fixed tokenizer, each tokenized on its own.
pub open spec fn ids_of_each(t: Tokenizer, parts: Seq<Seq<char>>) -> Seq<Seq<u32>> {
    Seq::new(parts.len(), |i: int| ids_of(t, parts[i]))
}

/// The ids of several texts with a fixed tokenizer, joined.
pub open spec fn joined_ids(t: Tokenizer, parts: Seq<Seq<char>>) -> Seq<u32> {
    grid::flat_rows(ids_of_each(t, parts))
}

/// `ids` are what a tokenizer may give for a text; an empty one has none.
pub open spec fn may_give(t: Tokenizer, text: Seq<char>, ids: Seq<u32>) -> bool {
    if text.len() == 0 {
        ids.len() == 0
    } else {
        settings::harmless(t, false) && tokens::may_encode(t, text, false, Some(ids))
    }
}

/// A tokenizer cannot be handed a text that has to be, or may refuse it.
pub open spec fn may_refuse(t: Tokenizer, text: Seq<char>) -> bool {
    text.len() > 0 && (!settings::harmless(t, false) || tokens::may_encode(t, text, false, None))
}

/// `ids` are what a tokenizer may give for each of several texts.
pub open spec fn may_give_each(t: Tokenizer, parts: Seq<Seq<char>>, ids: Seq<Seq<u32>>) -> bool {
    &&& ids.len() == parts.len()
    &&& forall|i: int| 0 <= i < parts.len() ==> may_give(t, #[trigger] parts[i], ids[i])
}

/// One of several texts may be refused.
pub open spec fn may_refuse_one(t: Tokenizer, parts: Seq<Seq<char>>) -> bool {
    exists|i: int| 0 <= i < parts.len() && may_refuse(t, #[trigger] parts[i])
}

/// `all` joins what a tokenizer may give for each of several texts.
pub open spec fn may_join(t: Tokenizer, parts: Seq<Seq<char>>, all: Seq<u32>) -> bool {
    exists|ids: Seq<Seq<u32>>|
        may_give_each(t, parts, ids) && all == #[trigger] grid::flat_rows(ids)
}

impl PromptBuilder {
    /// The builder knows whether texts can be handed to its tokenizer.
    pub open spec fn wf(&self) -> bool {
        self.ready == settings::harmless(self.tokenizer, false)
    }

    /// A builder of prompts out of a tokenizer's ids. What the tokenizer is set to is looked into
    /// once, here.
    pub fn new(tokenizer: Tokenizer) -> (b: Self)
        ensures
            b.tokenizer == tokenizer,
            b.wf(),
    {
        let ready = settings::encodable(&tokenizer, false);
        PromptBuilder { tokenizer, ready }
    }

    /// The ids of one text; an empty one has none.
    fn encode(&self, t: &str) -> (r: Result<Vec<u32>, PromptError>)
        requires
            self.wf(),
        ensures
            match r {
                Ok(v) => may_give(self.tokenizer, t@, v@),
                Err(e) => e is Tokenizer && may_refuse(self.tokenizer, t@),
            },
            settings::fixed(self.tokenizer) ==> match r {
                Ok(v) => takes(self.tokenizer, t@) && v@ == ids_of(self.tokenizer, t@),
                Err(_) => !takes(self.tokenizer, t@),
            },
    {
        if t.is_empty() {
            return Ok(Vec::new());
        }
        if !self.ready {
            return Err(PromptError::Tokenizer(tokens::NOT_ENCODABLE.to_owned()));
        }
        match encode_ids(&self.tokenizer, t, false) {
            Ok(v) => Ok(v),
            Err(e) => Err(PromptError::Tokenizer(e)),
        }
    }

    /// The ids of several texts, each tokenized on its own.
    pub fn encode_each(&self, parts: &Vec<String>) -> (r: Result<Vec<Vec<u32>>, PromptError>)
        requires
            self.wf(),
        ensures
            match r {
                Ok(v) => may_give_each(
                    self.tokenizer,
                    chars::texts(parts@),
                    grid::rows_view(v@),
                ),
                Err(e) => e is Tokenizer && may_refuse_one(self.tokenizer, chars::texts(parts@)),
            },
            settings::fixed(self.tokenizer) ==> match r {
                Ok(v) => takes_each(self.tokenizer, chars::texts(parts@)) && grid::rows_view(v@)
                    == ids_of_each(self.tokenizer, chars::texts(parts@)),
                Err(_) => !takes_each(self.tokenizer, chars::texts(parts@)),
            },
    {
        let ghost all = chars::texts(parts@);
        let mut out: Vec<Vec<u32>> = Vec::new();
        let mut i: usize = 0;
        while i < parts.len()
            invariant
                i <= parts@.len(),
                all == chars::texts(parts@),
                self.wf(),
                out@.len() == i,
                forall|j: int|
                    0 <= j < i ==> may_give(self.tokenizer, #[trigger] all[j], out@[j]@),
                settings::fixed(self.tokenizer) ==> forall|j: int|
                    0 <= j < i ==> takes(self.tokenizer, #[trigger] all[j]) && out@[j]@ == ids_of(
                        self.tokenizer,
                        all[j],
                    ),
            decreases parts@.len() - i,
        {
            match self.encode(parts[i].as_str()) {
                Ok(ids) => {
                    out.push(ids);
                },
                Err(e) => {
                    assert(may_refuse(self.tokenizer, all[i as int]));
                    assert(settings::fixed(self.tokenizer) ==> !takes(
                        self.tokenizer,
                        all[i as int],
                    ));
                    return Err(e);
                },
            }
            i += 1;
        }
        assert(grid::rows_view(out@).len() == all.len());
        assert(settings::fixed(self.tokenizer) ==> grid::rows_view(out@) =~= ids_of_each(
            self.tokenizer,
            all,
        ));
        Ok(out)
    }

    /// The ids of several texts, each tokenized on its own, joined.
    pub fn encode_parts(&self, parts: &Vec<String>) -> (r: Result<Vec<u32>, PromptError>)
        requires
            self.wf(),
        ensures
            match r {
                Ok(v) => may_join(self.tokenizer, chars::texts(parts@), v@),
                Err(e) => e is Tokenizer && may_refuse_one(self.tokenizer, chars::texts(parts@)),
            },
            settings::fixed(self.tokenizer) ==> match r {
                Ok(v) => takes_each(self.tokenizer, chars::texts(parts@)) && v@ == joined_ids(
                    self.tokenizer,
                    chars::texts(parts@),
                ),
                Err(_) => !takes_each(self.tokenizer, chars::texts(parts@)),
            },
    {
        match self.encode_each(parts) {
            Ok(v) => {
                let out = grid::join_rows(&v);
                assert(may_give_each(
                    self.tokenizer,
                    chars::texts(parts@),
                    grid::rows_view(v@),
                ));
                Ok(out)
            },
            Err(e) => Err(e),
        }
    }

    /// The tokens of a prompt without a reference, all of them in front: those of
    /// [`turns_plain`].
    pub fn segments_plain(&self, t: &str) -> (r: Result<(Vec<u32>, Vec<u32>), PromptError>)
        requires
            self.wf(),
        ensures
            r matches Err(PromptError::EmptyText) <==> cleaned(t@).len() == 0,
            match r {
                Ok((prefix, suffix)) => may_join(
                    self.tokenizer,
                    plain_turns(cleaned(t@)),
                    prefix@,
                ) && suffix@.len() == 0,
                Err(e) => e is EmptyText || e is Tokenizer && may_refuse_one(
                    self.tokenizer,
                    plain_turns(cleaned(t@)),
                ),
            },
            settings::fixed(self.tokenizer) ==> match r {
                Ok((prefix, _)) => takes_each(self.tokenizer, plain_turns(cleaned(t@))) && prefix@
                    == joined_ids(self.tokenizer, plain_turns(cleaned(t@))),
                Err(e) => e is Tokenizer ==> !takes_each(self.tokenizer, plain_turns(cleaned(t@))),
            },
    {
        let turns = match turns_plain(t) {
            Ok(p) => p,
            Err(e) => {
                return Err(e);
            },
        };
        match self.encode_parts(&turns.prefix) {
            Ok(prefix) => Ok((prefix, Vec::new())),
            Err(e) => Err(e),
        }
    }

    /// The tokens of a cloning prompt in front of and behind the clip's codes: those of
    /// [`turns_reference`].
    pub fn segments_reference(&self, t: &str, said: &str) -> (r: Result<
        (Vec<u32>, Vec<u32>),
        PromptError,
    >)
        requires
            self.wf(),
        ensures
            r matches Err(PromptError::EmptyText) <==> cleaned(t@).len() == 0,
            r matches Err(PromptError::NoReferenceText) <==> cleaned(t@).len() > 0 && cleaned(
                said@,
            ).len() == 0,
            match r {
                Ok((prefix, suffix)) => may_join(
                    self.tokenizer,
                    reference_turns(reference_text(said@)),
                    prefix@,
                ) && may_join(self.tokenizer, answer_turns(cleaned(t@)), suffix@),
                Err(e) => e is EmptyText || e is NoReferenceText || e is Tokenizer && (
                may_refuse_one(self.tokenizer, reference_turns(reference_text(said@)))
                    || may_refuse_one(self.tokenizer, answer_turns(cleaned(t@)))),
            },
            settings::fixed(self.tokenizer) ==> match r {
                Ok((prefix, suffix)) => takes_each(
                    self.tokenizer,
                    reference_turns(reference_text(said@)),
                ) && takes_each(self.tokenizer, answer_turns(cleaned(t@))) && prefix@
                    == joined_ids(self.tokenizer, reference_turns(reference_text(said@)))
                    && suffix@ == joined_ids(self.tokenizer, answer_turns(cleaned(t@))),
                Err(e) => e is Tokenizer ==> !takes_each(
                    self.tokenizer,
                    reference_turns(reference_text(said@)),
                ) || !takes_each(self.tokenizer, answer_turns(cleaned(t@))),
            },
    {
        let turns = match turns_reference(t, said) {
            Ok(p) => p,
            Err(e) => {
                return Err(e);
            },
        };
        match self.encode_parts(&turns.prefix) {
            Ok(prefix) => match self.encode_parts(&turns.suffix) {
                Ok(suffix) => Ok((prefix, suffix)),
                Err(e) => Err(e),
            },
            Err(e) => Err(e),
        }
    }

    /// The prompt for a text, spoken in the voice of the reference if there is one: the tokens of
    /// [`PromptBuilder::segments_plain`] or [`PromptBuilder::segments_reference`], laid out by
    /// [`assemble`].
    pub fn build(&self, t: &str, reference: Option<(&Vec<Vec<u32>>, &str)>) -> (r: Result<
        Prompt,
        PromptError,
    >)
        requires
            self.wf(),
            codes_ok(reference_view(reference)),
        ensures
            r matches Err(PromptError::EmptyText) <==> cleaned(t@).len() == 0,
            r matches Err(PromptError::NoReferenceText) <==> cleaned(t@).len() > 0 && (
            reference matches Some((_, said)) && cleaned(said@).len() == 0),
            speakable(t@, said_view(reference)) ==> if r matches Err(PromptError::Tokenizer(_)) {
                may_refuse_one(self.tokenizer, front_turns(t@, said_view(reference)))
                    || may_refuse_one(self.tokenizer, back_turns(t@, said_view(reference)))
            } else {
                exists|prefix: Seq<u32>, suffix: Seq<u32>|
                    #[trigger] assembled(r, prefix, reference_view(reference), suffix) && may_join(
                        self.tokenizer,
                        front_turns(t@, said_view(reference)),
                        prefix,
                    ) && may_join(
                        self.tokenizer,
                        back_turns(t@, said_view(reference)),
                        suffix,
                    )
            },
            settings::fixed(self.tokenizer) && speakable(t@, said_view(reference)) ==> if takes_each(
                self.tokenizer,
                front_turns(t@, said_view(reference)),
            ) && takes_each(self.tokenizer, back_turns(t@, said_view(reference))) {
                assembled(
                    r,
                    joined_ids(self.tokenizer, front_turns(t@, said_view(reference))),
                    reference_view(reference),
                    joined_ids(self.tokenizer, back_turns(t@, said_view(reference))),
                )
            } else {
                r matches Err(PromptError::Tokenizer(_))
            },
    {
        match reference {
            None => match self.segments_plain(t) {
                Ok((prefix, suffix)) => {
                    proof {
                        let none = Seq::<Seq<u32>>::empty();
                        assert(may_give_each(self.tokenizer, back_turns(t@, None), none));
                        assert(suffix@ =~= grid::flat_rows(none));
                    }
                    assert(suffix@ =~= joined_ids(self.tokenizer, back_turns(t@, None)));
                    assemble(&prefix, None, &suffix)
                },
                Err(e) => Err(e),
            },
            Some((codes, said)) => match self.segments_reference(t, said) {
                Ok((prefix, suffix)) => assemble(&prefix, Some(codes), &suffix),
                Err(e) => Err(e),
            },
        }
    }
}

/// Where the columns of a cloning prompt lie: the clip's codes stand under their own semantic
/// ids, and every other column of the codebook rows is zero.
pub proof fn codes_stand_under_their_ids(
    prefix: Seq<u32>,
    codes: Seq<Seq<u32>>,
    suffix: Seq<u32>,
    r: int,
    k: int,
)
    requires
        codes_ok(Some(codes)),
        codes.len() == cfg::NUM_CODEBOOKS,
        even_before(Some(codes), cfg::NUM_CODEBOOKS as int),
        1 <= r <= cfg::NUM_CODEBOOKS,
        0 <= k < prefix.len() + codes[0].len() + suffix.len(),
    ensures
        ({
            let g = prompt_grid(prefix, Some(codes), suffix);
            let at = k - prefix.len();
            if 0 <= at < codes[0].len() {
                g[r][k] == codes[r - 1][at] && g[0][k] == codes[0][at] + cfg::SEMANTIC_BEGIN_ID
            } else {
                g[r][k] == 0
            }
        }),
{
    assert(codes[r - 1].len() == codes[0].len());
    let at = k - prefix.len();
    if 0 <= at < codes[0].len() {
        assert(codes[0][at] + cfg::SEMANTIC_BEGIN_ID <= u32::MAX);
    }
}

} // verus!
