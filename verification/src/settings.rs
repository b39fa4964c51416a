//! What a tokenizer is set to, and whether a text can be handed to it.

use crate::audit::{contains_text, mentions};
use crate::chars;
use crate::text::same;
use tokenizers::models::ModelWrapper;
use tokenizers::normalizers::replace::{Replace, ReplacePattern};
use tokenizers::normalizers::NormalizerWrapper;
use tokenizers::pre_tokenizers::PreTokenizerWrapper;
use tokenizers::processors::template::{Piece, Sequence, TemplateProcessing};
use tokenizers::processors::PostProcessorWrapper;
use tokenizers::{PaddingStrategy, Tokenizer};
use vstd::multiset::Multiset;
use vstd::prelude::*;

verus! {

/// The `Tokenizer` of the `tokenizers` crate, opaque here.
#[verifier::external_type_specification]
#[verifier::external_body]
pub struct ExTokenizer(tokenizers::Tokenizer);

/// The `NormalizerWrapper` of the `tokenizers` crate, opaque here.
#[verifier::external_type_specification]
#[verifier::external_body]
pub struct ExNormalizer(tokenizers::normalizers::NormalizerWrapper);

/// The `Replace` of the `tokenizers` crate, opaque here.
#[verifier::external_type_specification]
#[verifier::external_body]
pub struct ExReplace(tokenizers::normalizers::replace::Replace);

/// The `PreTokenizerWrapper` of the `tokenizers` crate, opaque here.
#[verifier::external_type_specification]
#[verifier::external_body]
pub struct ExPreTokenizer(tokenizers::pre_tokenizers::PreTokenizerWrapper);

/// The `PostProcessorWrapper` of the `tokenizers` crate, opaque here.
#[verifier::external_type_specification]
#[verifier::external_body]
pub struct ExPostProcessor(tokenizers::processors::PostProcessorWrapper);

/// The `TemplateProcessing` of the `tokenizers` crate, opaque here.
#[verifier::external_type_specification]
#[verifier::external_body]
pub struct ExTemplate(tokenizers::processors::template::TemplateProcessing);

/// A setting of a tokenizer: one of its own kind, or a sequence of further settings.
pub enum Parts<'a, W, L> {
    One(L),
    Many(&'a [W]),
}

/// What a tokenizer splits words by.
#[derive(Clone, Copy, PartialEq, Eq, Structural, Debug)]
pub enum Splitting {
    /// Merges of pairs, each of which may be dropped at random.
    Pairs { dropped: bool },
    Pieces,
    Words,
    Unigrams,
}

/// What a tokenizer's model splits words by.
pub uninterp spec fn model(t: Tokenizer) -> Splitting;

/// The tokenizer's model draws nothing at random, so that one text always has the same encoding.
/// Only the pair model can: it is fixed where no merge may be dropped. A unigram model takes the
/// best split there is.
pub open spec fn fixed(t: Tokenizer) -> bool {
    match model(t) {
        Splitting::Pairs { dropped } => !dropped,
        _ => true,
    }
}

/// `Tokenizer::get_model`: which model a tokenizer holds, and whether a pair model drops merges.
#[verifier::external_body]
fn splitting(tokenizer: &Tokenizer) -> (m: Splitting)
    ensures
        m == model(*tokenizer),
{
    match tokenizer.get_model() {
        ModelWrapper::BPE(b) => Splitting::Pairs { dropped: b.dropout.is_some() },
        ModelWrapper::WordPiece(_) => Splitting::Pieces,
        ModelWrapper::WordLevel(_) => Splitting::Words,
        ModelWrapper::Unigram(_) => Splitting::Unigrams,
    }
}

/// Does a tokenizer give a text the same tokens every time?
pub fn repeatable(tokenizer: &Tokenizer) -> (r: bool)
    ensures
        r == fixed(*tokenizer),
{
    match splitting(tokenizer) {
        Splitting::Pairs { dropped } => !dropped,
        _ => true,
    }
}

/// Which spaces each added token takes along: those in front of it, and those behind it.
pub uninterp spec fn strips(t: Tokenizer) -> Multiset<(bool, bool)>;

/// `AddedVocabulary::get_added_tokens_decoder`: whether each added token strips the text to its
/// left, and the text to its right. The order of the tokens is open.
#[verifier::external_body]
fn strips_of(tokenizer: &Tokenizer) -> (v: Vec<(bool, bool)>)
    ensures
        v@.to_multiset() == strips(*tokenizer),
{
    let all = tokenizer.get_added_vocabulary().get_added_tokens_decoder();
    all.values().map(|t| (t.lstrip, t.rstrip)).collect()
}

/// How a matcher of added tokens writes down that the empty text is among its patterns.
pub const EMPTY_PATTERN: &'static str = "shortest pattern length: 0";

/// The added tokens of a tokenizer, written down, say of the texts that they are found by that the
/// shortest is empty.
pub uninterp spec fn has_empty_pattern(t: Tokenizer) -> bool;

/// `AddedVocabulary`, written for debugging. The order in which it lists its tokens is open, but
/// not whether these words stand in it. Each of its two matchers writes the length of its shortest
/// pattern behind them, where no number but zero begins with that digit; other than there they can
/// only stand inside the text of a token.
#[verifier::external_body]
fn written_vocabulary(tokenizer: &Tokenizer) -> (s: String)
    ensures
        mentions(s@, EMPTY_PATTERN@) == has_empty_pattern(*tokenizer),
{
    format!("{:?}", tokenizer.get_added_vocabulary())
}

/// Added tokens can be cut out of any text. None is found by the empty text, which a normalizer
/// may have left of one and which is found inside a character. And where one takes along the spaces
/// behind it, another that is all spaces is not to reach back for them without taking along those
/// behind itself: it would end before it begins.
pub open spec fn added_harmless(t: Tokenizer) -> bool {
    &&& !has_empty_pattern(t)
    &&& strips(t).count((true, false)) == 0 || strips(t).count((false, true)) == 0 && strips(
        t,
    ).count((true, true)) == 0
}

/// Can the added tokens of a tokenizer be cut out of any text?
fn added_pass(tokenizer: &Tokenizer) -> (r: bool)
    ensures
        r == added_harmless(*tokenizer),
{
    let written = written_vocabulary(tokenizer);
    if contains_text(written.as_str(), EMPTY_PATTERN) {
        return false;
    }
    let all = strips_of(tokenizer);
    let mut left: bool = false;
    let mut right: bool = false;
    let mut i: usize = 0;
    while i < all.len()
        invariant
            i <= all@.len(),
            left == all@.take(i as int).contains((true, false)),
            right == (all@.take(i as int).contains((false, true)) || all@.take(i as int).contains(
                (true, true),
            )),
        decreases all@.len() - i,
    {
        proof {
            lemma_contains_grows(all@, i as int, (true, false));
            lemma_contains_grows(all@, i as int, (false, true));
            lemma_contains_grows(all@, i as int, (true, true));
        }
        let (l, r) = all[i];
        left = left || l && !r;
        right = right || r;
        i += 1;
    }
    proof {
        broadcast use vstd::seq_lib::group_to_multiset_ensures;

        assert(all@.take(i as int) =~= all@);
    }
    !left || !right
}

proof fn lemma_contains_grows(all: Seq<(bool, bool)>, i: int, x: (bool, bool))
    requires
        0 <= i < all.len(),
    ensures
        all.take(i + 1).contains(x) == (all.take(i).contains(x) || all[i] == x),
{
    let before = all.take(i);
    let after = all.take(i + 1);
    if before.contains(x) {
        let k = choose|k: int| 0 <= k < before.len() && before[k] == x;
        assert(after[k] == x);
    }
    if all[i] == x {
        assert(after[i] == x);
    }
    if after.contains(x) {
        let k = choose|k: int| 0 <= k < after.len() && after[k] == x;
        if k < i {
            assert(before[k] == x);
        }
    }
}

/// A normalizer that a text passes before it is split.
pub enum Cleaning<'a> {
    /// Look-ups in a table that came with the tokenizer.
    Table,
    /// What matches a pattern is replaced.
    Swap(&'a Replace),
    /// A text goes in front.
    Prefix(&'a str),
    Other,
}

/// A [`Cleaning`] as contracts see it.
pub ghost enum CleaningView {
    Table,
    Swap(Replace),
    Prefix(Seq<char>),
    Other,
}

impl<'a> View for Cleaning<'a> {
    type V = CleaningView;

    open spec fn view(&self) -> CleaningView {
        match self {
            Cleaning::Table => CleaningView::Table,
            Cleaning::Swap(r) => CleaningView::Swap(**r),
            Cleaning::Prefix(s) => CleaningView::Prefix(s@),
            Cleaning::Other => CleaningView::Other,
        }
    }
}

pub open spec fn cleaning_views(all: Seq<Cleaning<'_>>) -> Seq<CleaningView> {
    Seq::new(all.len(), |i: int| all[i]@)
}

/// The normalizers that a normalizer runs, in order: itself, or those of the sequence that it is.
pub uninterp spec fn cleaned_by(p: NormalizerWrapper) -> Seq<CleaningView>;

/// How deep sequences are nested in a normalizer.
pub uninterp spec fn cleaning_depth(p: NormalizerWrapper) -> nat;

/// The normalizers that some normalizers run one after the other.
pub open spec fn cleaned_by_all(all: Seq<NormalizerWrapper>) -> Seq<CleaningView>
    decreases all.len(),
{
    if all.len() == 0 {
        Seq::empty()
    } else {
        cleaned_by_all(all.drop_last()) + cleaned_by(all.last())
    }
}

/// `NormalizerWrapper`, taken apart: a sequence runs its parts one after the other, and is nested
/// deeper than each of them. Any other normalizer runs itself.
#[verifier::external_body]
fn open_cleaning<'a>(p: &'a NormalizerWrapper) -> (r: Parts<'a, NormalizerWrapper, Cleaning<'a>>)
    ensures
        match r {
            Parts::One(c) => cleaned_by(*p) == seq![c@],
            Parts::Many(all) => cleaned_by(*p) == cleaned_by_all(all@) && forall|i: int|
                0 <= i < all@.len() ==> cleaning_depth(#[trigger] all@[i]) < cleaning_depth(*p),
        },
{
    match p {
        NormalizerWrapper::Sequence(s) => Parts::Many(s.as_ref()),
        NormalizerWrapper::Precompiled(_) => Parts::One(Cleaning::Table),
        NormalizerWrapper::Replace(r) => Parts::One(Cleaning::Swap(r)),
        NormalizerWrapper::Prepend(s) => Parts::One(Cleaning::Prefix(s.prepend.as_str())),
        _ => Parts::One(Cleaning::Other),
    }
}

/// The normalizers that a tokenizer runs.
pub uninterp spec fn cleanings(t: Tokenizer) -> Seq<CleaningView>;

/// `Tokenizer::get_normalizer`: the tokenizer runs the normalizer that it has, and none where it
/// has none.
#[verifier::external_body]
fn normalizer_of(tokenizer: &Tokenizer) -> (r: Option<&NormalizerWrapper>)
    ensures
        cleanings(*tokenizer) == match r {
            Some(p) => cleaned_by(*p),
            None => Seq::empty(),
        },
{
    tokenizer.get_normalizer()
}

/// Appends the normalizers that a normalizer runs.
fn gather_cleanings<'a>(p: &'a NormalizerWrapper, out: &mut Vec<Cleaning<'a>>)
    ensures
        cleaning_views(final(out)@) == cleaning_views(old(out)@) + cleaned_by(*p),
    decreases cleaning_depth(*p),
{
    let ghost was = cleaning_views(out@);
    match open_cleaning(p) {
        Parts::One(c) => {
            let ghost v = c@;
            out.push(c);
            assert(cleaning_views(out@) =~= was + seq![v]);
        },
        Parts::Many(all) => {
            let mut i: usize = 0;
            assert(all@.take(0) =~= Seq::empty());
            assert(was + Seq::<CleaningView>::empty() =~= was);
            while i < all.len()
                invariant
                    i <= all@.len(),
                    cleaning_views(out@) == was + cleaned_by_all(all@.take(i as int)),
                    forall|j: int|
                        0 <= j < all@.len() ==> cleaning_depth(#[trigger] all@[j])
                            < cleaning_depth(*p),
                decreases all@.len() - i,
            {
                assert(all@.take(i + 1).drop_last() =~= all@.take(i as int));
                gather_cleanings(&all[i], out);
                assert(cleaning_views(out@) =~= was + cleaned_by_all(all@.take(i + 1)));
                i += 1;
            }
            assert(all@.take(i as int) =~= all@);
        },
    }
}

/// What a replacement looks for.
pub enum Sought {
    Text(String),
    Expression(String),
}

/// A [`Sought`] as contracts see it.
pub ghost enum SoughtView {
    Text(Seq<char>),
    Expression(Seq<char>),
}

impl View for Sought {
    type V = SoughtView;

    open spec fn view(&self) -> SoughtView {
        match self {
            Sought::Text(s) => SoughtView::Text(s@),
            Sought::Expression(e) => SoughtView::Expression(e@),
        }
    }
}

/// What a replacement looks for.
pub uninterp spec fn sought(r: Replace) -> SoughtView;

/// The pattern of a `Replace`. It is read by way of its serialized form, which holds it under the
/// word `pattern`.
#[verifier::external_body]
fn sought_of(r: &Replace) -> (s: Sought)
    ensures
        s@ == sought(*r),
{
    let value = serde_json::to_value(r).unwrap_or_default();
    let nothing = ReplacePattern::String(String::new());
    match serde_json::from_value(value["pattern"].clone()).unwrap_or(nothing) {
        ReplacePattern::String(s) => Sought::Text(s),
        ReplacePattern::Regex(e) => Sought::Expression(e),
    }
}

/// The character of an expression can stand there without anything being found in no text: it is no
/// choice, group, anchor or option, a count begins above zero, a hat only inverts a class, and what
/// is escaped is a class or a blank.
pub open spec fn takes_text(e: Seq<char>, i: int) -> bool {
    match e[i] {
        '|' | '(' | ')' | '*' | '?' | '$' => false,
        '^' => i > 0 && e[i - 1] == '[',
        '{' => i > 0 && i + 1 < e.len() && '1' <= e[i + 1] <= '9',
        '\\' => i + 1 < e.len() && escapes_class(e[i + 1]),
        _ => true,
    }
}

pub open spec fn escapes_class(c: char) -> bool {
    match c {
        's' | 'S' | 'd' | 'D' | 'w' | 'W' | 'n' | 'r' | 't' => true,
        _ => false,
    }
}

/// Whatever an expression finds has a character, as is plain from how it is written.
pub open spec fn finds_something(e: Seq<char>) -> bool {
    e.len() > 0 && forall|i: int| 0 <= i < e.len() ==> #[trigger] takes_text(e, i)
}

fn is_class(c: char) -> (r: bool)
    ensures
        r == escapes_class(c),
{
    c == 's' || c == 'S' || c == 'd' || c == 'D' || c == 'w' || c == 'W' || c == 'n' || c == 'r'
        || c == 't'
}

/// Is it plain from how an expression is written that whatever it finds has a character?
pub fn surely_finds(expression: &str) -> (r: bool)
    ensures
        r == finds_something(expression@),
{
    let e = chars::to_chars(expression);
    if e.len() == 0 {
        return false;
    }
    let mut i: usize = 0;
    while i < e.len()
        invariant
            i <= e@.len(),
            e@ == expression@,
            forall|j: int| 0 <= j < i ==> #[trigger] takes_text(expression@, j),
        decreases e@.len() - i,
    {
        let c = e[i];
        let more = i + 1 < e.len();
        let passes = if c == '|' || c == '(' || c == ')' || c == '*' || c == '?' || c == '$' {
            false
        } else if c == '^' {
            i > 0 && e[i - 1] == '['
        } else if c == '{' {
            i > 0 && more && '1' <= e[i + 1] && e[i + 1] <= '9'
        } else if c == '\\' {
            more && is_class(e[i + 1])
        } else {
            true
        };
        assert(passes == takes_text(expression@, i as int));
        if !passes {
            return false;
        }
        i += 1;
    }
    true
}

/// A normalizer that takes any text, and leaves each of its characters standing for some of those
/// that were there. A table need not hold what it points to. An empty prefix, or a replacement of
/// nothing, puts in characters that stand for none.
pub open spec fn cleaning_harmless(c: CleaningView) -> bool {
    match c {
        CleaningView::Table => false,
        CleaningView::Swap(r) => match sought(r) {
            SoughtView::Text(s) => s.len() > 0,
            SoughtView::Expression(e) => finds_something(e),
        },
        CleaningView::Prefix(s) => s.len() > 0,
        CleaningView::Other => true,
    }
}

fn cleaning_passes(c: &Cleaning<'_>) -> (r: bool)
    ensures
        r == cleaning_harmless(c@),
{
    match c {
        Cleaning::Table => false,
        Cleaning::Swap(r) => match sought_of(r) {
            Sought::Text(s) => !s.as_str().is_empty(),
            Sought::Expression(e) => surely_finds(e.as_str()),
        },
        Cleaning::Prefix(s) => !s.is_empty(),
        Cleaning::Other => true,
    }
}

/// Every normalizer takes any text.
pub open spec fn cleanings_harmless(t: Tokenizer) -> bool {
    forall|i: int|
        0 <= i < cleanings(t).len() ==> cleaning_harmless(#[trigger] cleanings(t)[i])
}

fn cleanings_pass(tokenizer: &Tokenizer) -> (r: bool)
    ensures
        r == cleanings_harmless(*tokenizer),
{
    let mut all: Vec<Cleaning<'_>> = Vec::new();
    if let Some(p) = normalizer_of(tokenizer) {
        gather_cleanings(p, &mut all);
    }
    assert(cleaning_views(all@) =~= cleanings(*tokenizer));
    let mut i: usize = 0;
    while i < all.len()
        invariant
            i <= all@.len(),
            cleaning_views(all@) == cleanings(*tokenizer),
            forall|j: int| 0 <= j < i ==> cleaning_harmless(#[trigger] cleanings(*tokenizer)[j]),
        decreases all@.len() - i,
    {
        assert(all@[i as int]@ == cleanings(*tokenizer)[i as int]);
        if !cleaning_passes(&all[i]) {
            return false;
        }
        i += 1;
    }
    assert(cleanings(*tokenizer).len() == all@.len());
    true
}

/// A step by which a tokenizer splits a text before its model does.
pub enum Step {
    /// Runs of so many characters.
    Runs { length: usize },
    /// At what an expression finds, with the expression written down.
    Pattern(String),
    Other,
}

/// A [`Step`] as contracts see it.
pub ghost enum StepView {
    Runs { length: nat },
    Pattern(Seq<char>),
    Other,
}

impl View for Step {
    type V = StepView;

    open spec fn view(&self) -> StepView {
        match self {
            Step::Runs { length } => StepView::Runs { length: *length as nat },
            Step::Pattern(s) => StepView::Pattern(s@),
            Step::Other => StepView::Other,
        }
    }
}

pub open spec fn step_views(all: Seq<Step>) -> Seq<StepView> {
    Seq::new(all.len(), |i: int| all[i]@)
}

/// The steps that a pre-tokenizer takes, in order: itself, or those of the sequence that it is.
pub uninterp spec fn stepped_by(p: PreTokenizerWrapper) -> Seq<StepView>;

/// How deep sequences are nested in a pre-tokenizer.
pub uninterp spec fn step_depth(p: PreTokenizerWrapper) -> nat;

/// The steps that some pre-tokenizers take one after the other.
pub open spec fn stepped_by_all(all: Seq<PreTokenizerWrapper>) -> Seq<StepView>
    decreases all.len(),
{
    if all.len() == 0 {
        Seq::empty()
    } else {
        stepped_by_all(all.drop_last()) + stepped_by(all.last())
    }
}

/// `PreTokenizerWrapper`, taken apart: a sequence runs its parts one after the other, and is nested
/// deeper than each of them. Any other pre-tokenizer is a step of its own; the expression of a
/// `Split` is written for debugging, which holds it letter for letter.
#[verifier::external_body]
fn open_step<'a>(p: &'a PreTokenizerWrapper) -> (r: Parts<'a, PreTokenizerWrapper, Step>)
    ensures
        match r {
            Parts::One(c) => stepped_by(*p) == seq![c@],
            Parts::Many(all) => stepped_by(*p) == stepped_by_all(all@) && forall|i: int|
                0 <= i < all@.len() ==> step_depth(#[trigger] all@[i]) < step_depth(*p),
        },
{
    match p {
        PreTokenizerWrapper::Sequence(s) => Parts::Many(s.as_ref()),
        PreTokenizerWrapper::FixedLength(f) => Parts::One(Step::Runs { length: f.length }),
        PreTokenizerWrapper::Split(s) => Parts::One(Step::Pattern(format!("{:?}", s.regex))),
        _ => Parts::One(Step::Other),
    }
}

/// The steps that a tokenizer takes.
pub uninterp spec fn steps(t: Tokenizer) -> Seq<StepView>;

/// `Tokenizer::get_pre_tokenizer`: the tokenizer runs the pre-tokenizer that it has, and none where
/// it has none.
#[verifier::external_body]
fn pre_tokenizer_of(tokenizer: &Tokenizer) -> (r: Option<&PreTokenizerWrapper>)
    ensures
        steps(*tokenizer) == match r {
            Some(p) => stepped_by(*p),
            None => Seq::empty(),
        },
{
    tokenizer.get_pre_tokenizer()
}

/// Appends the steps that a pre-tokenizer takes.
fn gather_steps(p: &PreTokenizerWrapper, out: &mut Vec<Step>)
    ensures
        step_views(final(out)@) == step_views(old(out)@) + stepped_by(*p),
    decreases step_depth(*p),
{
    let ghost was = step_views(out@);
    match open_step(p) {
        Parts::One(c) => {
            let ghost v = c@;
            out.push(c);
            assert(step_views(out@) =~= was + seq![v]);
        },
        Parts::Many(all) => {
            let mut i: usize = 0;
            assert(all@.take(0) =~= Seq::empty());
            assert(was + Seq::<StepView>::empty() =~= was);
            while i < all.len()
                invariant
                    i <= all@.len(),
                    step_views(out@) == was + stepped_by_all(all@.take(i as int)),
                    forall|j: int|
                        0 <= j < all@.len() ==> step_depth(#[trigger] all@[j]) < step_depth(*p),
                decreases all@.len() - i,
            {
                assert(all@.take(i + 1).drop_last() =~= all@.take(i as int));
                gather_steps(&all[i], out);
                assert(step_views(out@) =~= was + stepped_by_all(all@.take(i + 1)));
                i += 1;
            }
            assert(all@.take(i as int) =~= all@);
        },
    }
}

/// How an expression moves the place where what it finds begins.
pub const KEEP_OUT: &'static str = "\\K";

/// A step that splits any text: not into runs of nothing, nor by an expression that can begin what
/// it finds behind its end.
pub open spec fn step_harmless(s: StepView) -> bool {
    match s {
        StepView::Runs { length } => length > 0,
        StepView::Pattern(e) => !mentions(e, KEEP_OUT@),
        StepView::Other => true,
    }
}

/// Every step splits any text.
pub open spec fn steps_harmless(t: Tokenizer) -> bool {
    forall|i: int| 0 <= i < steps(t).len() ==> step_harmless(#[trigger] steps(t)[i])
}

fn steps_pass(tokenizer: &Tokenizer) -> (r: bool)
    ensures
        r == steps_harmless(*tokenizer),
{
    let mut all: Vec<Step> = Vec::new();
    if let Some(p) = pre_tokenizer_of(tokenizer) {
        gather_steps(p, &mut all);
    }
    assert(step_views(all@) =~= steps(*tokenizer));
    let mut i: usize = 0;
    while i < all.len()
        invariant
            i <= all@.len(),
            step_views(all@) == steps(*tokenizer),
            forall|j: int| 0 <= j < i ==> step_harmless(#[trigger] steps(*tokenizer)[j]),
        decreases all@.len() - i,
    {
        assert(all@[i as int]@ == steps(*tokenizer)[i as int]);
        let passes = match &all[i] {
            Step::Runs { length } => *length > 0,
            Step::Pattern(e) => !contains_text(e.as_str(), KEEP_OUT),
            Step::Other => true,
        };
        if !passes {
            return false;
        }
        i += 1;
    }
    assert(steps(*tokenizer).len() == all@.len());
    true
}

/// A piece of a template: the first text, the second, or a special token by its name.
pub enum Part {
    First,
    Second,
    Special(String),
}

/// A [`Part`] as contracts see it.
pub ghost enum PartView {
    First,
    Second,
    Special(Seq<char>),
}

impl View for Part {
    type V = PartView;

    open spec fn view(&self) -> PartView {
        match self {
            Part::First => PartView::First,
            Part::Second => PartView::Second,
            Part::Special(s) => PartView::Special(s@),
        }
    }
}

pub open spec fn part_views(all: Seq<Part>) -> Seq<PartView> {
    Seq::new(all.len(), |i: int| all[i]@)
}

/// The pieces of a template for one text.
pub uninterp spec fn single_parts(t: TemplateProcessing) -> Seq<PartView>;

/// `TemplateProcessing::single`, its pieces one by one. They are read by way of their serialized
/// form, which lists them.
#[verifier::external_body]
fn single_of(t: &TemplateProcessing) -> (v: Vec<Part>)
    ensures
        part_views(v@) == single_parts(*t),
{
    let value = serde_json::to_value(&t.single);
    let pieces: Vec<Piece> = value.and_then(serde_json::from_value).unwrap_or_default();
    let part = |p| match p {
        Piece::Sequence { id: Sequence::A, .. } => Part::First,
        Piece::Sequence { id: Sequence::B, .. } => Part::Second,
        Piece::SpecialToken { id, .. } => Part::Special(id),
    };
    pieces.into_iter().map(part).collect()
}

/// The pieces of a template for two texts.
pub uninterp spec fn pair_parts(t: TemplateProcessing) -> Seq<PartView>;

/// `TemplateProcessing::get_pair`, its pieces one by one. They are read by way of their serialized
/// form, which lists them.
#[verifier::external_body]
fn pair_of(t: &TemplateProcessing) -> (v: Vec<Part>)
    ensures
        part_views(v@) == pair_parts(*t),
{
    let value = serde_json::to_value(t.get_pair());
    let pieces: Vec<Piece> = value.and_then(serde_json::from_value).unwrap_or_default();
    let part = |p| match p {
        Piece::Sequence { id: Sequence::A, .. } => Part::First,
        Piece::Sequence { id: Sequence::B, .. } => Part::Second,
        Piece::SpecialToken { id, .. } => Part::Special(id),
    };
    pieces.into_iter().map(part).collect()
}

/// The names of the special tokens that a template defines.
pub uninterp spec fn defined(t: TemplateProcessing) -> Set<Seq<char>>;

/// `TemplateProcessing::get_special_tokens`: the names that are defined, in an order that is open.
#[verifier::external_body]
fn defined_of(t: &TemplateProcessing) -> (v: Vec<String>)
    ensures
        chars::texts(v@).to_set() == defined(*t),
{
    t.get_special_tokens().0.keys().cloned().collect()
}

/// How many tokens a template counts as added to one text.
pub uninterp spec fn added_single(t: TemplateProcessing) -> usize;

/// `TemplateProcessing::get_added_single`.
#[verifier::external_body]
fn added_single_of(t: &TemplateProcessing) -> (n: usize)
    ensures
        n == added_single(*t),
{
    t.get_added_single()
}

/// A stage that an encoding passes behind the model.
pub enum Stage<'a> {
    /// Offsets are mended, and nothing is added.
    Bytes,
    /// Special tokens go in front and behind.
    Framed,
    /// A template is filled in.
    Template(&'a TemplateProcessing),
}

/// A [`Stage`] as contracts see it.
pub ghost enum StageView {
    Bytes,
    Framed,
    Template(TemplateProcessing),
}

impl<'a> View for Stage<'a> {
    type V = StageView;

    open spec fn view(&self) -> StageView {
        match self {
            Stage::Bytes => StageView::Bytes,
            Stage::Framed => StageView::Framed,
            Stage::Template(t) => StageView::Template(**t),
        }
    }
}

pub open spec fn stage_views(all: Seq<Stage<'_>>) -> Seq<StageView> {
    Seq::new(all.len(), |i: int| all[i]@)
}

/// The stages of a post-processor, in order: itself, or those of the sequence that it is.
pub uninterp spec fn staged_by(p: PostProcessorWrapper) -> Seq<StageView>;

/// How deep sequences are nested in a post-processor.
pub uninterp spec fn stage_depth(p: PostProcessorWrapper) -> nat;

/// The stages of some post-processors one after the other.
pub open spec fn staged_by_all(all: Seq<PostProcessorWrapper>) -> Seq<StageView>
    decreases all.len(),
{
    if all.len() == 0 {
        Seq::empty()
    } else {
        staged_by_all(all.drop_last()) + staged_by(all.last())
    }
}

/// `PostProcessorWrapper`, taken apart: a sequence runs its parts one after the other, and is
/// nested deeper than each of them. Any other post-processor is a stage of its own.
#[verifier::external_body]
fn open_stage<'a>(p: &'a PostProcessorWrapper) -> (r: Parts<'a, PostProcessorWrapper, Stage<'a>>)
    ensures
        match r {
            Parts::One(c) => staged_by(*p) == seq![c@],
            Parts::Many(all) => staged_by(*p) == staged_by_all(all@) && forall|i: int|
                0 <= i < all@.len() ==> stage_depth(#[trigger] all@[i]) < stage_depth(*p),
        },
{
    match p {
        PostProcessorWrapper::Sequence(s) => Parts::Many(s.as_ref()),
        PostProcessorWrapper::ByteLevel(_) => Parts::One(Stage::Bytes),
        PostProcessorWrapper::Bert(_) | PostProcessorWrapper::Roberta(_) => {
            Parts::One(Stage::Framed)
        },
        PostProcessorWrapper::Template(t) => Parts::One(Stage::Template(t)),
    }
}

/// The stages of a tokenizer.
pub uninterp spec fn stages(t: Tokenizer) -> Seq<StageView>;

/// `Tokenizer::get_post_processor`: the tokenizer runs the post-processor that it has, and none
/// where it has none.
#[verifier::external_body]
fn post_processor_of(tokenizer: &Tokenizer) -> (r: Option<&PostProcessorWrapper>)
    ensures
        stages(*tokenizer) == match r {
            Some(p) => staged_by(*p),
            None => Seq::empty(),
        },
{
    tokenizer.get_post_processor()
}

/// Appends the stages of a post-processor.
fn gather_stages<'a>(p: &'a PostProcessorWrapper, out: &mut Vec<Stage<'a>>)
    ensures
        stage_views(final(out)@) == stage_views(old(out)@) + staged_by(*p),
    decreases stage_depth(*p),
{
    let ghost was = stage_views(out@);
    match open_stage(p) {
        Parts::One(c) => {
            let ghost v = c@;
            out.push(c);
            assert(stage_views(out@) =~= was + seq![v]);
        },
        Parts::Many(all) => {
            let mut i: usize = 0;
            assert(all@.take(0) =~= Seq::empty());
            assert(was + Seq::<StageView>::empty() =~= was);
            while i < all.len()
                invariant
                    i <= all@.len(),
                    stage_views(out@) == was + staged_by_all(all@.take(i as int)),
                    forall|j: int|
                        0 <= j < all@.len() ==> stage_depth(#[trigger] all@[j]) < stage_depth(*p),
                decreases all@.len() - i,
            {
                assert(all@.take(i + 1).drop_last() =~= all@.take(i as int));
                gather_stages(&all[i], out);
                assert(stage_views(out@) =~= was + staged_by_all(all@.take(i + 1)));
                i += 1;
            }
            assert(all@.take(i as int) =~= all@);
        },
    }
}

/// How many special tokens some stages add to one text.
pub open spec fn added(all: Seq<StageView>) -> nat
    decreases all.len(),
{
    if all.len() == 0 {
        0
    } else {
        added(all.drop_last()) + match all.last() {
            StageView::Bytes => 0,
            StageView::Framed => 2,
            StageView::Template(t) => added_single(t) as nat,
        }
    }
}

/// Every special token that a template's pieces name is defined.
pub open spec fn all_defined(parts: Seq<PartView>, names: Set<Seq<char>>) -> bool {
    forall|i: int|
        0 <= i < parts.len() ==> (#[trigger] parts[i] matches PartView::Special(s)
            ==> names.contains(s))
}

/// No piece is the second text.
pub open spec fn one_text(parts: Seq<PartView>) -> bool {
    forall|i: int| 0 <= i < parts.len() ==> !(#[trigger] parts[i] is Second)
}

/// How many encodings a template's pieces come to: special tokens count where they are added.
pub open spec fn filled(parts: Seq<PartView>, special: bool) -> nat
    decreases parts.len(),
{
    if parts.len() == 0 {
        0
    } else {
        filled(parts.drop_last(), special) + if !special && parts.last() is Special {
            0nat
        } else {
            1
        }
    }
}

/// How many encodings come out of a stage that `n` go into, if it takes them. A template takes one
/// or two, and fills them in: one does not do where it asks for a second, and special tokens that
/// are added have to be defined.
pub open spec fn passed(stage: StageView, n: nat, special: bool) -> Option<nat> {
    match stage {
        StageView::Template(t) => if n == 1 && one_text(single_parts(t)) && (special ==> all_defined(
            single_parts(t),
            defined(t),
        )) {
            Some(filled(single_parts(t), special))
        } else if n == 2 && (special ==> all_defined(pair_parts(t), defined(t))) {
            Some(filled(pair_parts(t), special))
        } else {
            None
        },
        _ => Some(n),
    }
}

/// How many encodings come out of some stages that one goes into, if they take it.
pub open spec fn passed_all(all: Seq<StageView>, special: bool) -> Option<nat>
    decreases all.len(),
{
    if all.len() == 0 {
        Some(1)
    } else {
        match passed_all(all.drop_last(), special) {
            Some(n) => passed(all.last(), n, special),
            None => None,
        }
    }
}

/// The stages take any one text.
pub open spec fn stages_harmless(t: Tokenizer, special: bool) -> bool {
    passed_all(stages(t), special) is Some && added(stages(t)) <= usize::MAX
}

fn is_defined(name: &String, names: &Vec<String>) -> (r: bool)
    ensures
        r == chars::texts(names@).to_set().contains(name@),
{
    let ghost all = chars::texts(names@);
    let mut i: usize = 0;
    while i < names.len()
        invariant
            i <= names@.len(),
            all == chars::texts(names@),
            forall|j: int| 0 <= j < i ==> #[trigger] all[j] != name@,
        decreases names@.len() - i,
    {
        if same(names[i].as_str(), name.as_str()) {
            assert(all[i as int] == name@);
            return true;
        }
        i += 1;
    }
    assert(all.len() == names@.len());
    false
}

fn are_defined(parts: &Vec<Part>, names: &Vec<String>) -> (r: bool)
    ensures
        r == all_defined(part_views(parts@), chars::texts(names@).to_set()),
{
    let ghost all = part_views(parts@);
    let ghost known = chars::texts(names@).to_set();
    let mut i: usize = 0;
    while i < parts.len()
        invariant
            i <= parts@.len(),
            all == part_views(parts@),
            known == chars::texts(names@).to_set(),
            forall|j: int|
                0 <= j < i ==> (#[trigger] all[j] matches PartView::Special(s) ==> known.contains(
                    s,
                )),
        decreases parts@.len() - i,
    {
        assert(all[i as int] == parts@[i as int]@);
        if let Part::Special(s) = &parts[i] {
            if !is_defined(s, names) {
                return false;
            }
        }
        i += 1;
    }
    assert(all.len() == parts@.len());
    true
}

fn wants_one(parts: &Vec<Part>) -> (r: bool)
    ensures
        r == one_text(part_views(parts@)),
{
    let ghost all = part_views(parts@);
    let mut i: usize = 0;
    while i < parts.len()
        invariant
            i <= parts@.len(),
            all == part_views(parts@),
            forall|j: int| 0 <= j < i ==> !(#[trigger] all[j] is Second),
        decreases parts@.len() - i,
    {
        assert(all[i as int] == parts@[i as int]@);
        if let Part::Second = &parts[i] {
            return false;
        }
        i += 1;
    }
    assert(all.len() == parts@.len());
    true
}

fn fill(parts: &Vec<Part>, special: bool) -> (n: usize)
    ensures
        n == filled(part_views(parts@), special),
{
    let ghost all = part_views(parts@);
    let mut n: usize = 0;
    let mut i: usize = 0;
    while i < parts.len()
        invariant
            i <= parts@.len(),
            all == part_views(parts@),
            n <= i,
            n == filled(all.take(i as int), special),
        decreases parts@.len() - i,
    {
        assert(all.take(i + 1).drop_last() =~= all.take(i as int));
        assert(all[i as int] == parts@[i as int]@);
        let counts = match &parts[i] {
            Part::Special(_) => special,
            _ => true,
        };
        if counts {
            n += 1;
        }
        i += 1;
    }
    assert(all.take(i as int) =~= all);
    n
}

/// How many encodings come out of a stage that `n` go into, if it takes them.
fn pass(stage: &Stage<'_>, n: usize, special: bool) -> (r: Option<usize>)
    ensures
        match r {
            Some(m) => passed(stage@, n as nat, special) == Some(m as nat),
            None => passed(stage@, n as nat, special) is None,
        },
{
    match stage {
        Stage::Template(t) => {
            let names = defined_of(t);
            if n == 1 {
                let parts = single_of(t);
                if !wants_one(&parts) || special && !are_defined(&parts, &names) {
                    return None;
                }
                Some(fill(&parts, special))
            } else if n == 2 {
                let parts = pair_of(t);
                if special && !are_defined(&parts, &names) {
                    return None;
                }
                Some(fill(&parts, special))
            } else {
                None
            }
        },
        _ => Some(n),
    }
}

proof fn lemma_stages_grow(all: Seq<StageView>, n: int, special: bool)
    requires
        0 <= n <= all.len(),
    ensures
        added(all.take(n)) <= added(all),
        passed_all(all.take(n), special) is None ==> passed_all(all, special) is None,
    decreases all.len(),
{
    if n == all.len() {
        assert(all.take(n) =~= all);
    } else {
        lemma_stages_grow(all.drop_last(), n, special);
        assert(all.drop_last().take(n) =~= all.take(n));
    }
}

/// How many special tokens the stages add, if they take any one text.
fn stages_pass(tokenizer: &Tokenizer, special: bool) -> (r: Option<usize>)
    ensures
        match r {
            Some(n) => stages_harmless(*tokenizer, special) && n == added(stages(*tokenizer)),
            None => !stages_harmless(*tokenizer, special),
        },
{
    let mut all: Vec<Stage<'_>> = Vec::new();
    if let Some(p) = post_processor_of(tokenizer) {
        gather_stages(p, &mut all);
    }
    let ghost views = stage_views(all@);
    assert(views =~= stages(*tokenizer));
    let mut more: usize = 0;
    let mut n: usize = 1;
    let mut i: usize = 0;
    while i < all.len()
        invariant
            i <= all@.len(),
            views == stage_views(all@),
            views == stages(*tokenizer),
            more == added(views.take(i as int)),
            passed_all(views.take(i as int), special) == Some(n as nat),
        decreases all@.len() - i,
    {
        proof {
            assert(views.take(i + 1).drop_last() =~= views.take(i as int));
            assert(views.take(i + 1).last() == all@[i as int]@);
            assert(views.len() == all@.len());
            lemma_stages_grow(views, i + 1, special);
        }
        match pass(&all[i], n, special) {
            Some(m) => {
                n = m;
            },
            None => {
                return None;
            },
        }
        let extra: usize = match &all[i] {
            Stage::Bytes => 0,
            Stage::Framed => 2,
            Stage::Template(t) => added_single_of(t),
        };
        match more.checked_add(extra) {
            Some(m) => {
                more = m;
            },
            None => {
                return None;
            },
        }
        i += 1;
    }
    assert(views.take(i as int) =~= views);
    Some(more)
}

/// What a tokenizer is set to cut an encoding to, and by how much its parts overlap.
pub uninterp spec fn truncation(t: Tokenizer) -> Option<(usize, usize)>;

/// `Tokenizer::get_truncation`: the greatest length and the stride, where it is set to truncate.
#[verifier::external_body]
fn truncation_of(tokenizer: &Tokenizer) -> (r: Option<(usize, usize)>)
    ensures
        r == truncation(*tokenizer),
{
    match tokenizer.get_truncation() {
        Some(p) => Some((p.max_length, p.stride)),
        None => None,
    }
}

/// Truncation leaves nothing, or more than parts overlap by, once the special tokens have their
/// place.
pub open spec fn truncation_harmless(t: Tokenizer, special: bool) -> bool {
    match truncation(t) {
        None => true,
        Some((length, stride)) => {
            let left = if special {
                length - added(stages(t))
            } else {
                length as int
            };
            left == 0 || stride < left
        },
    }
}

/// The most that a tokenizer may pad to, or to a multiple of: more than any memory holds, and
/// little enough that the tokens of both can still be counted in bytes.
pub const MOST_PADDING: usize = usize::MAX / 128;

/// What a tokenizer is set to pad an encoding to: a length, where it is fixed, and what the length
/// is to be a multiple of.
pub uninterp spec fn padding(t: Tokenizer) -> Option<(Option<usize>, Option<usize>)>;

/// `Tokenizer::get_padding`: the fixed length, unless it pads to the longest, and the multiple,
/// where it is set to pad.
#[verifier::external_body]
fn padding_of(tokenizer: &Tokenizer) -> (r: Option<(Option<usize>, Option<usize>)>)
    ensures
        r == padding(*tokenizer),
{
    match tokenizer.get_padding() {
        Some(p) => match p.strategy {
            PaddingStrategy::Fixed(n) => Some((Some(n), p.pad_to_multiple_of)),
            PaddingStrategy::BatchLongest => Some((None, p.pad_to_multiple_of)),
        },
        None => None,
    }
}

/// Padding stays within [`MOST_PADDING`].
pub open spec fn padding_harmless(t: Tokenizer) -> bool {
    padding(t) matches Some((length, multiple)) ==> (length matches Some(n) ==> n <= MOST_PADDING)
        && (multiple matches Some(n) ==> n <= MOST_PADDING)
}

fn at_most(n: Option<usize>) -> (r: bool)
    ensures
        r == (n matches Some(m) ==> m <= MOST_PADDING),
{
    match n {
        Some(m) => m <= MOST_PADDING,
        None => true,
    }
}

/// Encoding a text, with or without special tokens, ends in an encoding or an error: nothing that
/// the tokenizer is set to makes it give up in between.
pub open spec fn harmless(t: Tokenizer, special: bool) -> bool {
    added_harmless(t) && cleanings_harmless(t) && steps_harmless(t) && stages_harmless(t, special)
        && truncation_harmless(t, special) && padding_harmless(t)
}

/// Can a text be handed to a tokenizer? It says so exactly where the tokenizer is [`harmless`].
pub fn encodable(tokenizer: &Tokenizer, special: bool) -> (r: bool)
    ensures
        r == harmless(*tokenizer, special),
{
    if !added_pass(tokenizer) || !cleanings_pass(tokenizer) || !steps_pass(tokenizer) {
        return false;
    }
    let more: usize = match stages_pass(tokenizer, special) {
        Some(n) => n,
        None => {
            return false;
        },
    };
    if let Some((length, multiple)) = padding_of(tokenizer) {
        if !at_most(length) || !at_most(multiple) {
            return false;
        }
    }
    match truncation_of(tokenizer) {
        None => true,
        Some((length, stride)) => {
            let taken: usize = if special {
                more
            } else {
                0
            };
            length >= taken && (length == taken || stride < length - taken)
        },
    }
}

/// A tokenizer that only splits suits every text: one without added tokens, cleaning, steps,
/// processing, truncation and padding.
pub proof fn a_bare_tokenizer_suits_every_text(t: Tokenizer, special: bool)
    requires
        !has_empty_pattern(t),
        strips(t).count((true, false)) == 0,
        cleanings(t).len() == 0,
        steps(t).len() == 0,
        stages(t).len() == 0,
        truncation(t) is None,
        padding(t) is None,
    ensures
        harmless(t, special),
{
}

/// What a tokenizer must not have: an empty added token, a table of its own to clean by, a search
/// for nothing, runs of no length, a stride as long as what truncation leaves, or padding without
/// end.
pub proof fn hazards_do_not_suit(t: Tokenizer, special: bool, i: int)
    ensures
        has_empty_pattern(t) ==> !harmless(t, special),
        0 <= i < cleanings(t).len() && cleanings(t)[i] is Table ==> !harmless(t, special),
        0 <= i < cleanings(t).len() && (cleanings(t)[i] matches CleaningView::Prefix(s) && s.len()
            == 0) ==> !harmless(t, special),
        0 <= i < cleanings(t).len() && (cleanings(t)[i] matches CleaningView::Swap(r) && (sought(
            r,
        ) matches SoughtView::Text(s) && s.len() == 0)) ==> !harmless(t, special),
        0 <= i < steps(t).len() && steps(t)[i] == (StepView::Runs { length: 0 }) ==> !harmless(
            t,
            special,
        ),
        truncation(t) matches Some((length, stride)) && 0 < length <= stride ==> !harmless(t, false),
        padding(t) matches Some((Some(n), _)) && n > usize::MAX / 128 ==> !harmless(t, special),
        padding(t) matches Some((_, Some(n))) && n > usize::MAX / 128 ==> !harmless(t, special),
{
    if 0 <= i < cleanings(t).len() {
        let c = cleanings(t)[i];
        assert(cleanings_harmless(t) ==> cleaning_harmless(c));
    }
    if 0 <= i < steps(t).len() {
        let s = steps(t)[i];
        assert(steps_harmless(t) ==> step_harmless(s));
    }
}

/// Special tokens in front and behind count two, mended offsets none, and a template what it adds.
pub proof fn added_tokens_are_counted(all: Seq<StageView>)
    ensures
        added(Seq::empty()) == 0,
        added(all.push(StageView::Bytes)) == added(all),
        added(all.push(StageView::Framed)) == added(all) + 2,
        forall|t: TemplateProcessing|
            #[trigger] added(all.push(StageView::Template(t))) == added(all) + added_single(t),
{
    assert forall|s: StageView| (#[trigger] all.push(s)).drop_last() == all by {
        assert(all.push(s).drop_last() =~= all);
    }
    assert(all.push(StageView::Bytes).drop_last() == all);
    assert(all.push(StageView::Framed).drop_last() == all);
}

/// A tokenizer repeats itself unless it drops merges at random.
pub proof fn only_dropped_merges_are_random(t: Tokenizer)
    ensures
        !fixed(t) <==> model(t) == (Splitting::Pairs { dropped: true }),
{
}

/// An expression of letters and digits finds something; one that is empty, or holds an alternative,
/// a group, an optional part or the end of the text, may find nothing.
pub proof fn some_expressions_find_nothing(e: Seq<char>, i: int)
    ensures
        e.len() == 0 ==> !finds_something(e),
        0 <= i < e.len() && (e[i] == '|' || e[i] == '(' || e[i] == ')' || e[i] == '*' || e[i] == '?'
            || e[i] == '$') ==> !finds_something(e),
        e.len() > 0 && (forall|k: int|
            0 <= k < e.len() ==> 'a' <= #[trigger] e[k] <= 'z' || '0' <= e[k] <= '9')
            ==> finds_something(e),
{
    if 0 <= i < e.len() && finds_something(e) {
        assert(takes_text(e, i));
    }
    if forall|k: int| 0 <= k < e.len() ==> 'a' <= #[trigger] e[k] <= 'z' || '0' <= e[k] <= '9' {
        assert forall|k: int| 0 <= k < e.len() implies #[trigger] takes_text(e, k) by {
            assert('a' <= e[k] <= 'z' || '0' <= e[k] <= '9');
        }
    }
}

/// A template counts its parts: all of them with special tokens, and without them those that are
/// texts.
pub proof fn a_template_counts_its_parts(parts: Seq<PartView>, part: PartView)
    ensures
        filled(Seq::empty(), true) == 0,
        filled(Seq::empty(), false) == 0,
        filled(parts.push(part), true) == filled(parts, true) + 1,
        filled(parts.push(part), false) == filled(parts, false) + (if part is Special {
            0nat
        } else {
            1
        }),
{
    assert(parts.push(part).drop_last() =~= parts);
}

/// A text passes a stage that is no template as it is; a template takes one text where it wants one,
/// and two where there are two.
pub proof fn texts_pass_their_stages(t: TemplateProcessing, n: nat, special: bool)
    ensures
        passed(StageView::Bytes, n, special) == Some(n),
        passed(StageView::Framed, n, special) == Some(n),
        passed_all(Seq::empty(), special) == Some(1nat),
        n == 0 || n > 2 ==> passed(StageView::Template(t), n, special) is None,
        (exists|i: int| 0 <= i < single_parts(t).len() && #[trigger] single_parts(t)[i] is Second)
            ==> passed(StageView::Template(t), 1, special) is None,
        (forall|i: int| 0 <= i < single_parts(t).len() ==> !(#[trigger] single_parts(t)[i] is Second))
            ==> passed(StageView::Template(t), 1, false) == Some(filled(single_parts(t), false)),
{
    if passed(StageView::Template(t), 1, special) is Some {
        assert(one_text(single_parts(t)));
    }
}

} // verus!
