use tokenizers::models::bpe::{Vocab, BPE};
use tokenizers::models::unigram::Unigram;
use tokenizers::models::wordlevel::WordLevel;
use tokenizers::normalizers::replace::{Replace, ReplacePattern};
use tokenizers::normalizers::{
    Lowercase, Precompiled, Prepend, Sequence as Cleanings, StripAccents, NFC,
};
use tokenizers::pre_tokenizers::fixed_length::FixedLength;
use tokenizers::pre_tokenizers::sequence::Sequence as Steps;
use tokenizers::pre_tokenizers::split::{Split, SplitPattern};
use tokenizers::pre_tokenizers::whitespace::WhitespaceSplit;
use tokenizers::processors::bert::BertProcessing;
use tokenizers::processors::byte_level::ByteLevel;
use tokenizers::processors::sequence::Sequence as Stages;
use tokenizers::processors::template::{Template, TemplateProcessing};
use tokenizers::{
    AddedToken, PaddingParams, PaddingStrategy, SplitDelimiterBehavior, Tokenizer,
    TruncationParams,
};
use tts::audio8::prompt::{PromptBuilder, PromptError};
use tts::settings::{encodable, repeatable, surely_finds};
use tts::tokens::{tokenize, tokenize_each, NOT_ENCODABLE};

/// A word tokenizer: `hello` is 1, `[CLS]` 2, `[SEP]` 3, everything else 0.
fn words() -> Tokenizer {
    let vocab = ["<unk>", "hello", "[CLS]", "[SEP]"]
        .iter()
        .enumerate()
        .map(|(i, w)| (w.to_string(), i as u32))
        .collect();
    let model = WordLevel::builder()
        .vocab(vocab)
        .unk_token("<unk>".to_string())
        .build()
        .unwrap();
    let mut t = Tokenizer::new(model);
    t.with_pre_tokenizer(Some(WhitespaceSplit));
    t
}

fn one(text: &str) -> Vec<(usize, String)> {
    vec![(0, text.to_string())]
}

fn ids(t: &Tokenizer, text: &str, special: bool) -> Vec<u32> {
    tokenize(t, &one(text), special).unwrap().remove(0).ids
}

fn frame() -> BertProcessing {
    BertProcessing::new(("[SEP]".to_string(), 3), ("[CLS]".to_string(), 2))
}

fn cut(length: usize, stride: usize) -> Tokenizer {
    let mut t = words();
    t.with_truncation(Some(TruncationParams { max_length: 9, ..Default::default() })).unwrap();
    let p = t.get_truncation_mut().unwrap();
    p.max_length = length;
    p.stride = stride;
    t
}

#[test]
fn truncation_has_to_leave_more_than_it_overlaps() {
    let t = cut(3, 2);
    assert!(encodable(&t, false) && encodable(&t, true));
    assert_eq!(ids(&t, "hello hello hello hello hello", false), vec![1, 1, 1]);
    let t = cut(2, 2);
    assert!(!encodable(&t, false));
    match tokenize(&t, &one("hello hello hello"), false) {
        Err(e) => assert_eq!(e, NOT_ENCODABLE),
        Ok(_) => panic!("expected an error"),
    }
    let b = PromptBuilder::new(t);
    assert!(matches!(b.build("Hello", None), Err(PromptError::Tokenizer(e)) if e == NOT_ENCODABLE));
    assert!(b.encode_parts(&vec![String::new()]).unwrap().is_empty());
    let t = cut(0, 7);
    assert!(encodable(&t, false));
    assert!(tokenize(&t, &one("hello"), false).unwrap().is_empty());
}

#[test]
fn special_tokens_take_their_place_before_truncation() {
    let mut t = cut(3, 0);
    t.with_post_processor(Some(frame()));
    assert!(encodable(&t, true));
    assert_eq!(ids(&t, "hello hello", true), vec![2, 1, 3]);
    let mut t = cut(3, 1);
    t.with_post_processor(Some(frame()));
    assert!(encodable(&t, false) && !encodable(&t, true));
    let mut t = cut(1, 0);
    t.with_post_processor(Some(frame()));
    assert!(encodable(&t, false) && !encodable(&t, true));
    assert!(tokenize(&t, &one("hello"), true).is_err());
    assert_eq!(ids(&t, "hello hello", false), vec![1]);
}

#[test]
fn templates_are_for_one_text() {
    let mut t = words();
    let single = |text: &str| {
        TemplateProcessing::builder()
            .try_single(text)
            .unwrap()
            .special_tokens(vec![("[CLS]", 2)])
            .build()
            .unwrap()
    };
    t.with_post_processor(Some(single("[CLS] $A")));
    assert!(encodable(&t, false) && encodable(&t, true));
    assert_eq!(ids(&t, "hello", false), vec![1]);
    assert_eq!(ids(&t, "hello", true), vec![2, 1]);
    let mut unknown = single("$A");
    unknown.set_single(Template::try_from("$A [SEP]").unwrap());
    t.with_post_processor(Some(unknown));
    assert!(encodable(&t, false) && !encodable(&t, true));
    assert_eq!(ids(&t, "hello", false), vec![1]);
    t.with_post_processor(Some(single("$A $A")));
    assert!(encodable(&t, true));
    assert_eq!(ids(&t, "hello", true), vec![1, 1]);
    t.with_post_processor(Some(single("$A $B")));
    assert!(!encodable(&t, false) && !encodable(&t, true));
    assert!(tokenize(&t, &one("hello"), false).is_err());
    let chain = Stages::new(vec![ByteLevel::default().into(), single("$A").into(), frame().into()]);
    t.with_post_processor(Some(chain));
    assert!(encodable(&t, true));
    assert_eq!(ids(&t, "hello", true), vec![2, 1, 3]);
    let twice = Stages::new(vec![single("$A $A $A").into(), single("$A").into()]);
    t.with_post_processor(Some(twice));
    assert!(!encodable(&t, false));
    let mut short = cut(1, 1);
    short.with_post_processor(Some(single("[CLS] $A")));
    assert!(!encodable(&short, false) && encodable(&short, true));
    assert_eq!(ids(&short, "hello hello", true), vec![2]);
    let mut short = cut(2, 0);
    short.with_post_processor(Some(single("[CLS] $A")));
    assert_eq!(ids(&short, "hello hello", true), vec![2, 1]);
    let again = Stages::new(vec![single("[CLS] $A").into(), single("$A").into()]);
    t.with_post_processor(Some(again));
    assert!(encodable(&t, false) && encodable(&t, true));
    assert_eq!(ids(&t, "hello", false), vec![1]);
    assert_eq!(ids(&t, "hello", true), vec![2, 1]);
    let nested = Stages::new(vec![Stages::new(vec![frame().into()]).into()]);
    t.with_post_processor(Some(nested));
    assert!(encodable(&t, true));
    assert_eq!(ids(&t, "hello", true), vec![2, 1, 3]);
    let hidden = Stages::new(vec![Stages::new(vec![single("$B").into()]).into()]);
    t.with_post_processor(Some(hidden));
    assert!(!encodable(&t, false));
}

#[test]
fn normalizers_need_no_table() {
    let mut t = words();
    t.with_normalizer(Some(Lowercase));
    assert!(encodable(&t, false));
    assert_eq!(ids(&t, "HELLO", false), vec![1]);
    t.with_normalizer(Some(Cleanings::new(vec![NFC.into(), Lowercase.into()])));
    assert_eq!(ids(&t, "Hello", false), vec![1]);
    t.with_normalizer(Some(Precompiled::default()));
    assert!(!encodable(&t, false));
    assert!(tokenize(&t, &one("hello"), false).is_err());
    let nested = Cleanings::new(vec![Cleanings::new(vec![NFC.into()]).into(), Lowercase.into()]);
    t.with_normalizer(Some(nested));
    assert!(encodable(&t, false));
    assert_eq!(ids(&t, "HELLO", false), vec![1]);
    let table = Precompiled::default().into();
    let hidden = Cleanings::new(vec![NFC.into(), Cleanings::new(vec![table]).into()]);
    t.with_normalizer(Some(hidden));
    assert!(!encodable(&t, false));
}

#[test]
fn normalizers_put_nothing_in_from_nowhere() {
    let mut t = words();
    t.with_normalizer(Some(Replace::new("y", "o").unwrap()));
    assert!(encodable(&t, false));
    assert_eq!(ids(&t, "helly", false), vec![1]);
    t.with_normalizer(Some(Replace::new("\"", "").unwrap()));
    assert!(encodable(&t, false));
    assert_eq!(ids(&t, "\"hello\"", false), vec![1]);
    t.with_normalizer(Some(Replace::new("", "x").unwrap()));
    assert!(!encodable(&t, false));
    let start = ReplacePattern::Regex("^".to_string());
    t.with_normalizer(Some(Replace::new(start, "x").unwrap()));
    assert!(!encodable(&t, false));
    let runs = ReplacePattern::Regex("l{2,}".to_string());
    t.with_normalizer(Some(Replace::new(runs, "ll").unwrap()));
    assert!(encodable(&t, false));
    assert_eq!(ids(&t, "hellllo", false), vec![1]);
    for e in ["\\s+", " {2,}", "[^a-z]", "a.b"] {
        assert!(surely_finds(e), "{e}");
    }
    for e in ["", "a*", "a?", "a{0,2}", "(?=a)", "a|", "^", "$", "\\b", "\\K", "\\Aa", "a^"] {
        assert!(!surely_finds(e), "{e}");
    }
    t.with_normalizer(Some(Replace::new("", "x").unwrap()));
    assert!(tokenize(&t, &one("hello"), false).is_err());
    t.with_normalizer(Some(Prepend::new("h".to_string())));
    assert!(encodable(&t, false));
    assert_eq!(ids(&t, "ello", false), vec![1]);
    t.with_normalizer(Some(Prepend::new(String::new())));
    assert!(!encodable(&t, false));
}

fn token(content: &str) -> AddedToken {
    AddedToken::from(content, true)
}

#[test]
fn added_tokens_do_not_reach_for_the_same_spaces() {
    let mut t = words();
    t.add_tokens(&[token("<a>").rstrip(true), token(" ")]);
    assert!(encodable(&t, false));
    assert_eq!(ids(&t, "<a>hello", false), vec![4, 1]);
    let mut t = words();
    t.add_tokens(&[token("<a>").rstrip(true), token(" ").lstrip(true)]);
    assert!(!encodable(&t, false));
    match tokenize(&t, &one("<a>  x"), false) {
        Err(e) => assert_eq!(e, NOT_ENCODABLE),
        Ok(_) => panic!("expected an error"),
    }
    let mut t = words();
    t.add_tokens(&[token("<a>").lstrip(true), token("<b>").lstrip(true)]);
    assert!(encodable(&t, false));
    assert_eq!(ids(&t, "hello  <b> <a>", false), vec![1, 5, 4]);
    let mut t = words();
    t.add_tokens(&[token("<a>").rstrip(true), token(" ").lstrip(true).rstrip(true)]);
    assert!(encodable(&t, false));
    assert_eq!(ids(&t, "<a>  hello", false)[0], 4);
}

#[test]
fn added_tokens_are_found_by_something() {
    let mut t = words();
    t.with_normalizer(Some(Lowercase));
    t.add_tokens(&[AddedToken::from("WOW", false)]);
    assert!(encodable(&t, false));
    assert_eq!(ids(&t, "hello Wow", false), vec![1, 4]);
    let mut t = words();
    t.add_tokens(&[AddedToken::from("\u{301}", false)]);
    assert!(encodable(&t, false));
    assert_eq!(ids(&t, "hello\u{301}", false), vec![1, 4]);
    let mut t = words();
    t.with_normalizer(Some(StripAccents));
    t.add_tokens(&[AddedToken::from("\u{301}", false)]);
    assert!(!encodable(&t, false));
    assert!(tokenize(&t, &one("h\u{e9}"), false).is_err());
    t.with_normalizer(None::<StripAccents>);
    assert!(!encodable(&t, false));
    t.add_tokens(&[AddedToken::from("\u{301}", false)]);
    assert!(encodable(&t, false));
}

#[test]
fn expressions_end_behind_where_they_begin() {
    let mut t = words();
    let at = |e: &str| {
        Split::new(SplitPattern::Regex(e.to_string()), SplitDelimiterBehavior::Removed, false)
            .unwrap()
    };
    t.with_pre_tokenizer(Some(at("[-+]")));
    assert!(encodable(&t, false));
    assert_eq!(ids(&t, "hello-hello+x", false), vec![1, 1, 0]);
    t.with_pre_tokenizer(Some(at("(?=lo\\K)")));
    assert!(!encodable(&t, false));
    t.with_pre_tokenizer(Some(Steps::new(vec![Steps::new(vec![at("-").into()]).into()])));
    assert!(encodable(&t, false));
    assert_eq!(ids(&t, "hello-hello", false), vec![1, 1]);
}

#[test]
fn unigrams_are_split_the_same_way_every_time() {
    let pieces = ["<unk>", "a", "b", "ab"].map(|p| (p.to_string(), p.len() as f64));
    let t = Tokenizer::new(Unigram::from(pieces.to_vec(), Some(0), false).unwrap());
    assert!(repeatable(&t) && encodable(&t, false));
    assert_eq!(ids(&t, "abba", false), vec![3, 2, 1]);
    assert_eq!(ids(&t, "abba", false), vec![3, 2, 1]);
}

#[test]
fn merges_that_are_dropped_leave_the_text() {
    let vocab: Vocab =
        ["a", "b", "ab"].iter().enumerate().map(|(i, w)| (w.to_string(), i as u32)).collect();
    let model = BPE::builder()
        .vocab_and_merges(vocab, vec![("a".to_string(), "b".to_string())])
        .dropout(0.5)
        .build()
        .unwrap();
    let t = Tokenizer::new(model);
    assert!(!repeatable(&t) && encodable(&t, false));
    let segments = vec![(0, "ab".to_string()), (1, "ba".to_string())];
    for _ in 0..20 {
        let all = tokenize_each(&t, &segments, false).unwrap();
        assert!(all[0] == vec![2] || all[0] == vec![0, 1]);
        assert_eq!(all[1], vec![1, 0]);
    }
}

#[test]
fn padding_and_runs_have_their_bounds() {
    let mut t = words();
    let pad = |n: usize, multiple: Option<usize>| PaddingParams {
        strategy: PaddingStrategy::Fixed(n),
        pad_to_multiple_of: multiple,
        ..Default::default()
    };
    t.with_padding(Some(pad(2, Some(3))));
    assert!(encodable(&t, false));
    assert_eq!(ids(&t, "hello", false), vec![1, 0, 0]);
    t.with_padding(Some(pad(1 << 25, Some(1 << 25))));
    assert!(encodable(&t, false));
    t.with_padding(Some(pad(usize::MAX, None)));
    assert!(!encodable(&t, false));
    t.with_padding(Some(pad(2, Some(usize::MAX))));
    assert!(!encodable(&t, false));
    t.with_padding(None);
    t.with_pre_tokenizer(Some(FixedLength::new(5)));
    assert!(encodable(&t, false));
    assert_eq!(ids(&t, "hellohello", false), vec![1, 1]);
    t.with_pre_tokenizer(Some(FixedLength::new(0)));
    assert!(!encodable(&t, false));
    let steps = Steps::new(vec![WhitespaceSplit.into(), FixedLength::new(0).into()]);
    t.with_pre_tokenizer(Some(steps));
    assert!(!encodable(&t, false));
    assert!(tokenize(&t, &one("hello"), false).is_err());
    let steps = Steps::new(vec![WhitespaceSplit.into(), FixedLength::new(2).into()]);
    t.with_pre_tokenizer(Some(steps));
    assert_eq!(ids(&t, "hello", false), vec![0, 0, 0]);
}
