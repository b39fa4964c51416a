use tts::chars::{begins_with, ends_with, len_bytes};
use tts::text::{
    clean_text, closer_end, closer_end_given, collapse_dots, is_abbreviation, pack, segment,
    segment_at, split_long,
};

fn letters(s: &str) -> Vec<char> {
    s.chars().collect()
}

#[test]
fn clean_and_collapse() {
    assert_eq!(clean_text("  a \n b\tc "), "a b c");
    assert_eq!(collapse_dots("found it.. next"), "found it. next");
}

#[test]
fn segmentation_splits_on_sentences() {
    let segs = segment("One. Two. Three.", 10);
    assert_eq!(segs.len(), 1);
    assert_eq!(segs[0], vec!["One. Two.", "Three."]);
}

#[test]
fn paragraphs_stay_separate() {
    let segs = segment("First para.\nSecond para.", 200);
    assert_eq!(segs.len(), 2);
}

#[test]
fn no_segment_exceeds_the_budget() {
    let long = "Change that crosses a product boundary needs a group whose legitimacy \
        comes from different places, because the decision needs several kinds of \
        knowledge that no single team holds: product and engineering owners who can \
        change scope, support and field engineers who see failure first, respected \
        practitioners from outside, and where the change touches data retention, \
        contracts or compliance, security, legal and operations.";
    assert!(
        long.len() > 220,
        "fixture must exceed the budget to be meaningful"
    );
    for para in segment(long, 220) {
        for seg in para {
            assert!(seg.len() <= 220, "segment of {} bytes: {seg}", seg.len());
        }
    }
}

#[test]
fn long_sentence_prefers_clause_boundaries() {
    let pieces = split_long(
        "alpha beta gamma delta epsilon, zeta eta theta iota kappa",
        40,
    );
    assert!(pieces.len() >= 2);
    assert!(
        pieces[0].ends_with(','),
        "expected a clause break, got {:?}",
        pieces[0]
    );
}

#[test]
fn unpunctuated_run_still_bounded() {
    let words = "alpha ".repeat(200);
    for piece in split_long(words.trim(), 60) {
        assert!(
            piece.len() <= 60,
            "unbounded piece of {} bytes",
            piece.len()
        );
    }
}

#[test]
fn an_abbreviation_is_not_a_sentence_boundary() {
    let segs = segment("See Fig. 2 and Tab. 1. It holds.", 200);
    assert_eq!(segs[0], vec!["See Fig. 2 and Tab. 1. It holds."]);
    let segs = segment("Shown in Sec. 4 e.g. the second run. Done.", 200);
    assert_eq!(segs[0], vec!["Shown in Sec. 4 e.g. the second run. Done."]);
}

#[test]
fn a_capital_after_the_gap_still_breaks() {
    let segs = segment("Demand at A. The model solves it.", 25);
    assert_eq!(segs[0], vec!["Demand at A.", "The model solves it."]);
}

#[test]
fn decimals_are_not_sentence_boundaries() {
    let segs = segment("Latency rose to 12.4 seconds. Then it fell.", 200);
    assert_eq!(segs[0], vec!["Latency rose to 12.4 seconds. Then it fell."]);
    let segs = segment("Version 1.2.3 shipped.", 200);
    assert_eq!(segs[0], vec!["Version 1.2.3 shipped."]);
}

#[test]
fn quoted_sentence_still_breaks() {
    let segs = segment("He said \"go.\" She left.", 20);
    assert_eq!(segs[0], vec!["He said \"go.\"", "She left."]);
}

#[test]
fn short_text_is_untouched() {
    assert_eq!(split_long("Short enough.", 220), vec!["Short enough."]);
}

#[test]
fn cleaning_keeps_the_words_of_any_white_space() {
    assert_eq!(clean_text(""), "");
    assert_eq!(clean_text(" \t\r\n"), "");
    assert_eq!(clean_text("a\u{a0}b\u{3000}c\u{200b}d"), "a b c\u{200b}d");
    let once = clean_text("x  y\u{2028}z");
    assert_eq!(once, "x y z");
    assert_eq!(clean_text(&once), once);
}

#[test]
fn collapsed_dots_stay_collapsed() {
    assert_eq!(collapse_dots("..."), ".");
    assert_eq!(collapse_dots("a...b.c..d"), "a.b.c.d");
    let once = collapse_dots("x.... y..");
    assert_eq!(collapse_dots(&once), once);
}

#[test]
fn packing_fills_lines_and_starts_new_ones() {
    let pieces: Vec<String> = ["aa", "bb", "cc", "dd"].iter().map(|s| s.to_string()).collect();
    assert_eq!(pack(&pieces, 5), vec!["aa bb", "cc dd"]);
    assert_eq!(pack(&pieces, 4), vec!["aa", "bb", "cc", "dd"]);
    assert_eq!(pack(&pieces, 1), vec!["aa", "bb", "cc", "dd"]);
    assert_eq!(pack(&Vec::new(), 5), Vec::<String>::new());
}

#[test]
fn a_word_longer_than_the_budget_is_cut() {
    assert_eq!(split_long("aaaaaa", 5), vec!["aaaaa", "a"]);
    assert_eq!(split_long("ééé", 5), vec!["éé", "é"]);
    assert_eq!(split_long("é€é", 1), vec!["é", "€", "é"]);
    let word = "x".repeat(300);
    assert_eq!(split_long(&word, 220), vec!["x".repeat(220), "x".repeat(80)]);
    let segs = segment(&format!("a {word} b"), 220);
    assert_eq!(segs, vec![vec!["a".to_string(), "x".repeat(220), format!("{} b", "x".repeat(80))]]);
}

#[test]
fn no_segment_is_over_a_budget_of_four_bytes() {
    for para in segment("Übermaß, naïveté; ünïcödé €€€ 😀😀!", 4) {
        for s in para {
            assert!(s.len() <= 4 && !s.is_empty(), "{s:?}");
        }
    }
}

#[test]
fn budgets_count_bytes() {
    assert_eq!(len_bytes("aé€"), 6);
    let pieces: Vec<String> = ["é", "é"].iter().map(|s| s.to_string()).collect();
    assert_eq!(pack(&pieces, 5), vec!["é é"]);
    assert_eq!(pack(&pieces, 4), vec!["é", "é"]);
}

#[test]
fn abbreviations_are_recognised_in_any_case() {
    let v = letters("See FIG. 2");
    assert!(is_abbreviation(&v, 7));
    let v = letters("See figure. 2");
    assert!(!is_abbreviation(&v, 10));
    let v = letters("approx. 2");
    assert!(is_abbreviation(&v, 6));
    let v = letters(". x");
    assert!(!is_abbreviation(&v, 0));
    assert!(!is_abbreviation(&v, 1));
    let v = letters("É. x");
    assert!(!is_abbreviation(&v, 1));
}

#[test]
fn a_sentence_ends_behind_its_closers() {
    let v = letters("Go.\") She");
    assert_eq!(closer_end(&v, 3), Some(5));
    let v = letters("e.g. the");
    assert_eq!(closer_end(&v, 4), None);
    let v = letters("12.4");
    assert_eq!(closer_end(&v, 3), None);
    let v = letters("End.");
    assert_eq!(closer_end(&v, 4), Some(4));
    assert_eq!(closer_end_given(&letters("A. b"), 2, false, true), None);
    assert_eq!(closer_end_given(&letters("A. b"), 2, false, false), Some(2));
    assert_eq!(closer_end_given(&letters("A. b"), 2, true, false), None);
}

#[test]
fn segments_follow_the_boundaries_they_are_given() {
    let v = letters("One. Two. Three.");
    let mut ends: Vec<Option<usize>> = vec![None; v.len()];
    ends[3] = Some(4);
    ends[8] = Some(9);
    ends[15] = Some(16);
    assert_eq!(segment_at(&v, &ends, 10), vec!["One. Two.", "Three."]);
    let none: Vec<Option<usize>> = vec![None; v.len()];
    assert_eq!(segment_at(&v, &none, 200), vec!["One. Two. Three."]);
}

#[test]
fn segments_keep_the_words_of_every_line() {
    let text = "Alpha beta, gamma; delta.  Epsilon zeta! Eta?\n\nTheta iota.\r\nKappa";
    let segs = segment(text, 16);
    assert_eq!(segs.len(), 3);
    let joined: Vec<String> = segs.iter().map(|p| p.join(" ")).collect();
    assert_eq!(joined[0], "Alpha beta, gamma; delta. Epsilon zeta! Eta?");
    assert_eq!(joined[1], "Theta iota.");
    assert_eq!(joined[2], "Kappa");
    for para in &segs {
        for s in para {
            assert!(s.len() <= 16 && s.trim() == s && !s.is_empty());
        }
    }
}

#[test]
fn blank_text_has_no_segments() {
    assert_eq!(segment("", 100), Vec::<Vec<String>>::new());
    assert_eq!(segment(" \n\t\n ", 100), Vec::<Vec<String>>::new());
}

#[test]
fn prefixes_and_suffixes_are_found() {
    assert!(begins_with("layers.0", "layers."));
    assert!(!begins_with("layer", "layers"));
    assert!(begins_with("x", ""));
    assert!(ends_with("a.weight", ".weight"));
    assert!(!ends_with("weights", "weight"));
    assert!(!ends_with("t", "weight"));
}
