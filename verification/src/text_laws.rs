//! What holds of segmentation as a whole.

use crate::chars;
use crate::text;
use vstd::prelude::*;

verus! {

/// No character of `s` is white space.
pub open spec fn unbroken(s: Seq<char>) -> bool {
    forall|i: int| 0 <= i < s.len() ==> !chars::white_space(#[trigger] s[i])
}

/// Within the budget, or a single character.
pub open spec fn fits(s: Seq<char>, max: nat) -> bool {
    chars::byte_len(s) <= max || s.len() == 1
}

/// Every text of `ss` is within the budget or a single character.
pub open spec fn all_fit(ss: Seq<Seq<char>>, max: nat) -> bool {
    forall|i: int| 0 <= i < ss.len() ==> fits(#[trigger] ss[i], max)
}

/// Starts and ends with a character that is not white space.
pub open spec fn trim_and_full(s: Seq<char>) -> bool {
    s.len() > 0 && !chars::white_space(s[0]) && !chars::white_space(s.last())
}

/// The characters of `s` that are not white space, in order.
pub open spec fn ink(s: Seq<char>) -> Seq<char> {
    s.filter(|c: char| !chars::white_space(c))
}

/// The ink of several texts, one behind the other.
pub open spec fn inks(ss: Seq<Seq<char>>) -> Seq<char>
    decreases ss.len(),
{
    if ss.len() == 0 {
        Seq::empty()
    } else {
        inks(ss.drop_last()) + ink(ss.last())
    }
}

proof fn lemma_ink_add(a: Seq<char>, b: Seq<char>)
    ensures
        ink(a + b) == ink(a) + ink(b),
{
    Seq::filter_distributes_over_add(a, b, |c: char| !chars::white_space(c));
}

proof fn lemma_ink_empty()
    ensures
        ink(Seq::empty()) == Seq::<char>::empty(),
{
    reveal(Seq::filter);
}

proof fn lemma_ink_one(c: char)
    ensures
        chars::white_space(c) ==> ink(seq![c]) == Seq::<char>::empty(),
        !chars::white_space(c) ==> ink(seq![c]) == seq![c],
{
    reveal(Seq::filter);
    assert(seq![c].drop_last() =~= Seq::<char>::empty());
    lemma_ink_empty();
}

proof fn lemma_ink_push(s: Seq<char>, c: char)
    ensures
        ink(s.push(c)) == if chars::white_space(c) {
            ink(s)
        } else {
            ink(s).push(c)
        },
{
    assert(s.push(c) =~= s + seq![c]);
    lemma_ink_add(s, seq![c]);
    lemma_ink_one(c);
    assert(ink(s) + seq![c] =~= ink(s).push(c));
    assert(ink(s) + Seq::empty() =~= ink(s));
}

proof fn lemma_inks_push(ss: Seq<Seq<char>>, s: Seq<char>)
    ensures
        inks(ss.push(s)) == inks(ss) + ink(s),
{
    assert(ss.push(s).drop_last() =~= ss);
}

proof fn lemma_inks_add(a: Seq<Seq<char>>, b: Seq<Seq<char>>)
    ensures
        inks(a + b) == inks(a) + inks(b),
    decreases b.len(),
{
    if b.len() == 0 {
        assert(a + b =~= a);
        assert(inks(a) + Seq::empty() =~= inks(a));
    } else {
        assert((a + b).drop_last() =~= a + b.drop_last());
        lemma_inks_add(a, b.drop_last());
        assert((inks(a) + inks(b.drop_last())) + ink(b.last()) =~= inks(a) + (inks(b.drop_last())
            + ink(b.last())));
    }
}

proof fn lemma_trimmed_end(s: Seq<char>)
    ensures
        ink(text::trimmed_end(s)) == ink(s),
        chars::byte_len(text::trimmed_end(s)) <= chars::byte_len(s),
        text::trimmed_end(s).len() <= s.len(),
        text::trimmed_end(s).len() > 0 ==> !chars::white_space(text::trimmed_end(s).last())
            && text::trimmed_end(s)[0] == s[0],
    decreases s.len(),
{
    if s.len() > 0 && chars::white_space(s.last()) {
        lemma_trimmed_end(s.drop_last());
        assert(s =~= s.drop_last().push(s.last()));
        lemma_ink_push(s.drop_last(), s.last());
        assert(s =~= s.drop_last() + seq![s.last()]);
        chars::lemma_byte_len_concat(s.drop_last(), seq![s.last()]);
    }
}

proof fn lemma_trimmed_start(s: Seq<char>)
    ensures
        ink(text::trimmed_start(s)) == ink(s),
        chars::byte_len(text::trimmed_start(s)) <= chars::byte_len(s),
        text::trimmed_start(s).len() <= s.len(),
        text::trimmed_start(s).len() > 0 ==> !chars::white_space(text::trimmed_start(s)[0]),
    decreases s.len(),
{
    if s.len() > 0 && chars::white_space(s[0]) {
        lemma_trimmed_start(s.drop_first());
        assert(s =~= seq![s[0]] + s.drop_first());
        lemma_ink_add(seq![s[0]], s.drop_first());
        lemma_ink_one(s[0]);
        assert(Seq::empty() + ink(s.drop_first()) =~= ink(s.drop_first()));
        chars::lemma_byte_len_concat(seq![s[0]], s.drop_first());
    }
}

pub(crate) proof fn lemma_trimmed(s: Seq<char>, max: nat)
    ensures
        ink(text::trimmed(s)) == ink(s),
        fits(s, max) ==> fits(text::trimmed(s), max),
        text::trimmed(s).len() > 0 ==> trim_and_full(text::trimmed(s)),
        text::trimmed(s).len() == 0 ==> ink(s) == Seq::<char>::empty(),
{
    lemma_trimmed_start(s);
    lemma_trimmed_end(text::trimmed_start(s));
    lemma_ink_empty();
    if text::trimmed(s).len() == 0 {
        assert(text::trimmed(s) =~= Seq::<char>::empty());
    }
}

/// Each word is unbroken and not empty, and the words hold all the ink.
pub proof fn lemma_words(s: Seq<char>)
    ensures
        inks(text::words(s)) == ink(s),
        forall|i: int|
            0 <= i < text::words(s).len() ==> unbroken(#[trigger] text::words(s)[i])
                && text::words(s)[i].len() > 0,
        s.len() > 0 && !chars::white_space(s.last()) ==> text::words(s).len() > 0,
    decreases s.len(),
{
    if s.len() == 0 {
        lemma_ink_empty();
        assert(s =~= Seq::<char>::empty());
    } else {
        let p = s.drop_last();
        let c = s.last();
        let before = text::words(p);
        lemma_words(p);
        assert(s =~= p.push(c));
        lemma_ink_push(p, c);
        if chars::white_space(c) {
        } else if s.len() == 1 || chars::white_space(s[s.len() - 2]) {
            lemma_inks_push(before, seq![c]);
            lemma_ink_one(c);
            assert(ink(p) + seq![c] =~= ink(p).push(c));
        } else {
            assert(p.last() == s[s.len() - 2]);
            let grown = before.last().push(c);
            let after = before.update(before.len() - 1, grown);
            assert(after.drop_last() =~= before.drop_last());
            lemma_ink_push(before.last(), c);
            assert(inks(before.drop_last()) + ink(before.last()).push(c) =~= (inks(
                before.drop_last(),
            ) + ink(before.last())).push(c));
        }
    }
}

/// The runs of a word hold its ink, and each is within the budget or a single character.
proof fn lemma_word_runs(s: Seq<char>, max: nat)
    ensures
        inks(text::word_runs(s, max)) == ink(s),
        all_fit(text::word_runs(s, max), max),
    decreases s.len(),
{
    if s.len() == 0 {
        lemma_ink_empty();
        assert(s =~= Seq::<char>::empty());
    } else {
        let p = s.drop_last();
        let c = s.last();
        let before = text::word_runs(p, max);
        lemma_word_runs(p, max);
        assert(s =~= p.push(c));
        lemma_ink_push(p, c);
        if before.len() > 0 && chars::byte_len(before.last().push(c)) <= max {
            let grown = before.last().push(c);
            let after = before.update(before.len() - 1, grown);
            assert(after.drop_last() =~= before.drop_last());
            lemma_ink_push(before.last(), c);
            assert(inks(before.drop_last()) + ink(before.last()).push(c) =~= (inks(
                before.drop_last(),
            ) + ink(before.last())).push(c));
        } else {
            lemma_inks_push(before, seq![c]);
            lemma_ink_one(c);
            assert(ink(p) + seq![c] =~= ink(p).push(c));
            assert(ink(p) + Seq::empty() =~= ink(p));
        }
    }
}

proof fn lemma_all_word_runs(ws: Seq<Seq<char>>, max: nat)
    ensures
        inks(text::all_word_runs(ws, max)) == inks(ws),
        all_fit(text::all_word_runs(ws, max), max),
    decreases ws.len(),
{
    if ws.len() > 0 {
        lemma_all_word_runs(ws.drop_last(), max);
        lemma_word_runs(ws.last(), max);
        lemma_inks_add(
            text::all_word_runs(ws.drop_last(), max),
            text::word_runs(ws.last(), max),
        );
    }
}

/// Packing keeps the ink, keeps within the budget what fits it, and leaves no line blank.
pub proof fn lemma_packing(pieces: Seq<Seq<char>>, max: nat)
    ensures
        ({
            let p = text::packing(pieces, max);
            &&& inks(p.full) + ink(p.line) == inks(pieces)
            &&& all_fit(pieces, max) ==> all_fit(p.full, max) && (p.line.len() > 0 ==> fits(
                p.line,
                max,
            ))
            &&& forall|i: int| 0 <= i < p.full.len() ==> trim_and_full(#[trigger] p.full[i])
            &&& p.line.len() > 0 ==> trim_and_full(p.line)
        }),
    decreases pieces.len(),
{
    let p = text::packing(pieces, max);
    if pieces.len() == 0 {
        lemma_ink_empty();
        assert(inks(p.full) + ink(p.line) =~= Seq::<char>::empty());
    } else {
        let q = text::packing(pieces.drop_last(), max);
        let t = text::trimmed(pieces.last());
        lemma_packing(pieces.drop_last(), max);
        lemma_trimmed(pieces.last(), max);
        lemma_ink_empty();
        assert(all_fit(pieces, max) ==> all_fit(pieces.drop_last(), max));
        assert(all_fit(pieces, max) ==> fits(pieces.last(), max));
        if t.len() == 0 {
            assert(inks(pieces.drop_last()) + Seq::empty() =~= inks(pieces.drop_last()));
        } else if q.line.len() == 0 {
            assert(q.line =~= Seq::<char>::empty());
            assert(inks(q.full) + Seq::empty() =~= inks(q.full));
        } else if chars::byte_len(q.line) + 1 + chars::byte_len(t) > max {
            lemma_inks_push(q.full, q.line);
        } else {
            lemma_ink_push(q.line, ' ');
            lemma_ink_add(q.line.push(' '), t);
            assert(inks(q.full) + (ink(q.line) + ink(t)) =~= (inks(q.full) + ink(q.line)) + ink(t));
            assert(q.line.push(' ') =~= q.line + seq![' ']);
            chars::lemma_byte_len_concat(q.line, seq![' ']);
            chars::lemma_byte_len_concat(q.line.push(' '), t);
            chars::lemma_byte_len_one(' ');
        }
    }
}

pub proof fn lemma_packed(pieces: Seq<Seq<char>>, max: nat)
    ensures
        inks(text::packed(pieces, max)) == inks(pieces),
        all_fit(pieces, max) ==> all_fit(text::packed(pieces, max), max),
        forall|i: int|
            0 <= i < text::packed(pieces, max).len() ==> trim_and_full(
                #[trigger] text::packed(pieces, max)[i],
            ),
{
    lemma_packing(pieces, max);
    let p = text::packing(pieces, max);
    if p.line.len() == 0 {
        lemma_ink_empty();
        assert(p.line =~= Seq::<char>::empty());
        assert(inks(p.full) + Seq::empty() =~= inks(p.full));
    } else {
        lemma_inks_push(p.full, p.line);
    }
}

proof fn lemma_clauses_open(s: Seq<char>)
    ensures
        inks(text::clauses_open(s).0) + ink(text::clauses_open(s).1) == ink(s),
    decreases s.len(),
{
    lemma_ink_empty();
    if s.len() == 0 {
        assert(s =~= Seq::<char>::empty());
        assert(inks(text::clauses_open(s).0) + ink(text::clauses_open(s).1) =~= ink(s));
    } else {
        let (done, rest) = text::clauses_open(s.drop_last());
        lemma_clauses_open(s.drop_last());
        assert(s =~= s.drop_last().push(s.last()));
        lemma_ink_push(s.drop_last(), s.last());
        lemma_ink_push(rest, s.last());
        assert(inks(done) + ink(rest).push(s.last()) =~= (inks(done) + ink(rest)).push(s.last()));
        if text::clause_mark(s.last()) {
            lemma_inks_push(done, rest.push(s.last()));
            assert(inks(done.push(rest.push(s.last()))) + Seq::empty() =~= inks(
                done.push(rest.push(s.last())),
            ));
        }
    }
}

proof fn lemma_clauses(s: Seq<char>)
    ensures
        inks(text::clauses(s)) == ink(s),
{
    let (done, rest) = text::clauses_open(s);
    lemma_clauses_open(s);
    lemma_trimmed(rest, 0);
    if text::trimmed(rest).len() == 0 {
        assert(inks(done) + Seq::empty() =~= inks(done));
    } else {
        lemma_inks_push(done, rest);
    }
}

proof fn lemma_inks_single(s: Seq<char>)
    ensures
        inks(seq![s]) == ink(s),
{
    reveal_with_fuel(inks, 2);
    assert(seq![s].drop_last() =~= Seq::<Seq<char>>::empty());
    assert(Seq::empty() + ink(s) =~= ink(s));
}

proof fn lemma_all_clause_pieces(cs: Seq<Seq<char>>, max: nat)
    ensures
        inks(text::all_clause_pieces(cs, max)) == inks(cs),
        all_fit(text::all_clause_pieces(cs, max), max),
    decreases cs.len(),
{
    if cs.len() > 0 {
        lemma_all_clause_pieces(cs.drop_last(), max);
        let c = cs.last();
        lemma_words(c);
        lemma_all_word_runs(text::words(c), max);
        lemma_packed(text::all_word_runs(text::words(c), max), max);
        lemma_inks_single(c);
        lemma_inks_add(
            text::all_clause_pieces(cs.drop_last(), max),
            text::clause_pieces(c, max),
        );
    }
}

/// Breaking a sentence up keeps its ink, and every piece is within the budget or a single
/// character.
pub proof fn lemma_long_split(s: Seq<char>, max: nat)
    ensures
        inks(text::long_split(s, max)) == ink(s),
        all_fit(text::long_split(s, max), max),
{
    if chars::byte_len(s) <= max {
        lemma_inks_single(s);
    } else {
        lemma_clauses(s);
        lemma_all_clause_pieces(text::clauses(s), max);
        lemma_packed(text::all_clause_pieces(text::clauses(s), max), max);
    }
}

proof fn lemma_all_long_splits(ss: Seq<Seq<char>>, max: nat)
    ensures
        inks(text::all_long_splits(ss, max)) == inks(ss),
        all_fit(text::all_long_splits(ss, max), max),
    decreases ss.len(),
{
    if ss.len() > 0 {
        lemma_all_long_splits(ss.drop_last(), max);
        let t = text::trimmed(ss.last());
        lemma_trimmed(ss.last(), max);
        lemma_long_split(t, max);
        lemma_inks_add(text::all_long_splits(ss.drop_last(), max), text::long_split(t, max));
    }
}

proof fn lemma_cut_from(v: Seq<char>, ends: Seq<Option<int>>, start: int, i: int)
    requires
        text::boundaries_ok(v.len(), ends),
        0 <= start <= i <= v.len(),
    ensures
        inks(text::cut_from(v, ends, start, i)) == ink(v.subrange(start, v.len() as int)),
    decreases v.len() - i,
{
    let rest = v.subrange(start, v.len() as int);
    if i >= v.len() {
        lemma_trimmed(rest, 0);
        lemma_inks_single(rest);
    } else {
        match ends[i] {
            Some(e) => {
                lemma_cut_from(v, ends, e, e);
                let one = v.subrange(start, e);
                let more = text::cut_from(v, ends, e, e);
                lemma_inks_add(seq![one], more);
                lemma_inks_single(one);
                assert(rest =~= one + v.subrange(e, v.len() as int));
                lemma_ink_add(one, v.subrange(e, v.len() as int));
            },
            None => {
                lemma_cut_from(v, ends, start, i + 1);
            },
        }
    }
}

proof fn lemma_closers_end(v: Seq<char>, j: int)
    requires
        0 <= j <= v.len(),
    ensures
        j <= text::closers_end(v, j) <= v.len(),
    decreases v.len() - j,
{
    if j < v.len() && text::closer(v[j]) {
        lemma_closers_end(v, j + 1);
    }
}

proof fn lemma_boundaries_ok(v: Seq<char>)
    ensures
        text::boundaries_ok(v.len(), text::boundaries(v)),
{
    let ends = text::boundaries(v);
    assert forall|k: int| 0 <= k < v.len() && (#[trigger] ends[k]) is Some implies k < ends[k]->0
        <= v.len() by {
        lemma_closers_end(v, k + 1);
    }
}

proof fn lemma_line_segments(line: Seq<char>, max: nat)
    ensures
        inks(text::line_segments(line, max)) == ink(text::prepared(line)),
        all_fit(text::line_segments(line, max), max),
        forall|i: int|
            0 <= i < text::line_segments(line, max).len() ==> trim_and_full(
                #[trigger] text::line_segments(line, max)[i],
            ),
{
    let v = text::prepared(line);
    let ends = text::boundaries(v);
    lemma_boundaries_ok(v);
    lemma_cut_from(v, ends, 0, 0);
    assert(v.subrange(0, v.len() as int) =~= v);
    let cut = text::cut_from(v, ends, 0, 0);
    lemma_all_long_splits(cut, max);
    lemma_packed(text::all_long_splits(cut, max), max);
}

/// A segment is at most `max` bytes long, or it is a single character that alone is longer; so
/// under a budget of four bytes or more no segment is over it.
pub proof fn segments_within_budget(s: Seq<char>, max: nat, para: int, k: int)
    requires
        0 <= para < text::segmented(s, max).len(),
        0 <= k < text::segmented(s, max)[para].len(),
    ensures
        fits(text::segmented(s, max)[para][k], max),
        max >= 4 ==> chars::byte_len(text::segmented(s, max)[para][k]) <= max,
{
    let lines = text::split_at_char(s, '\n');
    lemma_paragraph_is_a_line(lines, max, para);
    let n = choose|n: int|
        0 <= n < lines.len() && text::lines_segments(lines, max)[para] == text::line_segments(
            #[trigger] lines[n],
            max,
        );
    lemma_line_segments(lines[n], max);
    let segment = text::segmented(s, max)[para][k];
    if segment.len() == 1 {
        chars::lemma_byte_len_one(segment[0]);
        assert(segment =~= seq![segment[0]]);
    }
}

proof fn lemma_paragraph_is_a_line(lines: Seq<Seq<char>>, max: nat, para: int)
    requires
        0 <= para < text::lines_segments(lines, max).len(),
    ensures
        exists|n: int|
            0 <= n < lines.len() && text::lines_segments(lines, max)[para] == text::line_segments(
                #[trigger] lines[n],
                max,
            ) && text::line_segments(lines[n], max).len() > 0,
    decreases lines.len(),
{
    let before = text::lines_segments(lines.drop_last(), max);
    if para < before.len() {
        lemma_paragraph_is_a_line(lines.drop_last(), max, para);
        let n = choose|n: int|
            0 <= n < lines.drop_last().len() && before[para] == text::line_segments(
                #[trigger] lines.drop_last()[n],
                max,
            ) && text::line_segments(lines.drop_last()[n], max).len() > 0;
        assert(lines[n] == lines.drop_last()[n]);
    } else {
        assert(lines[lines.len() - 1] == lines.last());
    }
}

/// Every paragraph has a segment, and every segment starts and ends with a character that is
/// not white space.
pub proof fn segments_are_trimmed(s: Seq<char>, max: nat, para: int)
    requires
        0 <= para < text::segmented(s, max).len(),
    ensures
        text::segmented(s, max)[para].len() > 0,
        forall|k: int|
            0 <= k < text::segmented(s, max)[para].len() ==> trim_and_full(
                #[trigger] text::segmented(s, max)[para][k],
            ),
{
    let lines = text::split_at_char(s, '\n');
    lemma_paragraph_is_a_line(lines, max, para);
    let n = choose|n: int|
        0 <= n < lines.len() && text::lines_segments(lines, max)[para] == text::line_segments(
            #[trigger] lines[n],
            max,
        ) && text::line_segments(lines[n], max).len() > 0;
    lemma_line_segments(lines[n], max);
}

/// Nothing is left unspoken: the segments of a line hold, in order, every character of the
/// prepared line that is not white space.
pub proof fn segments_keep_the_text(line: Seq<char>, max: nat)
    ensures
        inks(text::line_segments(line, max)) == ink(text::prepared(line)),
{
    lemma_line_segments(line, max);
}

/// The ink of several paragraphs, one behind the other.
pub open spec fn paragraph_inks(ps: Seq<Seq<Seq<char>>>) -> Seq<char>
    decreases ps.len(),
{
    if ps.len() == 0 {
        Seq::empty()
    } else {
        paragraph_inks(ps.drop_last()) + inks(ps.last())
    }
}

/// The ink of several lines as they are prepared, one behind the other.
pub open spec fn prepared_inks(lines: Seq<Seq<char>>) -> Seq<char>
    decreases lines.len(),
{
    if lines.len() == 0 {
        Seq::empty()
    } else {
        prepared_inks(lines.drop_last()) + ink(text::prepared(lines.last()))
    }
}

proof fn lemma_lines_keep_the_text(lines: Seq<Seq<char>>, max: nat)
    ensures
        paragraph_inks(text::lines_segments(lines, max)) == prepared_inks(lines),
    decreases lines.len(),
{
    if lines.len() > 0 {
        lemma_lines_keep_the_text(lines.drop_last(), max);
        lemma_line_segments(lines.last(), max);
        let before = text::lines_segments(lines.drop_last(), max);
        let segments = text::line_segments(lines.last(), max);
        if segments.len() == 0 {
            assert(paragraph_inks(before) + Seq::empty() =~= paragraph_inks(before));
        } else {
            assert(before.push(segments).drop_last() =~= before);
        }
    }
}

/// The segments of a whole text hold, in order, every character of its prepared lines that is
/// not white space.
pub proof fn segmentation_keeps_the_text(s: Seq<char>, max: nat)
    ensures
        paragraph_inks(text::segmented(s, max)) == prepared_inks(text::split_at_char(s, '\n')),
{
    lemma_lines_keep_the_text(text::split_at_char(s, '\n'), max);
}

/// No period follows a period.
pub open spec fn dots_apart(s: Seq<char>) -> bool {
    forall|i: int, j: int|
        0 <= i && j == i + 1 && j < s.len() && (#[trigger] s[i]) == '.' ==> (#[trigger] s[j]) != '.'
}

/// Collapsing leaves no two periods in a row.
pub proof fn collapsed_dots_are_apart(s: Seq<char>)
    ensures
        dots_apart(text::single_dots(s)),
        text::single_dots(s).len() > 0 <==> s.len() > 0,
        s.len() > 0 ==> text::single_dots(s).last() == s.last(),
    decreases s.len(),
{
    if s.len() > 0 {
        collapsed_dots_are_apart(s.drop_last());
    }
}

/// Collapsing leaves alone a text without two periods in a row; so it is idempotent.
pub proof fn collapsing_dots_is_idempotent(s: Seq<char>)
    ensures
        dots_apart(s) ==> text::single_dots(s) == s,
        text::single_dots(text::single_dots(s)) == text::single_dots(s),
{
    collapsed_dots_are_apart(s);
    if dots_apart(s) {
        lemma_dots_apart_stay(s);
    }
    lemma_dots_apart_stay(text::single_dots(s));
}

proof fn lemma_dots_apart_stay(s: Seq<char>)
    requires
        dots_apart(s),
    ensures
        text::single_dots(s) == s,
    decreases s.len(),
{
    if s.len() > 0 {
        assert(dots_apart(s.drop_last()));
        lemma_dots_apart_stay(s.drop_last());
        assert(s =~= s.drop_last().push(s.last()));
        if s.len() >= 2 {
            assert(s[s.len() - 2] == '.' ==> s[s.len() - 1] != '.');
        }
    } else {
        assert(s =~= Seq::<char>::empty());
    }
}

proof fn lemma_words_after_gap(a: Seq<char>, w: Seq<char>)
    requires
        unbroken(w),
        w.len() > 0,
        a.len() == 0 || chars::white_space(a.last()),
    ensures
        text::words(a + w) == text::words(a).push(w),
    decreases w.len(),
{
    let s = a + w;
    let p = w.drop_last();
    assert(s.drop_last() =~= a + p);
    assert(s.last() == w.last());
    if w.len() == 1 {
        assert(a + p =~= a);
        assert(s.len() >= 2 ==> s[s.len() - 2] == a.last());
        assert(seq![w.last()] =~= w);
    } else {
        assert(unbroken(p)) by {
            assert forall|i: int| 0 <= i < p.len() implies !chars::white_space(#[trigger] p[i]) by {
                assert(p[i] == w[i]);
            }
        }
        lemma_words_after_gap(a, p);
        assert(s[s.len() - 2] == w[w.len() - 2]);
        let before = text::words(a).push(p);
        assert(p.push(w.last()) =~= w);
        assert(before.update(before.len() - 1, w) =~= text::words(a).push(w));
    }
}

pub(crate) proof fn lemma_words_joined(ws: Seq<Seq<char>>)
    requires
        forall|i: int| 0 <= i < ws.len() ==> unbroken(#[trigger] ws[i]) && ws[i].len() > 0,
    ensures
        text::words(text::joined(ws)) == ws,
    decreases ws.len(),
{
    if ws.len() == 0 {
    } else if ws.len() == 1 {
        lemma_words_after_gap(Seq::empty(), ws[0]);
        assert(Seq::empty() + ws[0] =~= ws[0]);
        assert(text::words(Seq::empty()).push(ws[0]) =~= ws);
    } else {
        let a = text::joined(ws.drop_last());
        lemma_words_joined(ws.drop_last());
        assert(a.push(' ').drop_last() =~= a);
        assert(text::words(a.push(' ')) == text::words(a));
        lemma_words_after_gap(a.push(' '), ws.last());
        assert(ws.drop_last().push(ws.last()) =~= ws);
    }
}

/// Cleaning keeps the words of a text, so cleaning twice is cleaning once.
pub proof fn cleaning_keeps_the_words(s: Seq<char>)
    ensures
        text::words(text::joined(text::words(s))) == text::words(s),
        text::joined(text::words(text::joined(text::words(s)))) == text::joined(text::words(s)),
{
    lemma_words(s);
    lemma_words_joined(text::words(s));
}

/// Cleaning drops nothing but white space: where no two periods meet, the segments of a line
/// hold exactly the characters of the line that are not white space.
pub proof fn segments_keep_the_line(line: Seq<char>, max: nat)
    requires
        dots_apart(text::joined(text::words(line))),
    ensures
        inks(text::line_segments(line, max)) == ink(line),
{
    lemma_line_segments(line, max);
    lemma_words(line);
    collapsing_dots_is_idempotent(text::joined(text::words(line)));
    lemma_ink_joined(text::words(line));
}

proof fn lemma_ink_joined(ws: Seq<Seq<char>>)
    ensures
        ink(text::joined(ws)) == inks(ws),
    decreases ws.len(),
{
    if ws.len() == 0 {
        lemma_ink_empty();
    } else if ws.len() == 1 {
        lemma_inks_single(ws[0]);
        assert(ws =~= seq![ws[0]]);
    } else {
        let a = text::joined(ws.drop_last());
        lemma_ink_joined(ws.drop_last());
        lemma_ink_push(a, ' ');
        lemma_ink_add(a.push(' '), ws.last());
    }
}

} // verus!
