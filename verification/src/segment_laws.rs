//! Where a text is broken, in terms of its characters.

use crate::chars;
use crate::text;
use crate::text_laws;
use vstd::prelude::*;

verus! {

/// A quote or bracket that closes.
pub open spec fn closes(c: char) -> bool {
    c == '"' || c == '\'' || c == ')' || c == ']' || c == '\u{201d}' || c == '\u{2019}'
}

/// The words whose period is their own.
pub open spec fn shortened(w: Seq<char>) -> bool {
    ||| w == "fig"@ || w == "figs"@ || w == "eq"@ || w == "eqs"@ || w == "tab"@ || w == "sec"@
    ||| w == "secs"@ || w == "ch"@ || w == "chs"@ || w == "no"@ || w == "nos"@ || w == "vol"@
    ||| w == "vols"@ || w == "pp"@ || w == "p"@ || w == "al"@ || w == "cf"@ || w == "eg"@
    ||| w == "ie"@ || w == "dr"@ || w == "mr"@ || w == "mrs"@ || w == "ms"@ || w == "prof"@
    ||| w == "st"@ || w == "approx"@ || w == "ca"@ || w == "etc"@ || w == "vs"@ || w == "resp"@
    ||| w == "inc"@ || w == "ltd"@ || w == "co"@ || w == "est"@ || w == "jan"@ || w == "feb"@
    ||| w == "mar"@ || w == "apr"@ || w == "jun"@ || w == "jul"@ || w == "aug"@ || w == "sep"@
    ||| w == "sept"@ || w == "oct"@ || w == "nov"@ || w == "dec"@
}

/// The letters and digits from `w` up to `k` are a whole word, and one that is shortened.
pub open spec fn shortened_from(v: Seq<char>, w: int, k: int) -> bool {
    &&& 0 <= w < k <= v.len()
    &&& forall|i: int| w <= i < k ==> chars::alphanumeric(#[trigger] v[i])
    &&& w == 0 || !chars::alphanumeric(v[w - 1])
    &&& shortened(chars::lowercased(v.subrange(w, k)))
}

/// Behind the white space from `j` on, the text goes on in lower case at `n`.
pub open spec fn goes_on(v: Seq<char>, j: int, n: int) -> bool {
    &&& j <= n < v.len()
    &&& forall|i: int| j <= i < n ==> chars::white_space(#[trigger] v[i])
    &&& !chars::white_space(v[n])
    &&& chars::lowercase(v[n])
}

/// A sentence whose mark stands at `k` stops at `j`: the mark is a period, an exclamation mark or a
/// question mark, nothing but closing quotes and brackets stands between it and `j`, and there the
/// text ends or has a gap and does not go on in lower case. The period of a shortened word is no
/// such mark.
pub open spec fn stops(v: Seq<char>, k: int, j: int) -> bool {
    &&& 0 <= k < j <= v.len()
    &&& v[k] == '.' || v[k] == '!' || v[k] == '?'
    &&& forall|i: int| k < i < j ==> closes(#[trigger] v[i])
    &&& j == v.len() || chars::white_space(v[j]) && !exists|n: int| goes_on(v, j, n)
    &&& v[k] == '.' ==> !exists|w: int| shortened_from(v, w, k)
}

proof fn lemma_closers(v: Seq<char>, j: int)
    requires
        0 <= j <= v.len(),
    ensures
        j <= text::closers_end(v, j) <= v.len(),
        forall|i: int| j <= i < text::closers_end(v, j) ==> closes(#[trigger] v[i]),
        text::closers_end(v, j) == v.len() || !closes(v[text::closers_end(v, j)]),
    decreases v.len() - j,
{
    if j < v.len() && text::closer(v[j]) {
        lemma_closers(v, j + 1);
    }
}

proof fn lemma_blanks(v: Seq<char>, j: int)
    requires
        0 <= j <= v.len(),
    ensures
        j <= text::blanks_end(v, j) <= v.len(),
        forall|i: int| j <= i < text::blanks_end(v, j) ==> chars::white_space(#[trigger] v[i]),
        text::blanks_end(v, j) == v.len() || !chars::white_space(v[text::blanks_end(v, j)]),
    decreases v.len() - j,
{
    if j < v.len() && chars::white_space(v[j]) {
        lemma_blanks(v, j + 1);
    }
}

proof fn lemma_word_start(v: Seq<char>, i: int)
    requires
        0 <= i <= v.len(),
    ensures
        0 <= text::word_start(v, i) <= i,
        forall|k: int| text::word_start(v, i) <= k < i ==> chars::alphanumeric(#[trigger] v[k]),
        text::word_start(v, i) == 0 || !chars::alphanumeric(v[text::word_start(v, i) - 1]),
    decreases i,
{
    if 0 < i && chars::alphanumeric(v[i - 1]) {
        lemma_word_start(v, i - 1);
    }
}

proof fn lemma_shortened(v: Seq<char>, k: int)
    requires
        0 <= k <= v.len(),
    ensures
        text::abbreviation_at(v, k) <==> exists|w: int| shortened_from(v, w, k),
{
    let s = text::word_start(v, k);
    lemma_word_start(v, k);
    if text::abbreviation_at(v, k) {
        assert(shortened_from(v, s, k));
    }
    if exists|w: int| shortened_from(v, w, k) {
        let w = choose|w: int| shortened_from(v, w, k);
        if w < s {
            assert(chars::alphanumeric(v[s - 1]));
        } else if s < w {
            assert(chars::alphanumeric(v[w - 1]));
        }
    }
}

proof fn lemma_goes_on(v: Seq<char>, i: int)
    requires
        0 <= i <= v.len(),
    ensures
        text::continues_at(v, i) <==> exists|n: int| goes_on(v, text::closers_end(v, i), n),
{
    let j = text::closers_end(v, i);
    lemma_closers(v, i);
    lemma_blanks(v, j);
    let b = text::blanks_end(v, j);
    if text::continues_at(v, i) {
        assert(goes_on(v, j, b));
    }
    if exists|n: int| goes_on(v, j, n) {
        let n = choose|n: int| goes_on(v, j, n);
        if n < b {
            assert(chars::white_space(v[n]));
        } else if b < n {
            assert(chars::white_space(v[b]));
        }
    }
}

/// A sentence ends behind its mark and the closers that follow it, and nowhere else.
pub proof fn sentences_end_behind_their_marks(v: Seq<char>, k: int, j: int)
    requires
        0 <= k < v.len(),
    ensures
        text::boundaries(v).len() == v.len(),
        text::boundaries(v)[k] == Some(j) <==> stops(v, k, j),
{
    let e = text::closers_end(v, k + 1);
    lemma_closers(v, k + 1);
    lemma_shortened(v, k);
    lemma_goes_on(v, k + 1);
    if stops(v, k, j) {
        if j < e {
            assert(closes(v[j]));
            assert(!chars::white_space(v[j]));
        } else if e < j {
            assert(closes(v[e]));
        }
    }
}

/// White space is one space at a time, and none stands in front.
pub open spec fn one_space_at_a_time(s: Seq<char>) -> bool {
    &&& s.len() > 0 ==> !chars::white_space(s[0])
    &&& forall|i: int| 0 <= i < s.len() && chars::white_space(#[trigger] s[i]) ==> s[i] == ' '
    &&& forall|i: int, j: int|
        0 <= i && j == i + 1 && j < s.len() && chars::white_space(#[trigger] s[i])
            ==> !chars::white_space(#[trigger] s[j])
}

proof fn lemma_joined_spaces(ws: Seq<Seq<char>>)
    requires
        forall|i: int|
            0 <= i < ws.len() ==> text_laws::unbroken(#[trigger] ws[i]) && ws[i].len() > 0,
    ensures
        one_space_at_a_time(text::joined(ws)),
        ws.len() > 0 ==> text::joined(ws).len() > 0 && !chars::white_space(
            text::joined(ws).last(),
        ),
    decreases ws.len(),
{
    let s = text::joined(ws);
    if ws.len() == 1 {
        assert(text_laws::unbroken(ws[0]));
    } else if ws.len() > 1 {
        let a = text::joined(ws.drop_last());
        let w = ws.last();
        lemma_joined_spaces(ws.drop_last());
        assert(text_laws::unbroken(ws[ws.len() - 1]));
        assert(s == a.push(' ') + w);
        assert(s.last() == w[w.len() - 1]);
        assert forall|i: int| 0 <= i < s.len() && chars::white_space(#[trigger] s[i]) implies s[i]
            == ' ' by {
            if i < a.len() {
                assert(s[i] == a[i]);
            } else if i > a.len() {
                assert(s[i] == w[i - a.len() - 1]);
            }
        }
        assert forall|i: int, j: int|
            0 <= i && j == i + 1 && j < s.len() && chars::white_space(#[trigger] s[i]) implies
            !chars::white_space(#[trigger] s[j]) by {
            if j < a.len() {
                assert(s[i] == a[i] && s[j] == a[j]);
            } else if j == a.len() {
                assert(s[i] == a.last());
            } else {
                assert(s[j] == w[j - a.len() - 1]);
            }
        }
        assert(s[0] == a[0]);
    }
}

proof fn lemma_dots_spaces(s: Seq<char>)
    requires
        one_space_at_a_time(s),
    ensures
        one_space_at_a_time(text::single_dots(s)),
        s.len() > 0 ==> text::single_dots(s).len() > 0 && text::single_dots(s).last() == s.last()
            && text::single_dots(s)[0] == s[0],
    decreases s.len(),
{
    if s.len() > 0 {
        let p = s.drop_last();
        let before = text::single_dots(p);
        let out = text::single_dots(s);
        assert(one_space_at_a_time(p)) by {
            assert forall|i: int, j: int|
                0 <= i && j == i + 1 && j < p.len() && chars::white_space(#[trigger] p[i]) implies
                !chars::white_space(#[trigger] p[j]) by {
                assert(p[i] == s[i] && p[j] == s[j]);
            }
        }
        lemma_dots_spaces(p);
        if out != before {
            let c = s.last();
            assert(out == before.push(c));
            assert forall|i: int, j: int|
                0 <= i && j == i + 1 && j < out.len() && chars::white_space(#[trigger] out[i])
                implies !chars::white_space(#[trigger] out[j]) by {
                if j < before.len() {
                    assert(out[i] == before[i] && out[j] == before[j]);
                } else {
                    assert(out[i] == p.last());
                    assert(s[s.len() - 2] == p.last() && s[s.len() - 1] == c);
                }
            }
        }
    }
}

/// A prepared line has single spaces between its words, and none at its ends.
pub proof fn a_prepared_line_is_evenly_spaced(line: Seq<char>)
    ensures
        one_space_at_a_time(text::prepared(line)),
        text::prepared(line).len() > 0 ==> !chars::white_space(text::prepared(line).last()),
{
    let ws = text::words(line);
    text_laws::lemma_words(line);
    lemma_joined_spaces(ws);
    lemma_dots_spaces(text::joined(ws));
    if ws.len() == 0 {
        assert(text::joined(ws).len() == 0);
    }
}

/// Sentence `i` of a text whose sentences stop at `at`, without the space in front of it.
pub open spec fn sentence(v: Seq<char>, at: Seq<int>, i: int) -> Seq<char> {
    v.subrange(
        if i == 0 {
            0
        } else {
            at[i] + 1
        },
        at[i + 1],
    )
}

/// `at` lists where the sentences of a text stop, from its start to its end.
pub open spec fn stops_listed(v: Seq<char>, at: Seq<int>) -> bool {
    &&& at.len() >= 2
    &&& at[0] == 0
    &&& at.last() == v.len()
    &&& forall|i: int, j: int| 0 <= i < j < at.len() ==> #[trigger] at[i] < #[trigger] at[j]
    &&& forall|e: int|
        0 < e < v.len() ==> (#[trigger] at.contains(e) <==> exists|k: int| stops(v, k, e))
}

proof fn lemma_trim_nothing(s: Seq<char>)
    requires
        s.len() > 0,
        !chars::white_space(s[0]),
        !chars::white_space(s.last()),
    ensures
        text::trimmed(s) == s,
{
}

proof fn lemma_trim_a_space(s: Seq<char>)
    requires
        s.len() > 1,
        chars::white_space(s[0]),
        !chars::white_space(s[1]),
        !chars::white_space(s.last()),
    ensures
        text::trimmed(s) == s.subrange(1, s.len() as int),
{
    let r = s.drop_first();
    assert(r =~= s.subrange(1, s.len() as int));
    assert(r[0] == s[1] && r.last() == s.last());
    assert(text::trimmed_start(s) == text::trimmed_start(r));
    assert(text::trimmed_start(r) == r);
}

/// Around a stop inside an evenly spaced text.
proof fn lemma_around_stop(v: Seq<char>, at: Seq<int>, i: int)
    requires
        one_space_at_a_time(v),
        v.len() > 0,
        !chars::white_space(v.last()),
        stops_listed(v, at),
        0 < i < at.len() - 1,
    ensures
        0 < at[i] < v.len() - 1,
        v[at[i]] == ' ',
        chars::white_space(v[at[i]]),
        !chars::white_space(v[at[i] - 1]),
        !chars::white_space(v[at[i] + 1]),
        at[i] + 1 < at[i + 1],
{
    let e = at[i];
    assert(at[0] < at[i] && at[i] < at[at.len() - 1]);
    assert(at.contains(e));
    let k = choose|k: int| stops(v, k, e);
    assert(chars::white_space(v[e]));
    if e == v.len() - 1 {
        assert(v[e] == v.last());
    }
    assert(!chars::white_space(v[e + 1]));
    if e - 1 > k {
        assert(closes(v[e - 1]));
    }
    assert(at[i] < at[i + 1]);
    if at[i + 1] == e + 1 {
        let f = at[i + 1];
        assert(at.contains(f));
        if f < v.len() {
            let q = choose|q: int| stops(v, q, f);
            if q < e {
                assert(closes(v[e]));
            }
        }
    }
}

/// A stretch without a boundary is passed over.
proof fn lemma_scan(v: Seq<char>, ends: Seq<Option<int>>, start: int, p: int, k: int)
    requires
        0 <= start <= p <= k <= v.len() == ends.len(),
        forall|i: int| p <= i < k ==> (#[trigger] ends[i]) is None,
    ensures
        text::cut_from(v, ends, start, p) == text::cut_from(v, ends, start, k),
    decreases k - p,
{
    if p < k {
        assert(ends[p] is None);
        lemma_scan(v, ends, start, p + 1, k);
    }
}

/// The stretches between the stops from the `i`-th on.
pub open spec fn stretches(v: Seq<char>, at: Seq<int>, i: int) -> Seq<Seq<char>> {
    Seq::new((at.len() - 1 - i) as nat, |t: int| v.subrange(at[i + t], at[i + t + 1]))
}

/// No boundary lies between a stop and the mark of the next one.
proof fn lemma_between_stops(v: Seq<char>, at: Seq<int>, i: int, k: int)
    requires
        one_space_at_a_time(v),
        v.len() > 0,
        !chars::white_space(v.last()),
        stops_listed(v, at),
        0 <= i < at.len() - 1,
        at[i] <= k <= at[i + 1],
        k < at[i + 1] ==> stops(v, k, at[i + 1]),
        k == at[i + 1] ==> k == v.len() && !exists|q: int| stops(v, q, v.len() as int),
    ensures
        forall|p: int| at[i] <= p < k ==> (#[trigger] text::boundaries(v)[p]) is None,
{
    let ends = text::boundaries(v);
    assert forall|p: int| at[i] <= p < k implies (#[trigger] ends[p]) is None by {
        assert(0 <= at[i]) by {
            if i > 0 {
                assert(at[0] < at[i]);
            }
        }
        if ends[p] is Some {
            let e = ends[p]->0;
            sentences_end_behind_their_marks(v, p, e);
            assert(stops(v, p, e));
            if e < v.len() {
                assert(at.contains(e));
                let q = choose|q: int| 0 <= q < at.len() && at[q] == e;
                if q <= i {
                    if q < i {
                        assert(at[q] < at[i]);
                    }
                    assert(false);
                } else if q > i + 1 {
                    assert(at[i + 1] < at[q]);
                }
            }
            assert(e >= at[i + 1]) by {
                if e == v.len() && i + 1 < at.len() - 1 {
                    assert(at[i + 1] < at[at.len() - 1]);
                }
            }
            if k < at[i + 1] {
                assert(closes(v[k]));
            }
        }
    }
}

/// The sentences are the stretches between the stops.
proof fn lemma_cut_at_stops(v: Seq<char>, at: Seq<int>, i: int)
    requires
        one_space_at_a_time(v),
        v.len() > 0,
        !chars::white_space(v.last()),
        stops_listed(v, at),
        0 <= i < at.len(),
    ensures
        text::cut_from(v, text::boundaries(v), at[i], at[i]) == stretches(v, at, i),
    decreases at.len() - i,
{
    let ends = text::boundaries(v);
    let start = at[i];
    assert(0 <= start <= v.len()) by {
        if i > 0 {
            assert(at[0] < at[i]);
        }
        if i < at.len() - 1 {
            assert(at[i] < at[at.len() - 1]);
        }
    }
    if i == at.len() - 1 {
        let rest = v.subrange(start, v.len() as int);
        assert(rest =~= Seq::<char>::empty());
        assert(text::trimmed(rest).len() == 0);
        assert(stretches(v, at, i) =~= Seq::<Seq<char>>::empty());
    } else {
        let e = at[i + 1];
        assert(start < e);
        lemma_cut_at_stops(v, at, i + 1);
        let more = stretches(v, at, i + 1);
        assert(stretches(v, at, i) =~= seq![v.subrange(start, e)] + more);
        if exists|k: int| stops(v, k, e) {
            let k = choose|k: int| stops(v, k, e);
            if k < start {
                assert(closes(v[start]));
                lemma_around_stop(v, at, i);
            }
            lemma_between_stops(v, at, i, k);
            lemma_scan(v, ends, start, start, k);
            sentences_end_behind_their_marks(v, k, e);
            assert(text::cut_from(v, ends, start, k) == seq![v.subrange(start, e)]
                + text::cut_from(v, ends, e, e));
        } else {
            assert(e == v.len()) by {
                if i + 1 < at.len() - 1 {
                    assert(at[i + 1] < at[at.len() - 1]);
                    assert(at[0] < at[i + 1]);
                    assert(at.contains(e));
                }
            }
            assert(i + 1 == at.len() - 1) by {
                if i + 1 < at.len() - 1 {
                    assert(at[i + 1] < at[at.len() - 1]);
                }
            }
            lemma_between_stops(v, at, i, e);
            lemma_scan(v, ends, start, start, e);
            let rest = v.subrange(start, e);
            assert(rest.last() == v.last());
            assert(text::trimmed(rest).len() > 0) by {
                text_laws::lemma_trimmed(rest, 0);
                if text::trimmed(rest).len() == 0 {
                    lemma_ink_of_last(rest);
                }
            }
            assert(text::cut_from(v, ends, start, e) == seq![rest]);
            assert(more =~= Seq::<Seq<char>>::empty());
        }
    }
}

proof fn lemma_ink_of_last(s: Seq<char>)
    requires
        s.len() > 0,
        !chars::white_space(s.last()),
    ensures
        text_laws::ink(s).len() > 0,
{
    let keep = |c: char| !chars::white_space(c);
    assert(s =~= s.drop_last() + seq![s.last()]);
    Seq::filter_distributes_over_add(s.drop_last(), seq![s.last()], keep);
    reveal(Seq::filter);
    assert(seq![s.last()].drop_last() =~= Seq::<char>::empty());
    assert(seq![s.last()].filter(keep).len() == 1);
}

/// The first `n` sentences, each on its own.
pub open spec fn sentences(v: Seq<char>, at: Seq<int>, n: int) -> Seq<Seq<char>> {
    Seq::new(n as nat, |i: int| sentence(v, at, i))
}

proof fn lemma_sentence(v: Seq<char>, at: Seq<int>, i: int)
    requires
        one_space_at_a_time(v),
        v.len() > 0,
        !chars::white_space(v.last()),
        stops_listed(v, at),
        0 <= i < at.len() - 1,
    ensures
        text::trimmed(v.subrange(at[i], at[i + 1])) == sentence(v, at, i),
        text::trimmed(sentence(v, at, i)) == sentence(v, at, i),
        sentence(v, at, i).len() > 0,
        at[i + 1] <= v.len(),
{
    let whole = v.subrange(at[i], at[i + 1]);
    let s = sentence(v, at, i);
    assert(at[i] < at[i + 1]);
    if i + 1 < at.len() - 1 {
        lemma_around_stop(v, at, i + 1);
        assert(whole.last() == v[at[i + 1] - 1]);
    } else {
        assert(whole.last() == v.last());
    }
    if i > 0 {
        lemma_around_stop(v, at, i);
        assert(whole[0] == v[at[i]] && whole[1] == v[at[i] + 1]);
        lemma_trim_a_space(whole);
        assert(whole.subrange(1, whole.len() as int) =~= s);
        assert(s[0] == whole[1] && s.last() == whole.last());
    } else {
        assert(whole[0] == v[0]);
        assert(whole =~= s);
        lemma_trim_nothing(whole);
    }
    lemma_trim_nothing(s);
}

proof fn lemma_splits(v: Seq<char>, at: Seq<int>, max: nat, n: int)
    requires
        one_space_at_a_time(v),
        v.len() > 0,
        !chars::white_space(v.last()),
        stops_listed(v, at),
        0 <= n <= at.len() - 1,
        forall|i: int|
            0 <= i < at.len() - 1 ==> chars::byte_len(#[trigger] sentence(v, at, i)) <= max,
    ensures
        text::all_long_splits(stretches(v, at, 0).take(n), max) == sentences(v, at, n),
    decreases n,
{
    let all = stretches(v, at, 0);
    if n == 0 {
        assert(sentences(v, at, 0) =~= Seq::<Seq<char>>::empty());
    } else {
        lemma_splits(v, at, max, n - 1);
        assert(all.take(n).drop_last() =~= all.take(n - 1));
        assert(all.take(n).last() == v.subrange(at[n - 1], at[n]));
        lemma_sentence(v, at, n - 1);
        assert(chars::byte_len(sentence(v, at, n - 1)) <= max);
        assert(sentences(v, at, n) =~= sentences(v, at, n - 1) + seq![sentence(v, at, n - 1)]);
    }
}

/// Where line `k` starts, the lines before it having ended at the stops `cuts`.
pub open spec fn line_start(at: Seq<int>, cuts: Seq<int>, k: int) -> int {
    if k == 0 {
        0
    } else {
        at[cuts[k - 1]] + 1
    }
}

/// Some full lines end at the stops `cuts`, each because the next sentence did not fit.
pub open spec fn filled_to(
    v: Seq<char>,
    at: Seq<int>,
    max: nat,
    full: Seq<Seq<char>>,
    cuts: Seq<int>,
) -> bool {
    &&& cuts.len() == full.len()
    &&& forall|k: int| 0 <= k < cuts.len() ==> 0 < #[trigger] cuts[k] < at.len() - 1
    &&& forall|k: int, l: int| 0 <= k < l < cuts.len() ==> #[trigger] cuts[k] < #[trigger] cuts[l]
    &&& forall|k: int|
        0 <= k < full.len() ==> #[trigger] full[k] == v.subrange(
            line_start(at, cuts, k),
            at[cuts[k]],
        ) && chars::byte_len(full[k]) + 1 + chars::byte_len(sentence(v, at, cuts[k])) > max
}

proof fn lemma_pack_sentences(v: Seq<char>, at: Seq<int>, max: nat, n: int) -> (cuts: Seq<int>)
    requires
        one_space_at_a_time(v),
        v.len() > 0,
        !chars::white_space(v.last()),
        stops_listed(v, at),
        0 < n <= at.len() - 1,
    ensures
        filled_to(v, at, max, text::packing(sentences(v, at, n), max).full, cuts),
        forall|k: int| 0 <= k < cuts.len() ==> #[trigger] cuts[k] < n,
        line_start(at, cuts, cuts.len() as int) < at[n],
        text::packing(sentences(v, at, n), max).line == v.subrange(
            line_start(at, cuts, cuts.len() as int),
            at[n],
        ),
    decreases n,
{
    let ss = sentences(v, at, n);
    let s = sentence(v, at, n - 1);
    lemma_sentence(v, at, n - 1);
    assert(ss.last() == s);
    assert(ss.drop_last() =~= sentences(v, at, n - 1));
    let p = text::packing(ss, max);
    if n == 1 {
        reveal_with_fuel(text::packing, 2);
        assert(sentences(v, at, 0) =~= Seq::<Seq<char>>::empty());
        assert(p == text::pack_one(text::packing(ss.drop_last(), max), s, max));
        assert(at[0] < at[1]);
        let cuts = Seq::<int>::empty();
        assert(filled_to(v, at, max, p.full, cuts));
        cuts
    } else {
        let q = text::packing(ss.drop_last(), max);
        let was = lemma_pack_sentences(v, at, max, n - 1);
        lemma_around_stop(v, at, n - 1);
        assert(0 <= line_start(at, was, was.len() as int)) by {
            if was.len() > 0 {
                assert(at[0] < at[was[was.len() - 1]]);
            }
        }
        if chars::byte_len(q.line) + 1 + chars::byte_len(s) > max {
            let cuts = was.push(n - 1);
            assert(line_start(at, cuts, was.len() as int) == line_start(at, was, was.len() as int));
            assert forall|k: int| 0 <= k < p.full.len() implies #[trigger] p.full[k] == v.subrange(
                line_start(at, cuts, k),
                at[cuts[k]],
            ) && chars::byte_len(p.full[k]) + 1 + chars::byte_len(sentence(v, at, cuts[k])) > max by {
                if k < was.len() {
                    assert(p.full[k] == q.full[k]);
                    assert(line_start(at, cuts, k) == line_start(at, was, k));
                    assert(cuts[k] == was[k]);
                }
            }
            assert forall|k: int, l: int| 0 <= k < l < cuts.len() implies #[trigger] cuts[k]
                < #[trigger] cuts[l] by {
                if l < was.len() {
                    assert(was[k] < was[l]);
                } else {
                    assert(was[k] < n - 1);
                }
            }
            assert(filled_to(v, at, max, p.full, cuts));
            cuts
        } else {
            let a = line_start(at, was, was.len() as int);
            assert(q.line.push(' ') + s =~= v.subrange(a, at[n]));
            was
        }
    }
}

/// Segments end where sentences do. Given where the sentences of a line stop, and that each is
/// within the budget, every segment is a stretch of whole sentences: it starts behind the space at
/// which the one before it ended, or at the start, and ends at a stop, the last one at the end of
/// the line. And a segment ends only because the next sentence, with its space, does not fit.
pub proof fn segments_end_where_sentences_do(line: Seq<char>, max: nat, at: Seq<int>) -> (cuts: Seq<
    int,
>)
    requires
        text::prepared(line).len() > 0,
        stops_listed(text::prepared(line), at),
        forall|i: int|
            0 <= i < at.len() - 1 ==> chars::byte_len(
                #[trigger] sentence(text::prepared(line), at, i),
            ) <= max,
    ensures
        cuts.len() == text::line_segments(line, max).len() > 0,
        cuts.last() == at.len() - 1,
        forall|k: int, l: int| 0 <= k < l < cuts.len() ==> #[trigger] cuts[k] < #[trigger] cuts[l],
        forall|k: int|
            0 <= k < cuts.len() ==> 0 < #[trigger] cuts[k] < at.len() && text::line_segments(
                line,
                max,
            )[k] == text::prepared(line).subrange(
                if k == 0 {
                    0
                } else {
                    at[cuts[k - 1]] + 1
                },
                at[cuts[k]],
            ),
        forall|k: int|
            0 <= k < cuts.len() - 1 ==> chars::byte_len(text::line_segments(line, max)[k]) + 1
                + chars::byte_len(sentence(text::prepared(line), at, #[trigger] cuts[k])) > max,
{
    let v = text::prepared(line);
    let n = at.len() - 1;
    a_prepared_line_is_evenly_spaced(line);
    lemma_cut_at_stops(v, at, 0);
    lemma_splits(v, at, max, n);
    assert(stretches(v, at, 0).take(n) =~= stretches(v, at, 0));
    let was = lemma_pack_sentences(v, at, max, n);
    let p = text::packing(sentences(v, at, n), max);
    let segments = text::line_segments(line, max);
    assert(0 <= line_start(at, was, was.len() as int)) by {
        if was.len() > 0 {
            assert(at[0] < at[was[was.len() - 1]]);
        }
    }
    assert(p.line.len() > 0);
    assert(segments == p.full.push(p.line));
    let cuts = was.push(n);
    assert forall|k: int| 0 <= k < cuts.len() implies 0 < #[trigger] cuts[k] < at.len()
        && segments[k] == v.subrange(
        if k == 0 {
            0
        } else {
            at[cuts[k - 1]] + 1
        },
        at[cuts[k]],
    ) by {
        if k < was.len() {
            assert(segments[k] == p.full[k]);
            assert(cuts[k] == was[k]);
            assert(k > 0 ==> cuts[k - 1] == was[k - 1]);
        } else {
            assert(k > 0 ==> cuts[k - 1] == was[k - 1]);
        }
    }
    assert forall|k: int| 0 <= k < cuts.len() - 1 implies chars::byte_len(segments[k]) + 1
        + chars::byte_len(sentence(v, at, #[trigger] cuts[k])) > max by {
        assert(segments[k] == p.full[k]);
        assert(cuts[k] == was[k]);
    }
    cuts
}

/// A text of words with one space between neighbours starts and ends in a word, and holds no other
/// white space.
pub proof fn cleaned_words_are_evenly_spaced(t: Seq<char>)
    ensures
        one_space_at_a_time(text::joined(text::words(t))),
        text::joined(text::words(t)).len() > 0 ==> !chars::white_space(
            text::joined(text::words(t)).last(),
        ),
{
    text_laws::lemma_words(t);
    lemma_joined_spaces(text::words(t));
}

/// Paragraphs show their segments, each in its place.
pub proof fn paragraphs_show_their_segments(v: Seq<Vec<String>>, p: int, k: int)
    requires
        0 <= p < v.len(),
        0 <= k < v[p]@.len(),
    ensures
        text::paragraphs(v).len() == v.len(),
        text::paragraphs(v)[p].len() == v[p]@.len(),
        text::paragraphs(v)[p][k] == v[p]@[k]@,
{
}

/// Sentence ends show as the places they are.
pub proof fn ends_show_as_places(ends: Seq<Option<usize>>, k: int)
    requires
        0 <= k < ends.len(),
    ensures
        text::positions(ends).len() == ends.len(),
        ends[k] is None <==> text::positions(ends)[k] is None,
        ends[k] matches Some(e) ==> text::positions(ends)[k] == Some(e as int),
{
}

/// A prepared line holds the words of the line with one space between neighbours and every run of
/// periods as one; without such runs it is just that.
pub proof fn a_prepared_line_is_clean(line: Seq<char>)
    ensures
        text_laws::dots_apart(text::prepared(line)),
        text_laws::dots_apart(text::joined(text::words(line))) ==> text::prepared(line)
            == text::joined(text::words(line)),
        text::words(line).len() == 0 <==> text::prepared(line).len() == 0,
{
    let s = text::joined(text::words(line));
    text_laws::collapsed_dots_are_apart(s);
    text_laws::collapsing_dots_is_idempotent(s);
    text_laws::lemma_words(line);
    lemma_joined_spaces(text::words(line));
    lemma_dots_spaces(s);
    if text::words(line).len() == 0 {
        assert(text::single_dots(s).len() == 0);
    }
}

} // verus!
