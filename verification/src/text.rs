//! Text handling shared by every engine.
//!
//! Segmentation is a property of the request, not of the model: every engine has a context
//! limit, every engine degrades when asked to hold prosody over too long a span, and batching
//! has nothing to batch without it.

use crate::chars;
use crate::chars::{from_chars, len_bytes, to_chars};
use vstd::prelude::*;

verus! {

/// The words of a text: its maximal runs of characters that are not white space.
pub open spec fn words(s: Seq<char>) -> Seq<Seq<char>>
    decreases s.len(),
{
    if s.len() == 0 {
        Seq::empty()
    } else {
        let before = words(s.drop_last());
        if chars::white_space(s.last()) {
            before
        } else if s.len() == 1 || chars::white_space(s[s.len() - 2]) {
            before.push(seq![s.last()])
        } else {
            before.update(before.len() - 1, before.last().push(s.last()))
        }
    }
}

/// `parts` with one space between neighbours.
pub open spec fn joined(parts: Seq<Seq<char>>) -> Seq<char>
    decreases parts.len(),
{
    if parts.len() == 0 {
        Seq::empty()
    } else if parts.len() == 1 {
        parts[0]
    } else {
        joined(parts.drop_last()).push(' ') + parts.last()
    }
}

/// A text without the white space at its end.
pub open spec fn trimmed_end(s: Seq<char>) -> Seq<char>
    decreases s.len(),
{
    if s.len() > 0 && chars::white_space(s.last()) {
        trimmed_end(s.drop_last())
    } else {
        s
    }
}

/// A text without the white space at its start.
pub open spec fn trimmed_start(s: Seq<char>) -> Seq<char>
    decreases s.len(),
{
    if s.len() > 0 && chars::white_space(s[0]) {
        trimmed_start(s.drop_first())
    } else {
        s
    }
}

/// A text without the white space at its ends.
pub open spec fn trimmed(s: Seq<char>) -> Seq<char> {
    trimmed_end(trimmed_start(s))
}

/// A text in which no period follows a period: of each run, the first one stays.
pub open spec fn single_dots(s: Seq<char>) -> Seq<char>
    decreases s.len(),
{
    if s.len() == 0 {
        Seq::empty()
    } else {
        let before = single_dots(s.drop_last());
        if s.last() == '.' && s.len() >= 2 && s[s.len() - 2] == '.' {
            before
        } else {
            before.push(s.last())
        }
    }
}

/// The pieces of `s` between the separators `sep`, empty ones too.
pub open spec fn split_at_char(s: Seq<char>, sep: char) -> Seq<Seq<char>>
    decreases s.len(),
{
    if s.len() == 0 {
        seq![Seq::empty()]
    } else {
        let before = split_at_char(s.drop_last(), sep);
        if s.last() == sep {
            before.push(Seq::empty())
        } else {
            before.update(before.len() - 1, before.last().push(s.last()))
        }
    }
}

/// A greedy packing in progress: the lines that are full, and the one being filled.
pub struct Packing {
    pub full: Seq<Seq<char>>,
    pub line: Seq<char>,
}

/// One more piece: it joins the line being filled, after a space, while that keeps the line
/// within `max` bytes, and starts a new line otherwise. Blank pieces vanish.
pub open spec fn pack_one(p: Packing, piece: Seq<char>, max: nat) -> Packing {
    let t = trimmed(piece);
    if t.len() == 0 {
        p
    } else if p.line.len() == 0 {
        Packing { full: p.full, line: t }
    } else if chars::byte_len(p.line) + 1 + chars::byte_len(t) > max {
        Packing { full: p.full.push(p.line), line: t }
    } else {
        Packing { full: p.full, line: p.line.push(' ') + t }
    }
}

/// The packing of `pieces`, in order.
pub open spec fn packing(pieces: Seq<Seq<char>>, max: nat) -> Packing
    decreases pieces.len(),
{
    if pieces.len() == 0 {
        Packing { full: Seq::empty(), line: Seq::empty() }
    } else {
        pack_one(packing(pieces.drop_last(), max), pieces.last(), max)
    }
}

/// The lines of a packing, the one being filled included unless it is empty.
pub open spec fn packed(pieces: Seq<Seq<char>>, max: nat) -> Seq<Seq<char>> {
    let p = packing(pieces, max);
    if p.line.len() == 0 {
        p.full
    } else {
        p.full.push(p.line)
    }
}

/// A mark that closes a clause.
pub open spec fn clause_mark(c: char) -> bool {
    c == ',' || c == ';' || c == ':' || c == '\u{2014}' || c == '\u{2013}'
}

/// The clauses of a text, each ending after its mark; what follows the last mark is a clause
/// too unless it is blank.
pub open spec fn clauses(s: Seq<char>) -> Seq<Seq<char>> {
    let (done, rest) = clauses_open(s);
    if trimmed(rest).len() == 0 {
        done
    } else {
        done.push(rest)
    }
}

/// The clauses closed so far, and the characters after the last mark.
pub open spec fn clauses_open(s: Seq<char>) -> (Seq<Seq<char>>, Seq<char>)
    decreases s.len(),
{
    if s.len() == 0 {
        (Seq::empty(), Seq::empty())
    } else {
        let (done, rest) = clauses_open(s.drop_last());
        let rest = rest.push(s.last());
        if clause_mark(s.last()) {
            (done.push(rest), Seq::empty())
        } else {
            (done, rest)
        }
    }
}

/// The runs that a word is cut into, from left to right: a character joins the run before it
/// while the run stays within `max` bytes, and starts the next one otherwise. So a word within
/// the budget is one run, and a run is over the budget only where its one character is.
pub open spec fn word_runs(word: Seq<char>, max: nat) -> Seq<Seq<char>>
    decreases word.len(),
{
    if word.len() == 0 {
        Seq::empty()
    } else {
        let before = word_runs(word.drop_last(), max);
        if before.len() > 0 && chars::byte_len(before.last().push(word.last())) <= max {
            before.update(before.len() - 1, before.last().push(word.last()))
        } else {
            before.push(seq![word.last()])
        }
    }
}

/// The runs of several words, one behind the other.
pub open spec fn all_word_runs(ws: Seq<Seq<char>>, max: nat) -> Seq<Seq<char>>
    decreases ws.len(),
{
    if ws.len() == 0 {
        Seq::empty()
    } else {
        all_word_runs(ws.drop_last(), max) + word_runs(ws.last(), max)
    }
}

/// What a clause becomes under a budget: itself if it fits, else its words packed, a word that is
/// over the budget cut into runs.
pub open spec fn clause_pieces(clause: Seq<char>, max: nat) -> Seq<Seq<char>> {
    if chars::byte_len(clause) <= max {
        seq![clause]
    } else {
        packed(all_word_runs(words(clause), max), max)
    }
}

/// The pieces of several clauses, in order.
pub open spec fn all_clause_pieces(cs: Seq<Seq<char>>, max: nat) -> Seq<Seq<char>>
    decreases cs.len(),
{
    if cs.len() == 0 {
        Seq::empty()
    } else {
        all_clause_pieces(cs.drop_last(), max) + clause_pieces(cs.last(), max)
    }
}

/// A sentence broken up to fit a budget: whole if it fits, else clause by clause.
pub open spec fn long_split(s: Seq<char>, max: nat) -> Seq<Seq<char>> {
    if chars::byte_len(s) <= max {
        seq![s]
    } else {
        packed(all_clause_pieces(clauses(s), max), max)
    }
}

/// Words whose period is part of the word, not the end of a sentence.
///
/// "Fig. 2" split there is a full stop's fall and pause inside a noun phrase.
pub open spec fn abbreviation(w: Seq<char>) -> bool {
    ||| w == "fig"@
    ||| w == "figs"@
    ||| w == "eq"@
    ||| w == "eqs"@
    ||| w == "tab"@
    ||| w == "sec"@
    ||| w == "secs"@
    ||| w == "ch"@
    ||| w == "chs"@
    ||| w == "no"@
    ||| w == "nos"@
    ||| w == "vol"@
    ||| w == "vols"@
    ||| w == "pp"@
    ||| w == "p"@
    ||| w == "al"@
    ||| w == "cf"@
    ||| w == "eg"@
    ||| w == "ie"@
    ||| w == "dr"@
    ||| w == "mr"@
    ||| w == "mrs"@
    ||| w == "ms"@
    ||| w == "prof"@
    ||| w == "st"@
    ||| w == "approx"@
    ||| w == "ca"@
    ||| w == "etc"@
    ||| w == "vs"@
    ||| w == "resp"@
    ||| w == "inc"@
    ||| w == "ltd"@
    ||| w == "co"@
    ||| w == "est"@
    ||| w == "jan"@
    ||| w == "feb"@
    ||| w == "mar"@
    ||| w == "apr"@
    ||| w == "jun"@
    ||| w == "jul"@
    ||| w == "aug"@
    ||| w == "sep"@
    ||| w == "sept"@
    ||| w == "oct"@
    ||| w == "nov"@
    ||| w == "dec"@
}

/// Where the run of letters and digits that ends at `i` (exclusive) starts.
pub open spec fn word_start(v: Seq<char>, i: int) -> int
    decreases i,
{
    if 0 < i <= v.len() && chars::alphanumeric(v[i - 1]) {
        word_start(v, i - 1)
    } else {
        i
    }
}

/// A word ends at `i` (exclusive) and is an abbreviation, in any case.
pub open spec fn abbreviation_at(v: Seq<char>, i: int) -> bool {
    word_start(v, i) < i && abbreviation(chars::lowercased(v.subrange(word_start(v, i), i)))
}

/// A mark that can end a sentence.
pub open spec fn sentence_mark(c: char) -> bool {
    c == '.' || c == '!' || c == '?'
}

/// A closing quote or bracket, which belongs to the sentence that the mark before it ends.
pub open spec fn closer(c: char) -> bool {
    c == '"' || c == '\'' || c == ')' || c == ']' || c == '\u{201d}' || c == '\u{2019}'
}

/// The first position from `j` on that holds no closer.
pub open spec fn closers_end(v: Seq<char>, j: int) -> int
    decreases v.len() - j,
{
    if 0 <= j < v.len() && closer(v[j]) {
        closers_end(v, j + 1)
    } else {
        j
    }
}

/// The first position from `j` on that holds no white space.
pub open spec fn blanks_end(v: Seq<char>, j: int) -> int
    decreases v.len() - j,
{
    if 0 <= j < v.len() && chars::white_space(v[j]) {
        blanks_end(v, j + 1)
    } else {
        j
    }
}

/// The word after the closers and the gap at `i` starts in lower case.
pub open spec fn continues_at(v: Seq<char>, i: int) -> bool {
    let n = blanks_end(v, closers_end(v, i));
    n < v.len() && chars::lowercase(v[n])
}

/// Where a sentence whose mark ends at `i` (exclusive) stops, if it ends there at all: past the
/// closers, provided the paragraph ends there or a gap follows. A period that belongs to an
/// abbreviation ends nothing, and a gap before a lower-case word does not either.
pub open spec fn sentence_end(v: Seq<char>, i: int, abbreviated: bool, continued: bool) -> Option<
    int,
> {
    let j = closers_end(v, i);
    if i > 0 && v[i - 1] == '.' && abbreviated {
        None
    } else if j >= v.len() {
        Some(j)
    } else if chars::white_space(v[j]) && !continued {
        Some(j)
    } else {
        None
    }
}

/// [`sentence_end`] for the text as it stands.
pub open spec fn boundary(v: Seq<char>, i: int) -> Option<int> {
    sentence_end(v, i, abbreviation_at(v, i - 1), continues_at(v, i))
}

/// The boundary after each character: none where the character is no sentence mark.
pub open spec fn boundaries(v: Seq<char>) -> Seq<Option<int>> {
    Seq::new(
        v.len(),
        |k: int|
            if sentence_mark(v[k]) {
                boundary(v, k + 1)
            } else {
                None
            },
    )
}

/// Each boundary lies behind its character and inside the text.
pub open spec fn boundaries_ok(len: nat, ends: Seq<Option<int>>) -> bool {
    ends.len() == len && forall|k: int|
        0 <= k < len && (#[trigger] ends[k]) is Some ==> k < ends[k]->0 <= len
}

/// The sentences of `v` from `start` on, where no boundary has been met before `i`. What is
/// left after the last boundary is a sentence too unless it is blank.
pub open spec fn cut_from(v: Seq<char>, ends: Seq<Option<int>>, start: int, i: int) -> Seq<
    Seq<char>,
>
    decreases v.len() - i,
{
    if i >= v.len() {
        let rest = v.subrange(start, v.len() as int);
        if trimmed(rest).len() == 0 {
            Seq::empty()
        } else {
            seq![rest]
        }
    } else {
        match ends[i] {
            Some(e) => if i < e <= v.len() {
                seq![v.subrange(start, e)] + cut_from(v, ends, e, e)
            } else {
                Seq::empty()
            },
            None => cut_from(v, ends, start, i + 1),
        }
    }
}

/// Several sentences, each trimmed and broken up to fit the budget.
pub open spec fn all_long_splits(ss: Seq<Seq<char>>, max: nat) -> Seq<Seq<char>>
    decreases ss.len(),
{
    if ss.len() == 0 {
        Seq::empty()
    } else {
        all_long_splits(ss.drop_last(), max) + long_split(trimmed(ss.last()), max)
    }
}

/// The segments of a paragraph, given the boundary after each of its characters.
pub open spec fn segments_at(v: Seq<char>, ends: Seq<Option<int>>, max: nat) -> Seq<Seq<char>> {
    packed(all_long_splits(cut_from(v, ends, 0, 0), max), max)
}

/// A paragraph as it is segmented: white space collapsed, and runs of periods after that.
pub open spec fn prepared(line: Seq<char>) -> Seq<char> {
    single_dots(joined(words(line)))
}

/// The segments of one line of text.
pub open spec fn line_segments(line: Seq<char>, max: nat) -> Seq<Seq<char>> {
    let v = prepared(line);
    segments_at(v, boundaries(v), max)
}

/// The segments of several lines; a line without any is left out.
pub open spec fn lines_segments(lines: Seq<Seq<char>>, max: nat) -> Seq<Seq<Seq<char>>>
    decreases lines.len(),
{
    if lines.len() == 0 {
        Seq::empty()
    } else {
        let before = lines_segments(lines.drop_last(), max);
        let segments = line_segments(lines.last(), max);
        if segments.len() == 0 {
            before
        } else {
            before.push(segments)
        }
    }
}

/// The segments of a text, paragraph by paragraph.
pub open spec fn segmented(text: Seq<char>, max: nat) -> Seq<Seq<Seq<char>>> {
    lines_segments(split_at_char(text, '\n'), max)
}

/// The texts that a sequence of string vectors holds.
pub open spec fn paragraphs(v: Seq<Vec<String>>) -> Seq<Seq<Seq<char>>> {
    Seq::new(v.len(), |i: int| chars::texts(v[i]@))
}

/// The words of a character sequence, in order.
fn split_words(v: &[char]) -> (out: Vec<String>)
    ensures
        chars::texts(out@) == words(v@),
{
    let mut out: Vec<String> = Vec::new();
    let mut start: usize = 0;
    let mut i: usize = 0;
    while i < v.len()
        invariant
            start <= i <= v@.len(),
            start < i ==> words(v@.take(i as int)) == chars::texts(out@).push(
                v@.subrange(start as int, i as int),
            ) && !chars::white_space(v@[i - 1]),
            start == i ==> words(v@.take(i as int)) == chars::texts(out@) && (i > 0
                ==> chars::white_space(v@[i - 1])),
        decreases v@.len() - i,
    {
        let ghost next = v@.take(i + 1);
        assert(next.drop_last() =~= v@.take(i as int));
        if v[i].is_whitespace() {
            if start < i {
                let ghost done = chars::texts(out@);
                let word = from_chars(v, start, i);
                out.push(word);
                assert(chars::texts(out@) =~= done.push(v@.subrange(start as int, i as int)));
            }
            i += 1;
            start = i;
        } else {
            proof {
                let before = words(v@.take(i as int));
                if start < i {
                    assert(before.update(before.len() - 1, before.last().push(v@[i as int]))
                        =~= chars::texts(out@).push(v@.subrange(start as int, i + 1))) by {
                        assert(v@.subrange(start as int, i as int).push(v@[i as int])
                            =~= v@.subrange(start as int, i + 1));
                    }
                } else {
                    assert(seq![v@[i as int]] =~= v@.subrange(start as int, i + 1));
                }
            }
            i += 1;
        }
    }
    assert(v@.take(i as int) =~= v@);
    if start < i {
        let ghost done = chars::texts(out@);
        let word = from_chars(v, start, i);
        out.push(word);
        assert(chars::texts(out@) =~= done.push(v@.subrange(start as int, i as int)));
    }
    out
}

/// Collapses every run of white space: the words of `text` with one space between neighbours.
pub fn clean_text(text: &str) -> (r: String)
    ensures
        r@ == joined(words(text@)),
{
    let all = to_chars(text);
    let parts = split_words(all.as_slice());
    let mut r = String::new();
    let mut k: usize = 0;
    while k < parts.len()
        invariant
            k <= parts@.len(),
            r@ == joined(chars::texts(parts@).take(k as int)),
        decreases parts@.len() - k,
    {
        let ghost ws = chars::texts(parts@);
        if k > 0 {
            r.push(' ');
        }
        r.append(parts[k].as_str());
        k += 1;
        proof {
            assert(ws.take(k as int).drop_last() =~= ws.take(k - 1));
            assert(ws.take(k as int).last() == parts@[k - 1]@);
            if k == 1 {
                assert(Seq::<char>::empty() + parts@[0]@ =~= parts@[0]@);
            }
        }
    }
    assert(chars::texts(parts@).take(k as int) =~= chars::texts(parts@));
    r
}

/// Collapse `..` and longer runs to a single period, which would otherwise be an audible
/// stumble.
pub fn collapse_dots(s: &str) -> (r: String)
    ensures
        r@ == single_dots(s@),
{
    let v = to_chars(s);
    let mut out = String::new();
    let mut i: usize = 0;
    while i < v.len()
        invariant
            i <= v@.len(),
            v@ == s@,
            out@ == single_dots(v@.take(i as int)),
        decreases v@.len() - i,
    {
        assert(v@.take(i + 1).drop_last() =~= v@.take(i as int));
        if !(v[i] == '.' && i > 0 && v[i - 1] == '.') {
            out.push(v[i]);
        }
        i += 1;
    }
    assert(v@.take(i as int) =~= s@);
    out
}

/// Where the text of `v` starts and stops once the white space at its ends is left out.
fn trim_bounds(v: &[char]) -> (r: (usize, usize))
    ensures
        r.0 <= r.1 <= v@.len(),
        v@.subrange(r.0 as int, r.1 as int) == trimmed(v@),
{
    let mut a: usize = 0;
    assert(v@.subrange(0, v@.len() as int) =~= v@);
    while a < v.len() && v[a].is_whitespace()
        invariant
            a <= v@.len(),
            trimmed_start(v@.subrange(a as int, v@.len() as int)) == trimmed_start(v@),
        decreases v@.len() - a,
    {
        assert(v@.subrange(a as int, v@.len() as int).drop_first() =~= v@.subrange(
            a + 1,
            v@.len() as int,
        ));
        a += 1;
    }
    let mut b: usize = v.len();
    while a < b && v[b - 1].is_whitespace()
        invariant
            a <= b <= v@.len(),
            trimmed_end(v@.subrange(a as int, b as int)) == trimmed(v@),
        decreases b - a,
    {
        assert(v@.subrange(a as int, b as int).drop_last() =~= v@.subrange(a as int, b - 1));
        b -= 1;
    }
    (a, b)
}

/// `s` without the white space at its ends.
pub(crate) fn trim(s: &str) -> (r: String)
    ensures
        r@ == trimmed(s@),
{
    let v = to_chars(s);
    let (a, b) = trim_bounds(v.as_slice());
    from_chars(v.as_slice(), a, b)
}

/// Packs `pieces` greedily into lines of at most `max_chars` bytes; a piece that is longer than
/// that on its own gets a line to itself.
pub fn pack(pieces: &Vec<String>, max_chars: usize) -> (out: Vec<String>)
    ensures
        chars::texts(out@) == packed(chars::texts(pieces@), max_chars as nat),
{
    let mut out: Vec<String> = Vec::new();
    let mut buf = String::new();
    let mut k: usize = 0;
    assert(chars::texts(out@) =~= Seq::<Seq<char>>::empty());
    while k < pieces.len()
        invariant
            k <= pieces@.len(),
            packing(chars::texts(pieces@).take(k as int), max_chars as nat) == (Packing {
                full: chars::texts(out@),
                line: buf@,
            }),
        decreases pieces@.len() - k,
    {
        let ghost all = chars::texts(pieces@);
        assert(all.take(k + 1).drop_last() =~= all.take(k as int));
        assert(all.take(k + 1).last() == pieces@[k as int]@);
        let piece = trim(pieces[k].as_str());
        if !piece.as_str().is_empty() {
            if !buf.as_str().is_empty() && len_bytes(buf.as_str()) as u128 + 1 + len_bytes(
                piece.as_str(),
            ) as u128 > max_chars as u128 {
                let ghost done = chars::texts(out@);
                let ghost line = buf@;
                out.push(buf);
                buf = String::new();
                assert(chars::texts(out@) =~= done.push(line));
            }
            if !buf.as_str().is_empty() {
                buf.push(' ');
            } else {
                assert(buf@ + piece@ =~= piece@);
            }
            buf.append(piece.as_str());
        }
        k += 1;
    }
    assert(chars::texts(pieces@).take(k as int) =~= chars::texts(pieces@));
    if !buf.as_str().is_empty() {
        let ghost done = chars::texts(out@);
        let ghost line = buf@;
        out.push(buf);
        assert(chars::texts(out@) =~= done.push(line));
    }
    out
}

/// Puts the strings of `more` behind those of `out`.
fn extend(out: &mut Vec<String>, more: Vec<String>)
    ensures
        chars::texts(final(out)@) == chars::texts(old(out)@) + chars::texts(more@),
{
    let ghost added = more@;
    let mut more = more;
    out.append(&mut more);
    assert(chars::texts(out@) =~= chars::texts(old(out)@) + chars::texts(added));
}

/// The clauses of a character sequence, in order.
fn split_clauses(v: &[char]) -> (out: Vec<String>)
    ensures
        chars::texts(out@) == clauses(v@),
{
    let mut out: Vec<String> = Vec::new();
    let mut start: usize = 0;
    let mut i: usize = 0;
    assert(chars::texts(out@) =~= Seq::<Seq<char>>::empty());
    assert(v@.subrange(0, 0) =~= Seq::<char>::empty());
    while i < v.len()
        invariant
            start <= i <= v@.len(),
            clauses_open(v@.take(i as int)) == (
                chars::texts(out@),
                v@.subrange(start as int, i as int),
            ),
        decreases v@.len() - i,
    {
        let c = v[i];
        assert(v@.take(i + 1).drop_last() =~= v@.take(i as int));
        assert(v@.subrange(start as int, i + 1) =~= v@.subrange(start as int, i as int).push(c));
        i += 1;
        if c == ',' || c == ';' || c == ':' || c == '\u{2014}' || c == '\u{2013}' {
            let ghost done = chars::texts(out@);
            let clause = from_chars(v, start, i);
            out.push(clause);
            assert(chars::texts(out@) =~= done.push(v@.subrange(start as int, i as int)));
            start = i;
            assert(v@.subrange(start as int, i as int) =~= Seq::<char>::empty());
        }
    }
    assert(v@.take(i as int) =~= v@);
    let rest = from_chars(v, start, i);
    if !trim(rest.as_str()).as_str().is_empty() {
        let ghost done = chars::texts(out@);
        let ghost tail = rest@;
        out.push(rest);
        assert(chars::texts(out@) =~= done.push(tail));
    }
    out
}

/// Cut a word into runs of at most `max_chars` bytes.
fn cut_word(word: &str, max_chars: usize) -> (out: Vec<String>)
    ensures
        chars::texts(out@) == word_runs(word@, max_chars as nat),
{
    let v = to_chars(word);
    let n: usize = v.len();
    let mut out: Vec<String> = Vec::new();
    if n == 0 {
        assert(chars::texts(out@) =~= word_runs(word@, max_chars as nat));
        return out;
    }
    let mut run = String::new();
    run.push(v[0]);
    let mut used: usize = len_bytes(run.as_str());
    proof {
        reveal_with_fuel(word_runs, 2);
        assert(v@.take(1).drop_last() =~= Seq::<char>::empty());
        assert(chars::texts(out@).push(run@) =~= word_runs(v@.take(1), max_chars as nat)) by {
            assert(run@ =~= seq![v@[0]]);
        }
    }
    let mut i: usize = 1;
    while i < n
        invariant
            1 <= i <= n,
            v@.len() == n,
            used == chars::byte_len(run@),
            chars::texts(out@).push(run@) == word_runs(v@.take(i as int), max_chars as nat),
        decreases n - i,
    {
        let c = v[i];
        let ghost before = chars::texts(out@).push(run@);
        proof {
            assert(v@.take(i + 1).drop_last() =~= v@.take(i as int));
            assert(v@.take(i + 1).last() == c);
            assert(run@.push(c) =~= run@ + seq![c]);
            chars::lemma_byte_len_concat(run@, seq![c]);
        }
        let mut alone = String::new();
        alone.push(c);
        assert(alone@ =~= seq![c]);
        let more: usize = len_bytes(alone.as_str());
        if used <= max_chars && more <= max_chars - used {
            run.push(c);
            used += more;
            assert(chars::texts(out@).push(run@) =~= before.update(before.len() - 1, run@));
        } else {
            out.push(run);
            run = alone;
            used = more;
            assert(chars::texts(out@) =~= before);
        }
        i += 1;
    }
    assert(v@.take(n as int) =~= word@);
    let ghost before = chars::texts(out@);
    out.push(run);
    assert(chars::texts(out@) =~= before.push(out@[out@.len() - 1]@));
    out
}

/// Cut each of several words into runs of at most `max_chars` bytes.
fn cut_words(all_words: &Vec<String>, max_chars: usize) -> (out: Vec<String>)
    ensures
        chars::texts(out@) == all_word_runs(chars::texts(all_words@), max_chars as nat),
{
    let mut out: Vec<String> = Vec::new();
    let n: usize = all_words.len();
    let mut k: usize = 0;
    assert(chars::texts(out@) =~= Seq::<Seq<char>>::empty());
    while k < n
        invariant
            k <= n,
            all_words@.len() == n,
            chars::texts(out@) == all_word_runs(
                chars::texts(all_words@).take(k as int),
                max_chars as nat,
            ),
        decreases n - k,
    {
        let ghost all = chars::texts(all_words@);
        assert(all.take(k + 1).drop_last() =~= all.take(k as int));
        assert(all.take(k + 1).last() == all_words@[k as int]@);
        extend(&mut out, cut_word(all_words[k].as_str(), max_chars));
        k += 1;
    }
    assert(chars::texts(all_words@).take(n as int) =~= chars::texts(all_words@));
    out
}

/// Break a sentence that exceeds the budget on its own.
///
/// Sentence boundaries alone do not bound segment length. Clause punctuation is preferred over
/// word count because the inserted segment gap then lands where the voice would already pause.
/// Splitting at words, and inside a word that alone is over the budget, is the last resort, so no
/// segment can be unbounded whatever the punctuation looks like.
pub fn split_long(sentence: &str, max_chars: usize) -> (out: Vec<String>)
    ensures
        chars::texts(out@) == long_split(sentence@, max_chars as nat),
{
    let mut pieces: Vec<String> = Vec::new();
    if len_bytes(sentence) <= max_chars {
        pieces.push(sentence.to_owned());
        assert(chars::texts(pieces@) =~= seq![sentence@]);
        return pieces;
    }
    let v = to_chars(sentence);
    let atoms = split_clauses(v.as_slice());
    let mut k: usize = 0;
    assert(chars::texts(pieces@) =~= Seq::<Seq<char>>::empty());
    while k < atoms.len()
        invariant
            k <= atoms@.len(),
            chars::texts(pieces@) == all_clause_pieces(
                chars::texts(atoms@).take(k as int),
                max_chars as nat,
            ),
        decreases atoms@.len() - k,
    {
        let ghost all = chars::texts(atoms@);
        let ghost done = chars::texts(pieces@);
        assert(all.take(k + 1).drop_last() =~= all.take(k as int));
        assert(all.take(k + 1).last() == atoms@[k as int]@);
        if len_bytes(atoms[k].as_str()) <= max_chars {
            let atom = atoms[k].clone();
            pieces.push(atom);
            assert(chars::texts(pieces@) =~= done + seq![atoms@[k as int]@]);
        } else {
            let letters = to_chars(atoms[k].as_str());
            let all_words = split_words(letters.as_slice());
            let runs = cut_words(&all_words, max_chars);
            extend(&mut pieces, pack(&runs, max_chars));
        }
        k += 1;
    }
    assert(chars::texts(atoms@).take(k as int) =~= chars::texts(atoms@));
    pack(&pieces, max_chars)
}

/// Two strings hold the same text.
pub(crate) fn same(a: &str, b: &str) -> (r: bool)
    ensures
        r == (a@ == b@),
{
    a.to_owned() == b.to_owned()
}

/// Is `word`, in lower case already, an abbreviation whose period ends no sentence?
pub fn abbreviation_listed(word: &str) -> (r: bool)
    ensures
        r == abbreviation(word@),
{
    same(word, "fig")
        || same(word, "figs")
        || same(word, "eq")
        || same(word, "eqs")
        || same(word, "tab")
        || same(word, "sec")
        || same(word, "secs")
        || same(word, "ch")
        || same(word, "chs")
        || same(word, "no")
        || same(word, "nos")
        || same(word, "vol")
        || same(word, "vols")
        || same(word, "pp")
        || same(word, "p")
        || same(word, "al")
        || same(word, "cf")
        || same(word, "eg")
        || same(word, "ie")
        || same(word, "dr")
        || same(word, "mr")
        || same(word, "mrs")
        || same(word, "ms")
        || same(word, "prof")
        || same(word, "st")
        || same(word, "approx")
        || same(word, "ca")
        || same(word, "etc")
        || same(word, "vs")
        || same(word, "resp")
        || same(word, "inc")
        || same(word, "ltd")
        || same(word, "co")
        || same(word, "est")
        || same(word, "jan")
        || same(word, "feb")
        || same(word, "mar")
        || same(word, "apr")
        || same(word, "jun")
        || same(word, "jul")
        || same(word, "aug")
        || same(word, "sep")
        || same(word, "sept")
        || same(word, "oct")
        || same(word, "nov")
        || same(word, "dec")
}

/// Is the word ending at `i` (exclusive) an abbreviation?
pub fn is_abbreviation(chars: &[char], i: usize) -> (r: bool)
    requires
        i <= chars@.len(),
    ensures
        r == abbreviation_at(chars@, i as int),
        word_start(chars@, i as int) == i ==> !r,
{
    let mut start: usize = i;
    while start > 0 && chars[start - 1].is_alphanumeric()
        invariant
            start <= i <= chars@.len(),
            word_start(chars@, start as int) == word_start(chars@, i as int),
        decreases start,
    {
        start -= 1;
    }
    if start == i {
        return false;
    }
    let word = from_chars(chars, start, i);
    let lower = word.as_str().to_lowercase();
    abbreviation_listed(lower.as_str())
}

proof fn lemma_closers_end(v: Seq<char>, j: int)
    requires
        0 <= j <= v.len(),
    ensures
        j <= closers_end(v, j) <= v.len(),
    decreases v.len() - j,
{
    if j < v.len() && closer(v[j]) {
        lemma_closers_end(v, j + 1);
    }
}

/// Where the sentence whose mark ends at `i` stops, given whether the word before the mark is an
/// abbreviation and whether the word after the gap is in lower case.
pub fn closer_end_given(chars: &[char], i: usize, abbreviated: bool, continued: bool) -> (r: Option<
    usize,
>)
    requires
        i <= chars@.len(),
    ensures
        match r {
            Some(e) => sentence_end(chars@, i as int, abbreviated, continued) == Some(e as int),
            None => sentence_end(chars@, i as int, abbreviated, continued) is None,
        },
        r matches Some(e) ==> i <= e <= chars@.len(),
{
    if i > 0 && chars[i - 1] == '.' && abbreviated {
        return None;
    }
    let j = skip_closers(chars, i);
    if j >= chars.len() {
        Some(j)
    } else if chars[j].is_whitespace() && !continued {
        Some(j)
    } else {
        None
    }
}

/// The first position from `i` on that holds no closing quote or bracket.
fn skip_closers(chars: &[char], i: usize) -> (j: usize)
    requires
        i <= chars@.len(),
    ensures
        j == closers_end(chars@, i as int),
        i <= j <= chars@.len(),
{
    let mut j: usize = i;
    while j < chars.len() && (chars[j] == '"' || chars[j] == '\'' || chars[j] == ')' || chars[j]
        == ']' || chars[j] == '\u{201d}' || chars[j] == '\u{2019}')
        invariant
            i <= j <= chars@.len(),
            closers_end(chars@, j as int) == closers_end(chars@, i as int),
        decreases chars@.len() - j,
    {
        j += 1;
    }
    j
}

/// Where a sentence ending at `i` stops, if it ends there at all.
///
/// A bare `.` is not a boundary: "12.4" would be spoken as "twelve", a pause, "four". A real
/// boundary is followed by white space or the end of the paragraph, optionally past a closing
/// quote or bracket, which the sentence keeps: `Some(j)` is the index one past the last
/// character of the sentence. A lower-case word after the gap continues the sentence whatever
/// the mark was, which catches the abbreviations that the list does not name.
pub fn closer_end(chars: &[char], i: usize) -> (r: Option<usize>)
    requires
        i <= chars@.len(),
    ensures
        match r {
            Some(e) => boundary(chars@, i as int) == Some(e as int),
            None => boundary(chars@, i as int) is None,
        },
        r matches Some(e) ==> i <= e <= chars@.len(),
{
    let abbreviated = i > 0 && is_abbreviation(chars, i - 1);
    let j = skip_closers(chars, i);
    let mut n: usize = j;
    while n < chars.len() && chars[n].is_whitespace()
        invariant
            j <= n <= chars@.len(),
            blanks_end(chars@, n as int) == blanks_end(chars@, j as int),
        decreases chars@.len() - n,
    {
        n += 1;
    }
    let continued = n < chars.len() && chars[n].is_lowercase();
    closer_end_given(chars, i, abbreviated, continued)
}

/// The boundaries as a text's positions.
pub open spec fn positions(ends: Seq<Option<usize>>) -> Seq<Option<int>> {
    Seq::new(
        ends.len(),
        |k: int|
            match ends[k] {
                Some(e) => Some(e as int),
                None => None,
            },
    )
}

/// Cuts a paragraph into sentences at the given boundaries.
fn cut_sentences(v: &[char], ends: &Vec<Option<usize>>) -> (out: Vec<String>)
    requires
        boundaries_ok(v@.len(), positions(ends@)),
    ensures
        chars::texts(out@) == cut_from(v@, positions(ends@), 0, 0),
{
    let mut out: Vec<String> = Vec::new();
    let ghost marks = positions(ends@);
    let mut start: usize = 0;
    let mut i: usize = 0;
    assert(chars::texts(out@) + cut_from(v@, marks, 0, 0) =~= cut_from(v@, marks, 0, 0));
    while i < v.len()
        invariant
            start <= i <= v@.len(),
            marks == positions(ends@),
            boundaries_ok(v@.len(), marks),
            chars::texts(out@) + cut_from(v@, marks, start as int, i as int) == cut_from(
                v@,
                marks,
                0,
                0,
            ),
        decreases v@.len() - i,
    {
        assert(marks[i as int] is Some <==> ends@[i as int] is Some);
        match ends[i] {
            Some(e) => {
                let ghost done = chars::texts(out@);
                let sentence = from_chars(v, start, e);
                out.push(sentence);
                proof {
                    let one = v@.subrange(start as int, e as int);
                    let rest = cut_from(v@, marks, e as int, e as int);
                    assert(chars::texts(out@) =~= done.push(one));
                    assert(done.push(one) + rest =~= done + (seq![one] + rest));
                }
                start = e;
                i = e;
            },
            None => {
                i += 1;
            },
        }
    }
    let rest = from_chars(v, start, i);
    if !trim(rest.as_str()).as_str().is_empty() {
        let ghost done = chars::texts(out@);
        let ghost tail = rest@;
        out.push(rest);
        assert(chars::texts(out@) =~= done + seq![tail]);
    } else {
        assert(chars::texts(out@) + Seq::<Seq<char>>::empty() =~= chars::texts(out@));
    }
    out
}

/// The segments of a paragraph, given the boundary after each of its characters: its sentences,
/// those over the budget broken up, merged again as far as the budget allows.
pub fn segment_at(v: &[char], ends: &Vec<Option<usize>>, max_chars: usize) -> (out: Vec<String>)
    requires
        boundaries_ok(v@.len(), positions(ends@)),
    ensures
        chars::texts(out@) == segments_at(v@, positions(ends@), max_chars as nat),
{
    let sentences = cut_sentences(v, ends);
    let mut pieces: Vec<String> = Vec::new();
    let mut k: usize = 0;
    assert(chars::texts(pieces@) =~= Seq::<Seq<char>>::empty());
    while k < sentences.len()
        invariant
            k <= sentences@.len(),
            chars::texts(pieces@) == all_long_splits(
                chars::texts(sentences@).take(k as int),
                max_chars as nat,
            ),
        decreases sentences@.len() - k,
    {
        let ghost all = chars::texts(sentences@);
        assert(all.take(k + 1).drop_last() =~= all.take(k as int));
        assert(all.take(k + 1).last() == sentences@[k as int]@);
        let sentence = trim(sentences[k].as_str());
        extend(&mut pieces, split_long(sentence.as_str(), max_chars));
        k += 1;
    }
    assert(chars::texts(sentences@).take(k as int) =~= chars::texts(sentences@));
    pack(&pieces, max_chars)
}

/// The segments of one line.
fn segment_line(line: &str, max_chars: usize) -> (out: Vec<String>)
    ensures
        chars::texts(out@) == line_segments(line@, max_chars as nat),
{
    let para = collapse_dots(clean_text(line).as_str());
    let v = to_chars(para.as_str());
    let mut ends: Vec<Option<usize>> = Vec::new();
    let mut k: usize = 0;
    while k < v.len()
        invariant
            k <= v@.len(),
            ends@.len() == k,
            forall|j: int|
                0 <= j < k ==> (#[trigger] positions(ends@)[j]) == boundaries(v@)[j],
            forall|j: int|
                0 <= j < k && (#[trigger] positions(ends@)[j]) is Some ==> j < positions(
                    ends@,
                )[j]->0 <= v@.len(),
        decreases v@.len() - k,
    {
        let c = v[k];
        let ghost before = ends@;
        let end = if c == '.' || c == '!' || c == '?' {
            closer_end(v.as_slice(), k + 1)
        } else {
            None
        };
        ends.push(end);
        assert(forall|j: int|
            0 <= j < k ==> #[trigger] positions(ends@)[j] == positions(before)[j]);
        k += 1;
    }
    assert(positions(ends@) =~= boundaries(v@));
    segment_at(v.as_slice(), &ends, max_chars)
}

/// The pieces of a character sequence between its newlines.
fn split_lines(v: &[char]) -> (out: Vec<String>)
    ensures
        chars::texts(out@) == split_at_char(v@, '\n'),
{
    let mut out: Vec<String> = Vec::new();
    let mut start: usize = 0;
    let mut i: usize = 0;
    assert(v@.subrange(0, 0) =~= Seq::<char>::empty());
    assert(chars::texts(out@).push(v@.subrange(0, 0)) =~= seq![Seq::<char>::empty()]);
    while i < v.len()
        invariant
            start <= i <= v@.len(),
            split_at_char(v@.take(i as int), '\n') == chars::texts(out@).push(
                v@.subrange(start as int, i as int),
            ),
        decreases v@.len() - i,
    {
        assert(v@.take(i + 1).drop_last() =~= v@.take(i as int));
        let ghost done = chars::texts(out@);
        let ghost open = v@.subrange(start as int, i as int);
        if v[i] == '\n' {
            let line = from_chars(v, start, i);
            out.push(line);
            i += 1;
            start = i;
            assert(v@.subrange(start as int, i as int) =~= Seq::<char>::empty());
            assert(chars::texts(out@) =~= done.push(open));
            assert(chars::texts(out@).push(v@.subrange(start as int, i as int)) =~= done.push(
                open,
            ).push(Seq::empty()));
        } else {
            i += 1;
            assert(v@.subrange(start as int, i as int) =~= open.push(v@[i - 1]));
            assert(done.push(open).update(done.len() as int, open.push(v@[i - 1])) =~= done.push(
                open.push(v@[i - 1]),
            ));
        }
    }
    assert(v@.take(i as int) =~= v@);
    let ghost done = chars::texts(out@);
    let line = from_chars(v, start, i);
    out.push(line);
    assert(chars::texts(out@) =~= done.push(v@.subrange(start as int, i as int)));
    out
}

/// Split text into paragraphs, then into segments within a character budget.
///
/// Segments are whole sentences where sentences fit, and clause-sized pieces where one does not
/// (see [`split_long`]). Every segment is at most `max_chars` bytes, or one character where that
/// alone is longer (see [`segments_within_budget`]), which keeps prompts below the context limit
/// and a segment's speech inside the decoding budget.
pub fn segment(text: &str, max_chars: usize) -> (out: Vec<Vec<String>>)
    ensures
        paragraphs(out@) == segmented(text@, max_chars as nat),
{
    let v = to_chars(text);
    let lines = split_lines(v.as_slice());
    let mut out: Vec<Vec<String>> = Vec::new();
    let mut k: usize = 0;
    assert(paragraphs(out@) =~= Seq::<Seq<Seq<char>>>::empty());
    while k < lines.len()
        invariant
            k <= lines@.len(),
            paragraphs(out@) == lines_segments(
                chars::texts(lines@).take(k as int),
                max_chars as nat,
            ),
        decreases lines@.len() - k,
    {
        let ghost all = chars::texts(lines@);
        let ghost done = paragraphs(out@);
        assert(all.take(k + 1).drop_last() =~= all.take(k as int));
        assert(all.take(k + 1).last() == lines@[k as int]@);
        let segments = segment_line(lines[k].as_str(), max_chars);
        assert(chars::texts(segments@).len() == segments@.len());
        if segments.len() > 0 {
            let ghost added = chars::texts(segments@);
            out.push(segments);
            assert(paragraphs(out@) =~= done.push(added));
        }
        k += 1;
    }
    assert(chars::texts(lines@).take(k as int) =~= chars::texts(lines@));
    out
}

} // verus!
