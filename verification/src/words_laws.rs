//! How texts are taken apart and put together, in terms of their characters.

use crate::chars;
use crate::grid;
use crate::text;
use crate::text_laws;
use vstd::prelude::*;

verus! {

/// That a word stands in a text from `a` on, with white space or an end of the text on either
/// side and none inside.
pub open spec fn whole_run(s: Seq<char>, w: Seq<char>, a: int) -> bool {
    &&& w.len() > 0
    &&& 0 <= a && a + w.len() <= s.len()
    &&& s.subrange(a, a + w.len()) == w
    &&& text_laws::unbroken(w)
    &&& a == 0 || chars::white_space(s[a - 1])
    &&& a + w.len() == s.len() || chars::white_space(s[a + w.len()])
}

/// The words of a text are its unbroken runs, each as long as it can be: they stand in the text in
/// order, and every character that is no white space is in one.
#[verifier::rlimit(50)]
pub proof fn words_are_the_unbroken_runs(s: Seq<char>) -> (at: Seq<int>)
    ensures
        at.len() == text::words(s).len(),
        forall|k: int| 0 <= k < at.len() ==> #[trigger] whole_run(s, text::words(s)[k], at[k]),
        forall|k: int, l: int| 0 <= k < l < at.len() ==> #[trigger] at[k] < #[trigger] at[l],
        forall|i: int|
            0 <= i < s.len() && !chars::white_space(#[trigger] s[i]) ==> exists|k: int|
                0 <= k < at.len() && #[trigger] at[k] <= i < at[k] + text::words(s)[k].len(),
    decreases s.len(),
{
    if s.len() == 0 {
        Seq::empty()
    } else {
        let p = s.drop_last();
        let c = s.last();
        let n = s.len() - 1;
        let before = text::words(p);
        let all = text::words(s);
        let was = words_are_the_unbroken_runs(p);
        let m = before.len() as int;
        let open = !chars::white_space(c) && n > 0 && !chars::white_space(s[n - 1]);
        let fresh = !chars::white_space(c) && !open;
        if open {
            assert(p[n - 1] == s[n - 1]);
            let q = choose|k: int|
                0 <= k < was.len() && #[trigger] was[k] <= n - 1 < was[k] + before[k].len();
            assert(whole_run(p, before[q], was[q]));
            if q < m - 1 {
                assert(whole_run(p, before[m - 1], was[m - 1]));
                assert(was[q] < was[m - 1] < n);
                assert(before[q][was[m - 1] - 1 - was[q]] == p[was[m - 1] - 1]);
            }
            assert(all =~= before.update(m - 1, before[m - 1].push(c)));
        } else if fresh {
            assert(all =~= before.push(seq![c]));
        } else {
            assert(all =~= before);
        }
        let at = if fresh {
            was.push(n)
        } else {
            was
        };
        assert forall|k: int| 0 <= k < at.len() implies #[trigger] whole_run(s, all[k], at[k]) by {
            let w = all[k];
            if k < m {
                let o = before[k];
                assert(whole_run(p, o, was[k]));
                let e = was[k] + o.len();
                if open && k == m - 1 {
                    assert(e == n);
                    assert(s.subrange(at[k], at[k] + w.len()) =~= p.subrange(was[k], e).push(c));
                } else {
                    assert(s.subrange(at[k], at[k] + w.len()) =~= p.subrange(was[k], e));
                    if e < n {
                        assert(p[e] == s[e]);
                    } else if !chars::white_space(c) {
                        assert(o[o.len() - 1] == p[n - 1]);
                        assert(open);
                        assert(whole_run(p, before[m - 1], was[m - 1]));
                        assert(was[k] < was[m - 1]);
                        assert(o[was[m - 1] - 1 - was[k]] == p[was[m - 1] - 1]);
                    }
                }
                if at[k] > 0 {
                    assert(p[at[k] - 1] == s[at[k] - 1]);
                }
            } else {
                assert(s.subrange(n, n + 1) =~= w);
            }
        }
        assert forall|k: int, l: int| 0 <= k < l < at.len() implies #[trigger] at[k]
            < #[trigger] at[l] by {
            assert(whole_run(p, before[k], was[k]));
            if l < m {
                assert(was[k] < was[l]);
            }
        }
        assert forall|i: int| 0 <= i < s.len() && !chars::white_space(#[trigger] s[i]) implies exists|
            k: int,
        |
            0 <= k < at.len() && #[trigger] at[k] <= i < at[k] + all[k].len() by {
            if i < n {
                assert(p[i] == s[i]);
                let k = choose|k: int|
                    0 <= k < was.len() && #[trigger] was[k] <= i < was[k] + before[k].len();
                assert(at[k] == was[k]);
                assert(all[k].len() >= before[k].len());
            } else if fresh {
                assert(at[m] == n);
            } else {
                assert(whole_run(s, all[m - 1], at[m - 1]));
                assert(at[m - 1] + all[m - 1].len() == s.len());
            }
        }
        at
    }
}

/// Trimming takes white space off the ends of a text and nothing else, and leaves none there.
pub proof fn trimming_takes_off_the_ends(s: Seq<char>) -> (r: (int, int))
    ensures
        0 <= r.0 <= r.1 <= s.len(),
        text::trimmed(s) == s.subrange(r.0, r.1),
        forall|i: int| 0 <= i < r.0 ==> chars::white_space(#[trigger] s[i]),
        forall|i: int| r.1 <= i < s.len() ==> chars::white_space(#[trigger] s[i]),
        r.0 < r.1 ==> !chars::white_space(s[r.0]) && !chars::white_space(s[r.1 - 1]),
{
    let a = lemma_start(s);
    let t = text::trimmed_start(s);
    let b = lemma_end(t);
    assert(text::trimmed(s) =~= s.subrange(a, a + b));
    assert forall|i: int| a + b <= i < s.len() implies chars::white_space(#[trigger] s[i]) by {
        assert(t[i - a] == s[i]);
    }
    if b > 0 {
        assert(t[0] == s[a] && t[b - 1] == s[a + b - 1]);
    }
    (a, a + b)
}

proof fn lemma_start(s: Seq<char>) -> (a: int)
    ensures
        0 <= a <= s.len(),
        text::trimmed_start(s) == s.subrange(a, s.len() as int),
        forall|i: int| 0 <= i < a ==> chars::white_space(#[trigger] s[i]),
        a < s.len() ==> !chars::white_space(s[a]),
    decreases s.len(),
{
    if s.len() > 0 && chars::white_space(s[0]) {
        let r = s.drop_first();
        let a = lemma_start(r);
        assert(r.subrange(a, r.len() as int) =~= s.subrange(a + 1, s.len() as int));
        assert forall|i: int| 0 <= i < a + 1 implies chars::white_space(#[trigger] s[i]) by {
            if i > 0 {
                assert(r[i - 1] == s[i]);
            }
        }
        a + 1
    } else {
        assert(s.subrange(0, s.len() as int) =~= s);
        0
    }
}

proof fn lemma_end(s: Seq<char>) -> (b: int)
    ensures
        0 <= b <= s.len(),
        text::trimmed_end(s) == s.subrange(0, b),
        forall|i: int| b <= i < s.len() ==> chars::white_space(#[trigger] s[i]),
        b > 0 ==> !chars::white_space(s[b - 1]),
    decreases s.len(),
{
    if s.len() > 0 && chars::white_space(s.last()) {
        let p = s.drop_last();
        let b = lemma_end(p);
        assert(p.subrange(0, b) =~= s.subrange(0, b));
        assert forall|i: int| b <= i < s.len() implies chars::white_space(#[trigger] s[i]) by {
            if i < p.len() {
                assert(p[i] == s[i]);
            }
        }
        b
    } else {
        assert(s.subrange(0, s.len() as int) =~= s);
        s.len() as int
    }
}

/// Collapsing periods takes out the periods that stand right behind a period, and nothing else.
#[verifier::rlimit(50)]
pub proof fn collapsing_takes_out_repeated_dots(s: Seq<char>) -> (kept: Seq<int>)
    ensures
        kept.len() == text::single_dots(s).len(),
        forall|k: int, l: int| 0 <= k < l < kept.len() ==> #[trigger] kept[k] < #[trigger] kept[l],
        forall|k: int|
            0 <= k < kept.len() ==> 0 <= #[trigger] kept[k] < s.len() && text::single_dots(s)[k]
                == s[kept[k]],
        forall|i: int|
            0 <= i < s.len() ==> (#[trigger] kept.contains(i) <==> !(s[i] == '.' && i > 0 && s[i
                - 1] == '.')),
    decreases s.len(),
{
    if s.len() == 0 {
        Seq::empty()
    } else {
        let p = s.drop_last();
        let n = s.len() - 1;
        let was = collapsing_takes_out_repeated_dots(p);
        if s.last() == '.' && s.len() >= 2 && s[n - 1] == '.' {
            assert forall|i: int| 0 <= i < s.len() implies (#[trigger] was.contains(i) <==> !(s[i]
                == '.' && i > 0 && s[i - 1] == '.')) by {
                if i < n {
                    assert(p[i] == s[i]);
                }
            }
            was
        } else {
            let kept = was.push(n);
            assert forall|i: int| 0 <= i < s.len() implies (#[trigger] kept.contains(i) <==> !(s[i]
                == '.' && i > 0 && s[i - 1] == '.')) by {
                if i < n {
                    assert(p[i] == s[i]);
                    if was.contains(i) {
                        let k = choose|k: int| 0 <= k < was.len() && was[k] == i;
                        assert(kept[k] == i);
                    }
                    if kept.contains(i) {
                        let k = choose|k: int| 0 <= k < kept.len() && kept[k] == i;
                        assert(was[k] == i);
                    }
                } else {
                    assert(kept[was.len() as int] == n);
                }
            }
            kept
        }
    }
}

/// That a part is what stands in a text between two places.
pub open spec fn stands_between(s: Seq<char>, part: Seq<char>, start: int, end: int) -> bool {
    0 <= start <= end <= s.len() && part == s.subrange(start, end)
}

/// Splitting at a character keeps everything else: the parts stand in the text one behind the other
/// with one separator between neighbours, and hold none.
#[verifier::rlimit(50)]
pub proof fn splitting_drops_only_separators(s: Seq<char>, sep: char) -> (from: Seq<int>)
    ensures
        from.len() == text::split_at_char(s, sep).len() + 1,
        from.len() >= 2,
        from[0] == 0,
        from.last() == s.len() + 1,
        forall|k: int|
            0 <= k < from.len() - 1 ==> #[trigger] stands_between(
                s,
                text::split_at_char(s, sep)[k],
                from[k],
                from[k + 1] - 1,
            ),
        forall|i: int|
            0 <= i < s.len() ==> (#[trigger] s[i] == sep <==> from.contains(i + 1)),
    decreases s.len(),
{
    if s.len() == 0 {
        let from = seq![0int, 1int];
        assert(s.subrange(0, 0) =~= Seq::<char>::empty());
        from
    } else {
        let p = s.drop_last();
        let n = s.len() - 1;
        let before = text::split_at_char(p, sep);
        let all = text::split_at_char(s, sep);
        let was = splitting_drops_only_separators(p, sep);
        let m = before.len() as int;
        assert(was[m] == n + 1);
        let from = if s[n] == sep {
            was.push(n + 2)
        } else {
            was.update(m, n + 2)
        };
        assert forall|k: int| 0 <= k < from.len() - 1 implies #[trigger] stands_between(
            s,
            all[k],
            from[k],
            from[k + 1] - 1,
        ) by {
            if k < m {
                assert(stands_between(p, before[k], was[k], was[k + 1] - 1));
                if k + 1 < m || s[n] == sep {
                    assert(all[k] == before[k]);
                    assert(p.subrange(was[k], was[k + 1] - 1) =~= s.subrange(
                        was[k],
                        was[k + 1] - 1,
                    ));
                } else {
                    assert(all[k] == before[k].push(s[n]));
                    assert(s.subrange(was[k], n + 1) =~= p.subrange(was[k], n).push(s[n]));
                }
            } else {
                assert(s.subrange(n + 1, n + 1) =~= Seq::<char>::empty());
            }
        }
        assert forall|i: int| 0 <= i < s.len() implies (#[trigger] s[i] == sep <==> from.contains(
            i + 1,
        )) by {
            if i < n {
                assert(p[i] == s[i]);
                if was.contains(i + 1) {
                    let k = choose|k: int| 0 <= k < was.len() && was[k] == i + 1;
                    assert(from[k] == i + 1);
                }
                if from.contains(i + 1) {
                    let k = choose|k: int| 0 <= k < from.len() && from[k] == i + 1;
                    assert(was[k] == i + 1);
                }
            } else {
                if s[n] == sep {
                    assert(from[m] == n + 1);
                } else if from.contains(n + 1) {
                    let k = choose|k: int| 0 <= k < from.len() && from[k] == n + 1;
                    assert(k < m);
                    if was[k] == n + 1 {
                        lemma_between(p, before, was, k);
                    }
                }
            }
        }
        from
    }
}

proof fn lemma_between(s: Seq<char>, parts: Seq<Seq<char>>, from: Seq<int>, k: int)
    requires
        0 <= k < from.len() - 1,
        forall|k: int|
            0 <= k < from.len() - 1 ==> #[trigger] stands_between(
                s,
                parts[k],
                from[k],
                from[k + 1] - 1,
            ),
    ensures
        from[k] <= s.len(),
{
    assert(stands_between(s, parts[k], from[k], from[k + 1] - 1));
}

/// A word is cut into runs that hold all of it in order. A run is within the budget or a single
/// character, and ends only because the next character does not fit.
#[verifier::rlimit(50)]
pub proof fn a_word_is_cut_as_late_as_it_can_be(w: Seq<char>, max: nat)
    ensures
        grid::flat_rows(text::word_runs(w, max)) == w,
        forall|k: int|
            0 <= k < text::word_runs(w, max).len() ==> (#[trigger] text::word_runs(w, max)[k]).len()
                > 0 && (text::word_runs(w, max)[k].len() == 1 || chars::byte_len(
                text::word_runs(w, max)[k],
            ) <= max),
        forall|k: int, l: int|
            0 <= k && l == k + 1 && l < text::word_runs(w, max).len() ==> chars::byte_len(
                (#[trigger] text::word_runs(w, max)[k]).push(
                    (#[trigger] text::word_runs(w, max)[l])[0],
                ),
            ) > max,
    decreases w.len(),
{
    if w.len() == 0 {
        assert(grid::flat_rows(text::word_runs(w, max)) =~= w);
    } else {
        let p = w.drop_last();
        let c = w.last();
        let before = text::word_runs(p, max);
        let all = text::word_runs(w, max);
        a_word_is_cut_as_late_as_it_can_be(p, max);
        if before.len() > 0 && chars::byte_len(before.last().push(c)) <= max {
            assert(all.drop_last() =~= before.drop_last());
            assert(grid::flat_rows(all) =~= grid::flat_rows(before).push(c));
            assert(before[before.len() - 1] == before.last());
            assert forall|k: int, l: int| 0 <= k && l == k + 1 && l < all.len() implies
                chars::byte_len((#[trigger] all[k]).push((#[trigger] all[l])[0])) > max by {
                assert(all[k] == before[k]);
                assert(before[l].len() > 0);
                assert(all[l][0] == before[l][0]);
                assert(chars::byte_len(before[k].push(before[l][0])) > max);
            }
        } else {
            assert(all.drop_last() =~= before);
            assert(grid::flat_rows(all) =~= grid::flat_rows(before).push(c));
            assert forall|k: int, l: int| 0 <= k && l == k + 1 && l < all.len() implies
                chars::byte_len((#[trigger] all[k]).push((#[trigger] all[l])[0])) > max by {
                if l < before.len() {
                    assert(chars::byte_len(before[k].push(before[l][0])) > max);
                }
            }
        }
        assert(p.push(c) =~= w);
    }
}

/// The pieces, each without the white space at its ends.
pub open spec fn tidied(ps: Seq<Seq<char>>) -> Seq<Seq<char>> {
    Seq::new(ps.len(), |i: int| text::trimmed(ps[i]))
}

/// That a line holds the pieces from `start` up to `end`, with one space between neighbours, and
/// is within the budget unless it holds a single piece.
pub open spec fn holds_pieces(
    ps: Seq<Seq<char>>,
    line: Seq<char>,
    max: nat,
    start: int,
    end: int,
) -> bool {
    &&& 0 <= start < end <= ps.len()
    &&& line == text::joined(ps.subrange(start, end))
    &&& end - start > 1 ==> chars::byte_len(line) <= max
}

/// That the piece at `next` does not fit on a line.
pub open spec fn overflows(ps: Seq<Seq<char>>, line: Seq<char>, max: nat, next: int) -> bool {
    0 <= next < ps.len() && chars::byte_len(line) + 1 + chars::byte_len(ps[next]) > max
}

proof fn lemma_joined_with(ps: Seq<Seq<char>>, start: int, end: int)
    requires
        0 <= start < end < ps.len(),
    ensures
        text::joined(ps.subrange(start, end + 1)) == text::joined(ps.subrange(start, end)).push(' ')
            + ps[end],
{
    assert(ps.subrange(start, end + 1).drop_last() =~= ps.subrange(start, end));
}

#[verifier::rlimit(50)]
proof fn lemma_packing_cuts(ps: Seq<Seq<char>>, max: nat) -> (cuts: Seq<int>)
    requires
        forall|i: int| 0 <= i < ps.len() ==> text::trimmed(#[trigger] ps[i]).len() > 0,
    ensures
        cuts.len() == text::packing(ps, max).full.len() + 1,
        cuts[0] == 0,
        0 <= cuts.last() <= ps.len(),
        forall|k: int|
            0 <= k < cuts.len() - 1 ==> #[trigger] holds_pieces(
                tidied(ps),
                text::packing(ps, max).full[k],
                max,
                cuts[k],
                cuts[k + 1],
            ),
        forall|k: int|
            0 <= k < cuts.len() - 1 ==> #[trigger] overflows(
                tidied(ps),
                text::packing(ps, max).full[k],
                max,
                cuts[k + 1],
            ),
        ps.len() > 0 ==> text::packing(ps, max).line.len() > 0 && holds_pieces(
            tidied(ps),
            text::packing(ps, max).line,
            max,
            cuts.last(),
            ps.len() as int,
        ),
        ps.len() == 0 ==> text::packing(ps, max).line.len() == 0,
    decreases ps.len(),
{
    if ps.len() == 0 {
        seq![0int]
    } else {
        let n = ps.len() - 1;
        let b = ps.drop_last();
        assert forall|i: int| 0 <= i < b.len() implies text::trimmed(#[trigger] b[i]).len() > 0 by {
            assert(b[i] == ps[i]);
        }
        let was = lemma_packing_cuts(b, max);
        let q = text::packing(b, max);
        let p = text::packing(ps, max);
        let t = tidied(ps);
        let u = tidied(b);
        let piece = text::trimmed(ps[n]);
        assert(piece.len() > 0);
        assert(t[n] == piece);
        assert(u =~= t.subrange(0, n));
        assert(p == text::pack_one(q, ps[n], max));
        let fresh = n > 0 && chars::byte_len(q.line) + 1 + chars::byte_len(piece) > max;
        let cuts = if fresh {
            was.push(n)
        } else {
            was
        };
        assert forall|k: int| 0 <= k < cuts.len() - 1 implies #[trigger] holds_pieces(
            t,
            p.full[k],
            max,
            cuts[k],
            cuts[k + 1],
        ) by {
            let line = p.full[k];
            if k < was.len() - 1 {
                assert(line == q.full[k]);
                assert(holds_pieces(u, q.full[k], max, was[k], was[k + 1]));
                assert(u.subrange(was[k], was[k + 1]) =~= t.subrange(was[k], was[k + 1]));
            } else {
                assert(u.subrange(was.last(), n) =~= t.subrange(was.last(), n));
            }
        }
        assert forall|k: int| 0 <= k < cuts.len() - 1 implies #[trigger] overflows(
            t,
            p.full[k],
            max,
            cuts[k + 1],
        ) by {
            if k < was.len() - 1 {
                assert(p.full[k] == q.full[k]);
                assert(overflows(u, q.full[k], max, was[k + 1]));
            }
        }
        if n == 0 {
            assert(t.subrange(0, 1) =~= seq![piece]);
            assert(was.len() == 1) by {
                if was.len() > 1 {
                    assert(holds_pieces(u, q.full[0], max, was[0], was[1]));
                }
            }
        } else if fresh {
            assert(t.subrange(n, n + 1) =~= seq![piece]);
        } else {
            assert(u.subrange(was.last(), n) =~= t.subrange(was.last(), n));
            lemma_joined_with(t, was.last(), n);
            chars::lemma_byte_len_concat(q.line.push(' '), piece);
            assert(q.line.push(' ') =~= q.line + seq![' ']);
            chars::lemma_byte_len_concat(q.line, seq![' ']);
            chars::lemma_byte_len_one(' ');
        }
        cuts
    }
}

/// Packing keeps the pieces in order and fills each line as far as it goes: a line takes pieces
/// until the next one, and the space before it, would put it over the budget.
#[verifier::rlimit(50)]
pub proof fn packing_fills_each_line(ps: Seq<Seq<char>>, max: nat) -> (cuts: Seq<int>)
    requires
        forall|i: int| 0 <= i < ps.len() ==> text::trimmed(#[trigger] ps[i]).len() > 0,
    ensures
        cuts.len() == text::packed(ps, max).len() + 1,
        cuts[0] == 0,
        cuts.last() == ps.len(),
        forall|k: int|
            0 <= k < cuts.len() - 1 ==> #[trigger] holds_pieces(
                tidied(ps),
                text::packed(ps, max)[k],
                max,
                cuts[k],
                cuts[k + 1],
            ),
        forall|k: int|
            0 <= k < cuts.len() - 2 ==> #[trigger] overflows(
                tidied(ps),
                text::packed(ps, max)[k],
                max,
                cuts[k + 1],
            ),
{
    let was = lemma_packing_cuts(ps, max);
    let p = text::packing(ps, max);
    let t = tidied(ps);
    if ps.len() == 0 {
        if was.len() > 1 {
            assert(holds_pieces(t, p.full[0], max, was[0], was[1]));
        }
        was
    } else {
        let cuts = was.push(ps.len() as int);
        let lines = text::packed(ps, max);
        assert forall|k: int| 0 <= k < cuts.len() - 1 implies #[trigger] holds_pieces(
            t,
            lines[k],
            max,
            cuts[k],
            cuts[k + 1],
        ) by {
            if k < was.len() - 1 {
                assert(holds_pieces(t, p.full[k], max, was[k], was[k + 1]));
            }
        }
        assert forall|k: int| 0 <= k < cuts.len() - 2 implies #[trigger] overflows(
            t,
            lines[k],
            max,
            cuts[k + 1],
        ) by {
            assert(overflows(t, p.full[k], max, was[k + 1]));
        }
        cuts
    }
}

/// A comma, semicolon, colon or dash.
pub open spec fn ends_clause(c: char) -> bool {
    c == ',' || c == ';' || c == ':' || c == '\u{2014}' || c == '\u{2013}'
}

/// That a clause is closed by a mark just before `end`.
pub open spec fn closed_at(s: Seq<char>, end: int) -> bool {
    0 < end <= s.len() && ends_clause(s[end - 1])
}

#[verifier::rlimit(50)]
proof fn lemma_clauses_open(s: Seq<char>) -> (from: Seq<int>)
    ensures
        from.len() == text::clauses_open(s).0.len() + 1,
        from[0] == 0,
        stands_between(s, text::clauses_open(s).1, from.last(), s.len() as int),
        forall|k: int|
            0 <= k < from.len() - 1 ==> #[trigger] stands_between(
                s,
                text::clauses_open(s).0[k],
                from[k],
                from[k + 1],
            ),
        forall|k: int| 0 < k < from.len() ==> closed_at(s, #[trigger] from[k]),
        forall|i: int|
            0 <= i < s.len() && ends_clause(#[trigger] s[i]) ==> from.contains(i + 1),
    decreases s.len(),
{
    if s.len() == 0 {
        assert(s.subrange(0, 0) =~= Seq::<char>::empty());
        seq![0int]
    } else {
        let p = s.drop_last();
        let n = s.len() - 1;
        let (done, rest) = text::clauses_open(p);
        let was = lemma_clauses_open(p);
        let all = text::clauses_open(s).0;
        let mark = ends_clause(s[n]);
        let from = if mark {
            was.push(n + 1)
        } else {
            was
        };
        assert(s.subrange(was.last(), n + 1) =~= p.subrange(was.last(), n).push(s[n]));
        assert(s.subrange(n + 1, n + 1) =~= Seq::<char>::empty());
        assert forall|k: int| 0 <= k < from.len() - 1 implies #[trigger] stands_between(
            s,
            all[k],
            from[k],
            from[k + 1],
        ) by {
            if k < was.len() - 1 {
                assert(stands_between(p, done[k], was[k], was[k + 1]));
                assert(p.subrange(was[k], was[k + 1]) =~= s.subrange(was[k], was[k + 1]));
            }
        }
        assert forall|k: int| 0 < k < from.len() implies closed_at(s, #[trigger] from[k]) by {
            if k < was.len() {
                assert(closed_at(p, was[k]));
                assert(p[was[k] - 1] == s[was[k] - 1]);
            }
        }
        assert forall|i: int| 0 <= i < s.len() && ends_clause(#[trigger] s[i]) implies from.contains(
            i + 1,
        ) by {
            if i < n {
                assert(p[i] == s[i]);
                let k = choose|k: int| 0 <= k < was.len() && was[k] == i + 1;
                assert(from[k] == i + 1);
            } else {
                assert(from[was.len() as int] == n + 1);
            }
        }
        from
    }
}

/// The clauses of a text end behind its commas, semicolons, colons and dashes, and only there;
/// what is left behind the last of these is a clause too unless it is white space.
#[verifier::rlimit(50)]
pub proof fn clauses_end_behind_their_marks(s: Seq<char>) -> (from: Seq<int>)
    ensures
        from.len() == text::clauses(s).len() + 1,
        from[0] == 0,
        0 <= from.last() <= s.len(),
        forall|k: int|
            0 <= k < from.len() - 1 ==> #[trigger] stands_between(
                s,
                text::clauses(s)[k],
                from[k],
                from[k + 1],
            ),
        forall|k: int| 0 < k < from.len() - 1 ==> closed_at(s, #[trigger] from[k]),
        from.len() > 1 ==> closed_at(s, from.last()) || from.last() == s.len(),
        forall|i: int|
            0 <= i < s.len() && ends_clause(#[trigger] s[i]) ==> from.contains(i + 1),
        forall|i: int| from.last() <= i < s.len() ==> chars::white_space(#[trigger] s[i]),
        forall|k: int|
            0 <= k < text::clauses(s).len() ==> text::trimmed(#[trigger] text::clauses(s)[k]).len()
                > 0,
{
    let was = lemma_clauses_open(s);
    let (done, rest) = text::clauses_open(s);
    let all = text::clauses(s);
    let (a, b) = trimming_takes_off_the_ends(rest);
    let blank = text::trimmed(rest).len() == 0;
    let from = if blank {
        was
    } else {
        was.push(s.len() as int)
    };
    assert forall|i: int| from.last() <= i < s.len() implies chars::white_space(
        #[trigger] s[i],
    ) by {
        assert(rest[i - was.last()] == s[i]);
    }
    assert forall|k: int| 0 <= k < from.len() - 1 implies #[trigger] stands_between(
        s,
        all[k],
        from[k],
        from[k + 1],
    ) by {
        if k < was.len() - 1 {
            assert(stands_between(s, done[k], was[k], was[k + 1]));
        }
    }
    assert forall|i: int| 0 <= i < s.len() && ends_clause(#[trigger] s[i]) implies from.contains(
        i + 1,
    ) by {
        let k = choose|k: int| 0 <= k < was.len() && was[k] == i + 1;
        assert(from[k] == i + 1);
    }
    assert forall|k: int| 0 <= k < all.len() implies text::trimmed(#[trigger] all[k]).len() > 0 by {
        if k < done.len() {
            let c = done[k];
            assert(stands_between(s, done[k], was[k], was[k + 1]));
            assert(closed_at(s, was[k + 1]));
            let (x, y) = trimming_takes_off_the_ends(c);
            if x == y {
                let e = was[k + 1];
                if was[k] == e {
                    lemma_full_clauses(s, k);
                }
                assert(c[e - 1 - was[k]] == s[e - 1]);
                assert(!chars::white_space(s[e - 1]));
            }
        }
    }
    from
}

proof fn lemma_full_clauses(s: Seq<char>, k: int)
    requires
        0 <= k < text::clauses_open(s).0.len(),
    ensures
        text::clauses_open(s).0[k].len() > 0,
    decreases s.len(),
{
    let done = text::clauses_open(s.drop_last()).0;
    if k < done.len() {
        lemma_full_clauses(s.drop_last(), k);
    }
}

proof fn lemma_whole_clauses(cs: Seq<Seq<char>>, max: nat)
    requires
        forall|k: int| 0 <= k < cs.len() ==> chars::byte_len(#[trigger] cs[k]) <= max,
    ensures
        text::all_clause_pieces(cs, max) == cs,
    decreases cs.len(),
{
    if cs.len() > 0 {
        assert forall|k: int| 0 <= k < cs.drop_last().len() implies chars::byte_len(
            #[trigger] cs.drop_last()[k],
        ) <= max by {
            assert(cs.drop_last()[k] == cs[k]);
        }
        lemma_whole_clauses(cs.drop_last(), max);
        assert(text::clause_pieces(cs.last(), max) =~= seq![cs.last()]);
    }
    assert(text::all_clause_pieces(cs, max) =~= cs);
}

/// A sentence over the budget, each clause of which is within it, is broken between clauses only,
/// and no earlier than it has to be.
#[verifier::rlimit(50)]
pub proof fn long_sentences_break_between_clauses(s: Seq<char>, max: nat) -> (cuts: Seq<int>)
    requires
        chars::byte_len(s) > max,
        forall|k: int|
            0 <= k < text::clauses(s).len() ==> chars::byte_len(#[trigger] text::clauses(s)[k])
                <= max,
    ensures
        cuts.len() == text::long_split(s, max).len() + 1,
        cuts[0] == 0,
        cuts.last() == text::clauses(s).len(),
        forall|k: int|
            0 <= k < cuts.len() - 1 ==> #[trigger] holds_pieces(
                tidied(text::clauses(s)),
                text::long_split(s, max)[k],
                max,
                cuts[k],
                cuts[k + 1],
            ),
        forall|k: int|
            0 <= k < cuts.len() - 2 ==> #[trigger] overflows(
                tidied(text::clauses(s)),
                text::long_split(s, max)[k],
                max,
                cuts[k + 1],
            ),
{
    clauses_end_behind_their_marks(s);
    lemma_whole_clauses(text::clauses(s), max);
    packing_fills_each_line(text::clauses(s), max)
}

proof fn lemma_whole_word(w: Seq<char>, max: nat)
    requires
        w.len() > 0,
        chars::byte_len(w) <= max,
    ensures
        text::word_runs(w, max) == seq![w],
    decreases w.len(),
{
    let p = w.drop_last();
    assert(w =~= p.push(w.last()));
    assert(p.push(w.last()) =~= p + seq![w.last()]);
    chars::lemma_byte_len_concat(p, seq![w.last()]);
    if p.len() == 0 {
        assert(seq![w.last()] =~= w);
        assert(text::word_runs(p, max) =~= Seq::<Seq<char>>::empty());
    } else {
        lemma_whole_word(p, max);
    }
    assert(text::word_runs(w, max) =~= seq![w]);
}

proof fn lemma_whole_words(ws: Seq<Seq<char>>, max: nat)
    requires
        forall|k: int|
            0 <= k < ws.len() ==> (#[trigger] ws[k]).len() > 0 && chars::byte_len(ws[k]) <= max,
    ensures
        text::all_word_runs(ws, max) == ws,
    decreases ws.len(),
{
    if ws.len() > 0 {
        let b = ws.drop_last();
        assert forall|k: int| 0 <= k < b.len() implies (#[trigger] b[k]).len() > 0
            && chars::byte_len(b[k]) <= max by {
            assert(b[k] == ws[k]);
        }
        lemma_whole_words(b, max);
        assert(ws.last() == ws[ws.len() - 1]);
        lemma_whole_word(ws.last(), max);
    }
    assert(text::all_word_runs(ws, max) =~= ws);
}

/// A clause over the budget, each word of which is within it, is broken between words only, and
/// no earlier than it has to be.
#[verifier::rlimit(50)]
pub proof fn long_clauses_break_between_words(c: Seq<char>, max: nat) -> (cuts: Seq<int>)
    requires
        chars::byte_len(c) > max,
        forall|k: int|
            0 <= k < text::words(c).len() ==> chars::byte_len(#[trigger] text::words(c)[k]) <= max,
    ensures
        cuts.len() == text::clause_pieces(c, max).len() + 1,
        cuts[0] == 0,
        cuts.last() == text::words(c).len(),
        forall|k: int|
            0 <= k < cuts.len() - 1 ==> #[trigger] holds_pieces(
                text::words(c),
                text::clause_pieces(c, max)[k],
                max,
                cuts[k],
                cuts[k + 1],
            ),
        forall|k: int|
            0 <= k < cuts.len() - 2 ==> #[trigger] overflows(
                text::words(c),
                text::clause_pieces(c, max)[k],
                max,
                cuts[k + 1],
            ),
{
    let ws = text::words(c);
    lemma_words_are_trimmed(c);
    assert forall|k: int| 0 <= k < ws.len() implies (#[trigger] ws[k]).len() > 0 && chars::byte_len(
        ws[k],
    ) <= max by {
        assert(text::trimmed(ws[k]) == ws[k]);
    }
    lemma_whole_words(ws, max);
    assert(tidied(ws) =~= ws);
    packing_fills_each_line(ws, max)
}

proof fn lemma_word_is_trimmed(w: Seq<char>)
    requires
        text_laws::unbroken(w),
    ensures
        text::trimmed(w) == w,
{
    if w.len() == 0 {
        assert(text::trimmed_start(w) == w);
        assert(text::trimmed_end(w) == w);
    } else {
        let n = w.len() - 1;
        assert(!chars::white_space(w[0]));
        assert(!chars::white_space(w[n]));
        assert(text::trimmed_start(w) == w);
        assert(w.last() == w[n]);
        assert(text::trimmed_end(w) == w);
    }
}

proof fn lemma_words_are_trimmed(c: Seq<char>)
    ensures
        forall|k: int|
            0 <= k < text::words(c).len() ==> text::trimmed(#[trigger] text::words(c)[k])
                == text::words(c)[k] && text::words(c)[k].len() > 0,
{
    let ws = text::words(c);
    let at = words_are_the_unbroken_runs(c);
    assert forall|k: int| 0 <= k < ws.len() implies text::trimmed(#[trigger] ws[k]) == ws[k]
        && ws[k].len() > 0 by {
        assert(whole_run(c, ws[k], at[k]));
        lemma_word_is_trimmed(ws[k]);
    }
}

/// The paragraphs of a text are its lines that have segments, in order.
#[verifier::rlimit(50)]
pub proof fn paragraphs_are_the_lines_with_segments(lines: Seq<Seq<char>>, max: nat) -> (idx: Seq<
    int,
>)
    ensures
        idx.len() == text::lines_segments(lines, max).len(),
        forall|k: int, l: int| 0 <= k < l < idx.len() ==> #[trigger] idx[k] < #[trigger] idx[l],
        forall|k: int|
            0 <= k < idx.len() ==> 0 <= #[trigger] idx[k] < lines.len() && text::lines_segments(
                lines,
                max,
            )[k] == text::line_segments(lines[idx[k]], max),
        forall|i: int|
            0 <= i < lines.len() ==> (#[trigger] idx.contains(i) <==> text::line_segments(
                lines[i],
                max,
            ).len() > 0),
    decreases lines.len(),
{
    if lines.len() == 0 {
        Seq::empty()
    } else {
        let b = lines.drop_last();
        let n = lines.len() - 1;
        let was = paragraphs_are_the_lines_with_segments(b, max);
        let some = text::line_segments(lines[n], max).len() > 0;
        let idx = if some {
            was.push(n)
        } else {
            was
        };
        assert forall|i: int| 0 <= i < lines.len() implies (#[trigger] idx.contains(i)
            <==> text::line_segments(lines[i], max).len() > 0) by {
            if i < n {
                assert(b[i] == lines[i]);
                if was.contains(i) {
                    let k = choose|k: int| 0 <= k < was.len() && was[k] == i;
                    assert(idx[k] == i);
                }
                if idx.contains(i) {
                    let k = choose|k: int| 0 <= k < idx.len() && idx[k] == i;
                    assert(was[k] == i);
                }
            } else if some {
                assert(idx[was.len() as int] == n);
            }
        }
        assert forall|k: int| 0 <= k < idx.len() implies 0 <= #[trigger] idx[k] < lines.len()
            && text::lines_segments(lines, max)[k] == text::line_segments(lines[idx[k]], max) by {
            if k < was.len() {
                assert(0 <= was[k] < b.len());
                assert(b[was[k]] == lines[was[k]]);
            }
        }
        idx
    }
}

} // verus!
