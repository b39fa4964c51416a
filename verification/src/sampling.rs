//! The decisions of sampling: which candidates survive, and which of them is taken.
//!
//! Scores and probabilities are floating point and are computed outside. What reaches this module
//! is their order, as integer keys that compare as the scores do, and the outcome of comparing a
//! running sum with a threshold, as one flag for each candidate.

use vstd::prelude::*;

verus! {

/// Candidate `a` comes before candidate `b`: by score descending, by index among equals.
pub open spec fn outranks(keys: Seq<i64>, a: int, b: int) -> bool {
    keys[a] > keys[b] || (keys[a] == keys[b] && a < b)
}

/// `ranks` lists candidates from the best down, and no other candidate comes before any of them.
pub open spec fn ranked(keys: Seq<i64>, ranks: Seq<usize>) -> bool {
    &&& forall|i: int| 0 <= i < ranks.len() ==> (#[trigger] ranks[i]) < keys.len()
    &&& forall|i: int, j: int|
        0 <= i < j < ranks.len() ==> outranks(
            keys,
            #[trigger] ranks[i] as int,
            #[trigger] ranks[j] as int,
        )
    &&& forall|a: int, i: int|
        0 <= a < keys.len() && !ranks.contains(a as usize) && 0 <= i < ranks.len() ==> outranks(
            keys,
            #[trigger] ranks[i] as int,
            #[trigger] candidate(a),
        )
}

/// A candidate.
pub open spec fn candidate(a: int) -> int {
    a
}

/// How many candidates a top-`k` cut keeps: at least one, at most all.
pub open spec fn kept_count(k: int, n: int) -> int {
    if k < 1 {
        1
    } else if k > n {
        n
    } else {
        k
    }
}

/// The top `k` candidates, best first. Equal scores are ordered by index, so the result does not
/// depend on how a sort happens to break ties.
pub fn top_ranks(keys: &Vec<i64>, k: usize) -> (ranks: Vec<usize>)
    requires
        keys@.len() > 0,
    ensures
        ranks@.len() == kept_count(k as int, keys@.len() as int),
        ranked(keys@, ranks@),
{
    let n: usize = keys.len();
    let keep: usize = if k < 1 {
        1
    } else if k > n {
        n
    } else {
        k
    };
    let mut ranks: Vec<usize> = Vec::new();
    let mut a: usize = 0;
    while a < n
        invariant
            a <= n == keys@.len(),
            1 <= keep <= n,
            ranks@.len() == if a < keep {
                a
            } else {
                keep
            },
            forall|i: int| 0 <= i < ranks@.len() ==> (#[trigger] ranks@[i]) < a,
            forall|i: int, j: int|
                0 <= i < j < ranks@.len() ==> outranks(
                    keys@,
                    #[trigger] ranks@[i] as int,
                    #[trigger] ranks@[j] as int,
                ),
            forall|b: int, i: int|
                0 <= b < a && !ranks@.contains(b as usize) && 0 <= i < ranks@.len() ==> outranks(
                    keys@,
                    #[trigger] ranks@[i] as int,
                    #[trigger] candidate(b),
                ),
            a < keep ==> forall|b: int| 0 <= b < a ==> ranks@.contains(#[trigger] candidate(b) as usize),
        decreases n - a,
    {
        let ghost before = ranks@;
        let mut p: usize = 0;
        while p < ranks.len() && keys[ranks[p]] >= keys[a]
            invariant
                p <= ranks@.len(),
                ranks@ == before,
                a < keys@.len(),
                forall|i: int| 0 <= i < ranks@.len() ==> (#[trigger] ranks@[i]) < a,
                forall|i: int|
                    0 <= i < p ==> outranks(keys@, #[trigger] ranks@[i] as int, a as int),
            decreases ranks@.len() - p,
        {
            p += 1;
        }
        assert forall|i: int| p <= i < before.len() implies outranks(
            keys@,
            a as int,
            #[trigger] before[i] as int,
        ) by {
            if p < i {
                assert(outranks(keys@, before[p as int] as int, before[i] as int));
            }
        }
        ranks.insert(p, a);
        let ghost wide = ranks@;
        assert(wide =~= before.insert(p as int, a));
        assert forall|i: int, j: int| 0 <= i < j < wide.len() implies outranks(
            keys@,
            #[trigger] wide[i] as int,
            #[trigger] wide[j] as int,
        ) by {
            let i0 = if i <= p { i } else { i - 1 };
            let j0 = if j <= p { j } else { j - 1 };
            if i == p {
                assert(wide[j] == before[j0]);
            } else if j == p {
                assert(wide[i] == before[i0]);
            } else {
                assert(wide[i] == before[i0]);
                assert(wide[j] == before[j0]);
            }
        }
        proof {
            lemma_insert_contains(before, p as int, a);
        }
        if ranks.len() > keep {
            let _ = ranks.pop();
            assert(ranks@ =~= wide.drop_last());
        }
        assert forall|b: int, i: int|
            0 <= b < a + 1 && !ranks@.contains(b as usize) && 0 <= i < ranks@.len() implies outranks(
            keys@,
            #[trigger] ranks@[i] as int,
            #[trigger] candidate(b),
        ) by {
            assert(ranks@[i] == wide[i]);
            if wide.contains(b as usize) {
                let m = choose|m: int| 0 <= m < wide.len() && wide[m] == b as usize;
                if m < ranks@.len() {
                    assert(ranks@[m] == b as usize);
                }
                assert(m == wide.len() - 1);
                assert(outranks(keys@, wide[i] as int, wide[m] as int));
            } else {
                assert(b != a);
                assert(!before.contains(b as usize));
                let i0 = if i <= p { i } else { i - 1 };
                if i == p {
                    if before.len() == 0 {
                        assert(before.contains(candidate(b) as usize));
                    }
                    if p < before.len() {
                        assert(outranks(keys@, before[p as int] as int, candidate(b)));
                    } else {
                        assert(before.len() >= keep) by {
                            if a < keep {
                                assert(before.contains(candidate(b) as usize));
                            }
                        }
                    }
                } else {
                    assert(wide[i] == before[i0]);
                    assert(outranks(keys@, before[i0] as int, candidate(b)));
                }
            }
        }
        assert(a + 1 < keep ==> forall|b: int|
            0 <= b < a + 1 ==> ranks@.contains(#[trigger] candidate(b) as usize)) by {
            if a + 1 < keep {
                assert forall|b: int| 0 <= b < a + 1 implies ranks@.contains(
                    #[trigger] candidate(b) as usize,
                ) by {
                    if b < a {
                        assert(before.contains(candidate(b) as usize));
                    }
                }
            }
        }
        a += 1;
    }
    ranks
}

proof fn lemma_insert_contains(s: Seq<usize>, p: int, a: usize)
    requires
        0 <= p <= s.len(),
    ensures
        s.insert(p, a).contains(a),
        forall|b: usize| #[trigger] s.contains(b) ==> s.insert(p, a).contains(b),
        forall|b: usize| #[trigger] s.insert(p, a).contains(b) ==> s.contains(b) || b == a,
{
    let t = s.insert(p, a);
    assert(t[p] == a);
    assert forall|b: usize| #[trigger] s.contains(b) implies t.contains(b) by {
        let m = choose|m: int| 0 <= m < s.len() && s[m] == b;
        assert(t[if m < p { m } else { m + 1 }] == b);
    }
    assert forall|b: usize| #[trigger] t.contains(b) implies s.contains(b) || b == a by {
        let m = choose|m: int| 0 <= m < t.len() && t[m] == b;
        if m != p {
            assert(s[if m < p { m } else { m - 1 }] == b);
        }
    }
}

/// Which of `n` candidates survive: those of rank 0, and those whose running sum stays within the
/// threshold.
pub open spec fn survives(ranks: Seq<usize>, within: Seq<bool>, a: int) -> bool {
    exists|r: int|
        0 <= r < ranks.len() && #[trigger] ranks[r] == a && (r == 0 || within[r])
}

/// Marks the candidates that survive. `within[r]` says whether the running sum up to and with
/// rank `r` stays within the threshold. The best one always survives, even if its own probability
/// is over the threshold already.
pub fn survivors(n: usize, ranks: &Vec<usize>, within: &Vec<bool>) -> (out: Vec<bool>)
    requires
        ranks@.len() == within@.len(),
        forall|r: int| 0 <= r < ranks@.len() ==> (#[trigger] ranks@[r]) < n,
    ensures
        out@.len() == n,
        forall|a: int| 0 <= a < n ==> #[trigger] out@[a] == survives(ranks@, within@, a),
{
    let mut out: Vec<bool> = Vec::new();
    let mut a: usize = 0;
    while a < n
        invariant
            a <= n,
            out@.len() == a,
            forall|b: int| 0 <= b < a ==> !(#[trigger] out@[b]),
        decreases n - a,
    {
        out.push(false);
        a += 1;
    }
    let mut r: usize = 0;
    while r < ranks.len()
        invariant
            r <= ranks@.len() == within@.len(),
            out@.len() == n,
            forall|q: int| 0 <= q < ranks@.len() ==> (#[trigger] ranks@[q]) < n,
            forall|b: int|
                0 <= b < n ==> #[trigger] out@[b] == (exists|q: int|
                    0 <= q < r && #[trigger] ranks@[q] == b && (q == 0 || within@[q])),
        decreases ranks@.len() - r,
    {
        let ghost was = out@;
        let at: usize = ranks[r];
        if r == 0 || within[r] {
            out.set(at, true);
        }
        assert forall|b: int| 0 <= b < n implies #[trigger] out@[b] == (exists|q: int|
            0 <= q < r + 1 && #[trigger] ranks@[q] == b && (q == 0 || within@[q])) by {
            if was[b] {
                let q = choose|q: int|
                    0 <= q < r && #[trigger] ranks@[q] == b && (q == 0 || within@[q]);
                assert(ranks@[q] == b);
            }
            if b == at && (r == 0 || within@[r as int]) {
                assert(ranks@[r as int] == b);
            }
        }
        r += 1;
    }
    out
}

/// How many flags are set before the first that is not.
pub open spec fn leading(flags: Seq<bool>) -> nat
    decreases flags.len(),
{
    if flags.len() == 0 || !flags[0] {
        0
    } else {
        1 + leading(flags.skip(1))
    }
}

/// How many candidates a threshold keeps, where `below[r]` says whether the sum of the ranks
/// before `r` is still below it. The test comes before the addition, so the threshold is crossed
/// rather than stopped short of.
pub fn crossing(below: &Vec<bool>) -> (n: usize)
    ensures
        n == leading(below@),
        n <= below@.len(),
        forall|r: int| 0 <= r < n ==> #[trigger] below@[r],
        n < below@.len() ==> !below@[n as int],
{
    let mut n: usize = 0;
    assert(below@.skip(0) =~= below@);
    while n < below.len() && below[n]
        invariant
            n <= below@.len(),
            forall|r: int| 0 <= r < n ==> #[trigger] below@[r],
            leading(below@) == n + leading(below@.skip(n as int)),
        decreases below@.len() - n,
    {
        assert(below@.skip(n as int).skip(1) =~= below@.skip(n + 1));
        n += 1;
    }
    n
}

/// Where the running sum of the weights first reaches the draw.
pub open spec fn landing(reached: Seq<bool>) -> int {
    let first = leading(Seq::new(reached.len(), |i: int| !reached[i]));
    if first < reached.len() {
        first as int
    } else {
        reached.len() - 1
    }
}

/// Draws one of `ids`: the first whose running sum has reached the draw, and the last where none
/// has. Without any weight at all it is the first.
pub fn multinomial(ids: &Vec<u32>, weightless: bool, reached: &Vec<bool>) -> (id: u32)
    requires
        ids@.len() == reached@.len() > 0,
    ensures
        id == if weightless {
            ids@[0]
        } else {
            ids@[landing(reached@)]
        },
        ids@.contains(id),
{
    if weightless {
        assert(ids@[0] == ids@[0]);
        return ids[0];
    }
    let ghost not_yet = Seq::new(reached@.len(), |i: int| !reached@[i]);
    let mut i: usize = 0;
    assert(not_yet.skip(0) =~= not_yet);
    while i < reached.len() && !reached[i]
        invariant
            i <= reached@.len() == ids@.len(),
            not_yet == Seq::new(reached@.len(), |i: int| !reached@[i]),
            leading(not_yet) == i + leading(not_yet.skip(i as int)),
        decreases reached@.len() - i,
    {
        assert(not_yet.skip(i as int).skip(1) =~= not_yet.skip(i + 1));
        i += 1;
    }
    if i < reached.len() {
        ids[i]
    } else {
        ids[ids.len() - 1]
    }
}

/// `a` is the first of the best.
pub open spec fn first_best(keys: Seq<i64>, a: int) -> bool {
    &&& 0 <= a < keys.len()
    &&& forall|b: int| 0 <= b < keys.len() ==> (#[trigger] keys[b]) <= keys[a]
    &&& forall|b: int| 0 <= b < a ==> (#[trigger] keys[b]) < keys[a]
}

/// `a` is the last of the best.
pub open spec fn last_best(keys: Seq<i64>, a: int) -> bool {
    &&& 0 <= a < keys.len()
    &&& forall|b: int| 0 <= b < keys.len() ==> (#[trigger] keys[b]) <= keys[a]
    &&& forall|b: int| a < b < keys.len() ==> (#[trigger] keys[b]) < keys[a]
}

/// The best candidate, the first among equals; 0 where there is none.
pub fn argmax(keys: &Vec<i64>) -> (a: usize)
    ensures
        keys@.len() > 0 ==> first_best(keys@, a as int),
        keys@.len() == 0 ==> a == 0,
{
    let mut best: usize = 0;
    let mut i: usize = 1;
    while i < keys.len()
        invariant
            1 <= i,
            keys@.len() > 0 ==> i <= keys@.len(),
            best < i,
            keys@.len() > 0 ==> best < keys@.len(),
            keys@.len() == 0 ==> best == 0,
            forall|b: int| 0 <= b < i && b < keys@.len() ==> (#[trigger] keys@[b]) <= keys@[best as int],
            forall|b: int| 0 <= b < best ==> (#[trigger] keys@[b]) < keys@[best as int],
        decreases keys@.len() - i,
    {
        if keys[i] > keys[best] {
            best = i;
        }
        i += 1;
    }
    best
}

/// The best candidate, the last among equals.
pub fn argmax_last(keys: &Vec<i64>) -> (a: usize)
    requires
        keys@.len() > 0,
    ensures
        last_best(keys@, a as int),
{
    let mut best: usize = 0;
    let mut i: usize = 1;
    while i < keys.len()
        invariant
            1 <= i <= keys@.len(),
            best < i,
            forall|b: int| 0 <= b < i ==> (#[trigger] keys@[b]) <= keys@[best as int],
            forall|b: int| best < b < i ==> (#[trigger] keys@[b]) < keys@[best as int],
        decreases keys@.len() - i,
    {
        if keys[i] >= keys[best] {
            best = i;
        }
        i += 1;
    }
    best
}

/// The candidates that may win, in order.
pub open spec fn eligible(keys: Seq<Option<i64>>, a: int) -> bool {
    0 <= a < keys.len() && keys[a] is Some
}

/// The best of the candidates that may win, the first among equals; 0 where none may. A candidate
/// of probability zero cannot win whatever is drawn for it, so nothing is drawn and it has no key.
pub fn argmax_drawn(keys: &Vec<Option<i64>>) -> (a: usize)
    ensures
        (exists|b: int| eligible(keys@, b)) ==> eligible(keys@, a as int) && (forall|b: int|
            #[trigger] eligible(keys@, b) ==> keys@[b]->0 <= keys@[a as int]->0 && (b < a ==> keys@[b]->0
                < keys@[a as int]->0)),
        (forall|b: int| !eligible(keys@, b)) ==> a == 0,
{
    let mut best: usize = 0;
    let mut value: Option<i64> = None;
    let mut i: usize = 0;
    while i < keys.len()
        invariant
            i <= keys@.len(),
            match value {
                Some(v) => eligible(keys@, best as int) && best < i && keys@[best as int] == Some(v)
                    && (forall|b: int|
                    #[trigger] eligible(keys@, b) && b < i ==> keys@[b]->0 <= v && (b < best
                        ==> keys@[b]->0 < v)),
                None => best == 0 && forall|b: int| 0 <= b < i ==> !#[trigger] eligible(keys@, b),
            },
        decreases keys@.len() - i,
    {
        if let Some(v) = keys[i] {
            let better = match value {
                Some(w) => v > w,
                None => true,
            };
            assert(eligible(keys@, i as int));
            if better {
                best = i;
                value = Some(v);
            }
        } else {
            assert(!eligible(keys@, i as int));
        }
        i += 1;
    }
    best
}

/// The best candidate stands first among the ranks, and always survives.
pub proof fn the_best_survives(keys: Seq<i64>, ranks: Seq<usize>, within: Seq<bool>, a: int)
    requires
        ranked(keys, ranks),
        ranks.len() > 0,
        ranks.len() == within.len(),
        keys.len() <= usize::MAX,
        first_best(keys, a),
    ensures
        ranks[0] == a,
        survives(ranks, within, a),
{
    if ranks[0] != a {
        let first = ranks[0] as int;
        assert(keys[first] <= keys[a]);
        if ranks.contains(a as usize) {
            let m = choose|m: int| 0 <= m < ranks.len() && ranks[m] == a as usize;
            assert(outranks(keys, ranks[0] as int, ranks[m] as int));
        } else {
            assert(outranks(keys, ranks[0] as int, candidate(a)));
        }
    }
    assert(ranks[0] == a);
}

/// A candidate that survives is one of the ranked ones.
pub proof fn survivors_are_ranked(ranks: Seq<usize>, within: Seq<bool>, a: usize)
    requires
        survives(ranks, within, a as int),
    ensures
        ranks.contains(a),
{
}

/// The nucleus is never empty: before the first rank the running sum is zero, so the first flag
/// is set.
pub proof fn the_nucleus_is_not_empty(below: Seq<bool>)
    requires
        below.len() > 0,
        below[0],
    ensures
        leading(below) >= 1,
{
}

/// A top-`k` cut keeps `k` candidates where there are that many, and never none.
pub proof fn a_cut_keeps_what_it_says(k: int, n: int)
    requires
        0 <= k,
        0 < n,
    ensures
        1 <= k <= n ==> kept_count(k, n) == k,
        k > n ==> kept_count(k, n) == n,
        k == 0 ==> kept_count(k, n) == 1,
{
}

/// The kept candidates are the best ones: every one of them has a score at least that of every
/// other, they stand in descending order, and of equal scores the earlier candidate goes first.
pub proof fn the_kept_are_the_best(keys: Seq<i64>, ranks: Seq<usize>, i: int, a: int)
    requires
        ranked(keys, ranks),
        keys.len() <= usize::MAX,
        0 <= i < ranks.len(),
        0 <= a < keys.len(),
    ensures
        !ranks.contains(a as usize) ==> keys[a] <= keys[ranks[i] as int],
        !ranks.contains(a as usize) && keys[a] == keys[ranks[i] as int] ==> ranks[i] < a,
        forall|j: int|
            i < j < ranks.len() ==> keys[#[trigger] ranks[j] as int] <= keys[ranks[i] as int] && (
            keys[ranks[j] as int] == keys[ranks[i] as int] ==> ranks[i] < ranks[j]),
{
    if !ranks.contains(a as usize) {
        assert(outranks(keys, ranks[i] as int, candidate(a)));
    }
    assert forall|j: int| i < j < ranks.len() implies keys[#[trigger] ranks[j] as int]
        <= keys[ranks[i] as int] && (keys[ranks[j] as int] == keys[ranks[i] as int] ==> ranks[i]
        < ranks[j]) by {
        assert(outranks(keys, ranks[i] as int, ranks[j] as int));
    }
}

/// A ranked candidate that is not the best survives exactly where its running sum is within the
/// threshold.
pub proof fn the_threshold_decides(keys: Seq<i64>, ranks: Seq<usize>, within: Seq<bool>, r: int)
    requires
        ranked(keys, ranks),
        ranks.len() == within.len(),
        0 < r < ranks.len(),
    ensures
        survives(ranks, within, ranks[r] as int) <==> within[r],
{
    if survives(ranks, within, ranks[r] as int) {
        let q = choose|q: int|
            0 <= q < ranks.len() && #[trigger] ranks[q] == ranks[r] as int && (q == 0 || within[q]);
        if q < r {
            assert(outranks(keys, ranks[q] as int, ranks[r] as int));
        } else if r < q {
            assert(outranks(keys, ranks[r] as int, ranks[q] as int));
        }
    }
    if within[r] {
        assert(ranks[r] == ranks[r] as int);
    }
}

/// The nucleus ends behind the first candidate that crosses the threshold.
pub proof fn the_nucleus_ends_at_the_crossing(below: Seq<bool>)
    ensures
        leading(below) <= below.len(),
        forall|r: int| 0 <= r < leading(below) ==> #[trigger] below[r],
        leading(below) < below.len() ==> !below[leading(below) as int],
    decreases below.len(),
{
    if below.len() > 0 && below[0] {
        let s = below.skip(1);
        the_nucleus_ends_at_the_crossing(s);
        assert forall|r: int| 0 <= r < leading(below) implies #[trigger] below[r] by {
            if r > 0 {
                assert(s[r - 1] == below[r]);
            }
        }
        if leading(below) < below.len() {
            assert(s[leading(s) as int] == below[leading(below) as int]);
        }
    }
}

/// A draw lands on the first candidate whose running sum has reached it, and on the last where
/// none has.
pub proof fn a_draw_lands_where_it_is_reached(reached: Seq<bool>, i: int)
    requires
        0 <= i < reached.len(),
    ensures
        landing(reached) == i <==> ((reached[i] && forall|j: int|
            0 <= j < i ==> !#[trigger] reached[j]) || (i == reached.len() - 1 && forall|j: int|
            0 <= j < reached.len() ==> !#[trigger] reached[j])),
{
    let not_yet = Seq::new(reached.len(), |i: int| !reached[i]);
    the_nucleus_ends_at_the_crossing(not_yet);
    let first = leading(not_yet) as int;
    assert forall|j: int| 0 <= j < first implies !#[trigger] reached[j] by {
        assert(not_yet[j]);
    }
    if first < reached.len() {
        assert(!not_yet[first]);
        assert(reached[first]);
    }
}

/// Of the best, the first or the last is taken: no other score is higher, and of equals one is
/// taken however many there are.
pub proof fn ties_go_to_the_first_or_the_last(keys: Seq<i64>, a: int, b: int, c: int)
    requires
        first_best(keys, a),
        last_best(keys, b),
        0 <= c < keys.len(),
    ensures
        keys[a] == keys[b],
        keys[c] <= keys[a],
        keys[c] == keys[a] ==> a <= c <= b,
{
    assert(keys[a] <= keys[b] && keys[b] <= keys[a]);
}

/// A candidate may win where it has a key.
pub proof fn a_candidate_may_win_with_a_key(keys: Seq<Option<i64>>, a: int)
    requires
        0 <= a < keys.len(),
    ensures
        eligible(keys, a) <==> keys[a] != None::<i64>,
        !eligible(keys, -1),
        !eligible(keys, keys.len() as int),
{
}

} // verus!
