//! Thermally honest timing: every variant of a comparison runs once in each round, so that a
//! change of clock hits all of them alike, and what is quoted is the median.

use crate::order;
use crate::order::order_by;
use vstd::prelude::*;

verus! {

/// The fewest samples a comparison may have.
pub const MIN_SAMPLES: usize = 5;

/// A comparison needs [`MIN_SAMPLES`] samples.
pub fn check_samples(samples: usize) -> (r: Result<(), usize>)
    ensures
        match r {
            Ok(_) => samples >= MIN_SAMPLES,
            Err(n) => n == samples && samples < MIN_SAMPLES,
        },
{
    if samples < MIN_SAMPLES {
        return Err(samples);
    }
    Ok(())
}

/// `m` is the sample in the middle once they are in order, the lower one of two.
pub open spec fn is_median(xs: Seq<usize>, m: usize) -> bool {
    exists|order: Seq<usize>| #[trigger]
        order::ordered(xs, false, order) && m == xs[order[(xs.len() - 1) / 2] as int]
}

/// Median of a sample set. Even counts take the lower midpoint, which avoids inventing a value
/// that was never measured.
pub fn median(xs: &Vec<usize>) -> (m: usize)
    requires
        xs@.len() > 0,
    ensures
        is_median(xs@, m),
        xs@.contains(m),
{
    let order = order_by(xs, false);
    let mid: usize = (xs.len() - 1) / 2;
    let at: usize = order[mid];
    assert(order::ordered(xs@, false, order@) && xs@[at as int] == xs@[order@[(xs@.len() - 1) / 2] as int]);
    xs[at]
}

/// A variant's measured distribution.
#[derive(Clone, Copy, PartialEq, Eq, Structural, Debug)]
pub struct Stat {
    pub median: usize,
    pub min: usize,
    pub max: usize,
}

/// The distribution of some samples.
pub fn stat(xs: &Vec<usize>) -> (s: Stat)
    requires
        xs@.len() > 0,
    ensures
        is_median(xs@, s.median),
        xs@.contains(s.min),
        xs@.contains(s.max),
        forall|i: int| 0 <= i < xs@.len() ==> s.min <= #[trigger] xs@[i] <= s.max,
{
    let mut min: usize = xs[0];
    let mut max: usize = xs[0];
    let ghost mut low: int = 0;
    let ghost mut high: int = 0;
    let mut i: usize = 1;
    while i < xs.len()
        invariant
            1 <= i <= xs@.len(),
            0 <= low < xs@.len(),
            0 <= high < xs@.len(),
            xs@[low] == min,
            xs@[high] == max,
            forall|j: int| 0 <= j < i ==> min <= #[trigger] xs@[j] <= max,
        decreases xs@.len() - i,
    {
        if xs[i] < min {
            min = xs[i];
            proof {
                low = i as int;
            }
        }
        if xs[i] > max {
            max = xs[i];
            proof {
                high = i as int;
            }
        }
        i += 1;
    }
    Stat { median: median(xs), min, max }
}

/// The order in which variants are timed: all of them in each round.
pub fn schedule(variants: usize, samples: usize) -> (v: Vec<usize>)
    requires
        variants * samples <= usize::MAX,
    ensures
        v@.len() == variants * samples,
        forall|i: int| 0 <= i < v@.len() ==> #[trigger] v@[i] == i % (variants as int),
{
    let mut v: Vec<usize> = Vec::new();
    let mut i: usize = 0;
    while i < variants * samples
        invariant
            variants * samples <= usize::MAX,
            i <= variants * samples,
            v@.len() == i,
            forall|j: int| 0 <= j < i ==> #[trigger] v@[j] == j % (variants as int),
        decreases variants * samples - i,
    {
        assert(variants > 0) by (nonlinear_arith)
            requires
                i < variants * samples,
                i >= 0,
        ;
        v.push(i % variants);
        i += 1;
    }
    v
}

/// Did the machine hold its clock over the run? The fixed workload may take at most 15 per cent
/// longer at the end than at the start.
pub fn stable(first: u64, last: u64) -> (r: bool)
    ensures
        r == (last * 100 < first * 115),
{
    (last as u128) * 100 < (first as u128) * 115
}

/// There is only one median.
pub proof fn the_median_is_one(xs: Seq<usize>, a: usize, b: usize)
    requires
        xs.len() > 0,
        xs.len() <= usize::MAX,
        is_median(xs, a),
        is_median(xs, b),
    ensures
        a == b,
{
    let p = choose|p: Seq<usize>| #[trigger]
        order::ordered(xs, false, p) && a == xs[p[(xs.len() - 1) / 2] as int];
    let q = choose|q: Seq<usize>| #[trigger]
        order::ordered(xs, false, q) && b == xs[q[(xs.len() - 1) / 2] as int];
    lemma_order_unique(xs, p, q, xs.len() as int);
}

proof fn lemma_order_unique(xs: Seq<usize>, p: Seq<usize>, q: Seq<usize>, n: int)
    requires
        order::ordered(xs, false, p),
        order::ordered(xs, false, q),
        0 <= n <= xs.len(),
        xs.len() <= usize::MAX,
    ensures
        forall|i: int| 0 <= i < n ==> p[i] == q[i],
    decreases n,
{
    if n > 0 {
        lemma_order_unique(xs, p, q, n - 1);
        let i = n - 1;
        if p[i] != q[i] {
            // `q[i]` stands somewhere in `p`, and not among the places before `i`.
            assert(q.contains(order::keys_index(p[i] as int)));
            assert(p.contains(order::keys_index(q[i] as int)));
            let a = choose|a: int| 0 <= a < p.len() && p[a] == q[i];
            let b = choose|b: int| 0 <= b < q.len() && q[b] == p[i];
            if a < i {
                assert(p[a] == q[a]);
                assert(order::precedes(xs, false, q[a] as int, q[i] as int));
            }
            if b < i {
                assert(p[b] == q[b]);
                assert(order::precedes(xs, false, p[b] as int, p[i] as int));
            }
            assert(order::precedes(xs, false, p[i] as int, p[a] as int));
            assert(order::precedes(xs, false, q[i] as int, q[b] as int));
        }
    }
}

/// The median stands in the middle: in ascending order, the samples up to the middle one are at
/// most the median and those from it on at least; of two middle ones it is the lower.
pub proof fn the_median_stands_in_the_middle(xs: Seq<usize>, m: usize) -> (at: Seq<usize>)
    requires
        xs.len() > 0,
        is_median(xs, m),
    ensures
        order::permutation(at, xs.len()),
        forall|i: int| 0 <= i && 2 * i < xs.len() ==> xs[#[trigger] at[i] as int] <= m,
        forall|i: int| xs.len() - 1 <= 2 * i + 1 && i < xs.len() ==> xs[#[trigger] at[i] as int] >= m,
        m == xs[at[(xs.len() - 1) / 2] as int],
{
    let at = choose|at: Seq<usize>| #[trigger]
        order::ordered(xs, false, at) && m == xs[at[(xs.len() - 1) / 2] as int];
    order::lemma_ordered_permutation(xs, false, at);
    let mid = (xs.len() - 1) / 2;
    assert forall|i: int| 0 <= i && 2 * i < xs.len() implies xs[#[trigger] at[i] as int] <= m by {
        if i < mid {
            order::an_order_goes_by_the_keys(xs, false, at, i, mid);
        }
    }
    assert forall|i: int| xs.len() - 1 <= 2 * i + 1 && i < xs.len() implies xs[#[trigger] at[i] as int]
        >= m by {
        if mid < i {
            order::an_order_goes_by_the_keys(xs, false, at, mid, i);
        }
    }
    at
}

} // verus!
