//! Stable ordering of items by a key.

use crate::grid;
use crate::grid::copy_rows;
use vstd::prelude::*;

verus! {

/// Item `a` comes before item `b`: by key, and by position among items of one key.
pub open spec fn precedes(keys: Seq<usize>, descending: bool, a: int, b: int) -> bool {
    ||| if descending {
        keys[a] > keys[b]
    } else {
        keys[a] < keys[b]
    }
    ||| keys[a] == keys[b] && a < b
}

/// `order` lists the items `0..n`, each once, as [`precedes`] puts them.
pub open spec fn ordered(keys: Seq<usize>, descending: bool, order: Seq<usize>) -> bool {
    &&& order.len() == keys.len()
    &&& forall|i: int| 0 <= i < order.len() ==> (#[trigger] order[i]) < keys.len()
    &&& forall|i: int, j: int|
        0 <= i < j < order.len() ==> precedes(
            keys,
            descending,
            #[trigger] order[i] as int,
            #[trigger] order[j] as int,
        )
    &&& forall|a: int| 0 <= a < keys.len() ==> order.contains(#[trigger] keys_index(a))
}

/// An item as the order lists it.
pub open spec fn keys_index(a: int) -> usize {
    a as usize
}

/// The numbers `0..n`, each once, in some order.
pub open spec fn permutation(order: Seq<usize>, n: nat) -> bool {
    &&& order.len() == n
    &&& forall|i: int| 0 <= i < n ==> (#[trigger] order[i]) < n
    &&& forall|i: int, j: int| 0 <= i < j < n ==> order[i] != order[j]
    &&& forall|a: int| 0 <= a < n ==> order.contains(#[trigger] keys_index(a))
}

/// The items `0..keys.len()` in stable order of their keys.
pub fn order_by(keys: &Vec<usize>, descending: bool) -> (order: Vec<usize>)
    ensures
        ordered(keys@, descending, order@),
{
    let mut order: Vec<usize> = Vec::new();
    let mut n: usize = 0;
    while n < keys.len()
        invariant
            n <= keys@.len(),
            order@.len() == n,
            forall|i: int| 0 <= i < n ==> (#[trigger] order@[i]) < n,
            forall|i: int, j: int|
                0 <= i < j < n ==> precedes(
                    keys@,
                    descending,
                    #[trigger] order@[i] as int,
                    #[trigger] order@[j] as int,
                ),
            forall|a: int| 0 <= a < n ==> order@.contains(#[trigger] keys_index(a)),
        decreases keys@.len() - n,
    {
        let mut p: usize = 0;
        while p < order.len() && (descending && keys[order[p]] >= keys[n] || !descending
            && keys[order[p]] <= keys[n])
            invariant
                p <= order@.len() == n,
                n < keys@.len(),
                forall|i: int| 0 <= i < n ==> (#[trigger] order@[i]) < n,
                forall|i: int|
                    0 <= i < p ==> precedes(keys@, descending, #[trigger] order@[i] as int, n as int),
            decreases n - p,
        {
            p += 1;
        }
        let ghost before = order@;
        assert(forall|i: int|
            p <= i < n ==> precedes(keys@, descending, n as int, #[trigger] before[i] as int)) by {
            assert forall|i: int| p <= i < n implies precedes(
                keys@,
                descending,
                n as int,
                #[trigger] before[i] as int,
            ) by {
                if p < i {
                    assert(precedes(keys@, descending, before[p as int] as int, before[i] as int));
                }
            }
        }
        order.insert(p, n);
        assert forall|i: int, j: int| 0 <= i < j < n + 1 implies precedes(
            keys@,
            descending,
            #[trigger] order@[i] as int,
            #[trigger] order@[j] as int,
        ) by {
            let i0 = if i <= p { i } else { i - 1 };
            let j0 = if j <= p { j } else { j - 1 };
            if i == p {
                assert(order@[j] == before[j0]);
            } else if j == p {
                assert(order@[i] == before[i0]);
            } else {
                assert(order@[i] == before[i0]);
                assert(order@[j] == before[j0]);
            }
        }
        assert forall|a: int| 0 <= a < n + 1 implies order@.contains(#[trigger] keys_index(a)) by {
            if a == n {
                assert(order@[p as int] == n);
            } else {
                let k = choose|k: int| 0 <= k < before.len() && before[k] == keys_index(a);
                assert(before.contains(keys_index(a)));
                if k < p {
                    assert(order@[k] == before[k]);
                } else {
                    assert(order@[k + 1] == before[k]);
                }
            }
        }
        n += 1;
    }
    order
}

/// An order lists no item twice.
pub proof fn lemma_ordered_distinct(keys: Seq<usize>, descending: bool, order: Seq<usize>)
    requires
        ordered(keys, descending, order),
    ensures
        forall|i: int, j: int| 0 <= i < j < order.len() ==> order[i] != order[j],
{
}

/// An order is a permutation of the items.
pub proof fn lemma_ordered_permutation(keys: Seq<usize>, descending: bool, order: Seq<usize>)
    requires
        ordered(keys, descending, order),
    ensures
        permutation(order, keys.len()),
{
}

/// Two listings of the same items that agree on what comes before what are the same.
pub proof fn lemma_one_listing(
    a: Seq<usize>,
    b: Seq<usize>,
    n: nat,
    before: spec_fn(int, int) -> bool,
    k: int,
)
    requires
        permutation(a, n),
        permutation(b, n),
        n <= usize::MAX,
        forall|x: int, y: int| #[trigger] before(x, y) ==> !before(y, x),
        forall|i: int, j: int|
            0 <= i < j < n ==> before(#[trigger] a[i] as int, #[trigger] a[j] as int),
        forall|i: int, j: int|
            0 <= i < j < n ==> before(#[trigger] b[i] as int, #[trigger] b[j] as int),
        0 <= k <= n,
    ensures
        forall|i: int| 0 <= i < k ==> a[i] == b[i],
    decreases k,
{
    if k > 0 {
        lemma_one_listing(a, b, n, before, k - 1);
        let i = k - 1;
        if a[i] != b[i] {
            assert(b.contains(keys_index(a[i] as int)));
            let p = choose|p: int| 0 <= p < b.len() && b[p] == keys_index(a[i] as int);
            assert(a.contains(keys_index(b[i] as int)));
            let q = choose|q: int| 0 <= q < a.len() && a[q] == keys_index(b[i] as int);
            assert(p >= i) by {
                if p < i {
                    assert(a[p] == b[p]);
                }
            }
            assert(q >= i) by {
                if q < i {
                    assert(b[q] == a[q]);
                }
            }
            assert(before(b[i] as int, b[p] as int));
            assert(before(a[i] as int, a[q] as int));
        }
    }
}

/// The stable order of some keys is the only one.
pub proof fn the_stable_order_is_unique(
    keys: Seq<usize>,
    descending: bool,
    a: Seq<usize>,
    b: Seq<usize>,
)
    requires
        keys.len() <= usize::MAX,
        ordered(keys, descending, a),
        ordered(keys, descending, b),
    ensures
        a == b,
{
    let before = |x: int, y: int| precedes(keys, descending, x, y);
    lemma_one_listing(a, b, keys.len(), before, keys.len() as int);
    assert(a =~= b);
}

/// Where item `p` stands in `order`.
pub fn place_of(order: &Vec<usize>, p: usize) -> (at: usize)
    requires
        permutation(order@, order@.len()),
        p < order@.len(),
    ensures
        at < order@.len(),
        order@[at as int] == p,
        forall|j: int| 0 <= j < order@.len() && j != at ==> #[trigger] order@[j] != p,
{
    assert(order@.contains(keys_index(p as int)));
    let mut at: usize = 0;
    while order[at] != p
        invariant
            at < order@.len(),
            exists|j: int| at <= j < order@.len() && #[trigger] order@[j] == p,
        decreases order@.len() - at,
    {
        assert(at < order.len());
        at += 1;
    }
    assert forall|j: int| 0 <= j < order@.len() && j != at implies #[trigger] order@[j] != p by {
        if j < at {
            assert(order@[j] != order@[at as int]);
        } else {
            assert(order@[at as int] != order@[j]);
        }
    }
    at
}

/// What was worked on in `order`, put back where it came from: the `k`-th result belongs to item
/// `order[k]`.
pub fn restore(order: &Vec<usize>, results: &Vec<Vec<Vec<u32>>>) -> (out: Vec<Vec<Vec<u32>>>)
    requires
        permutation(order@, order@.len()),
        results@.len() == order@.len(),
    ensures
        out@.len() == order@.len(),
        forall|k: int|
            0 <= k < order@.len() ==> grid::rows_view(out@[(#[trigger] order@[k]) as int]@)
                == grid::rows_view(results@[k]@),
{
    let mut out: Vec<Vec<Vec<u32>>> = Vec::new();
    let n: usize = order.len();
    let mut p: usize = 0;
    while p < n
        invariant
            p <= n == order@.len(),
            permutation(order@, order@.len()),
            results@.len() == n,
            out@.len() == p,
            forall|k: int|
                0 <= k < n && (#[trigger] order@[k]) < p ==> grid::rows_view(
                    out@[order@[k] as int]@,
                ) == grid::rows_view(results@[k]@),
        decreases n - p,
    {
        let at: usize = place_of(order, p);
        let rows = copy_rows(&results[at]);
        out.push(rows);
        p += 1;
    }
    out
}

/// An order goes by the keys, upwards or downwards as it says, and keeps equal keys as they were.
pub proof fn an_order_goes_by_the_keys(
    keys: Seq<usize>,
    descending: bool,
    order: Seq<usize>,
    i: int,
    j: int,
)
    requires
        ordered(keys, descending, order),
        0 <= i < j < order.len(),
    ensures
        descending ==> keys[order[i] as int] >= keys[order[j] as int],
        !descending ==> keys[order[i] as int] <= keys[order[j] as int],
        keys[order[i] as int] == keys[order[j] as int] ==> order[i] < order[j],
{
    assert(precedes(keys, descending, order[i] as int, order[j] as int));
}

/// An order lists every place once.
pub proof fn an_order_lists_every_place_once(
    keys: Seq<usize>,
    descending: bool,
    order: Seq<usize>,
    a: usize,
)
    requires
        ordered(keys, descending, order),
        a < keys.len(),
    ensures
        order.len() == keys.len(),
        exists|i: int| 0 <= i < order.len() && #[trigger] order[i] == a,
        forall|i: int, j: int|
            0 <= i < order.len() && 0 <= j < order.len() && #[trigger] order[i]
                == #[trigger] order[j] ==> i == j,
{
    lemma_ordered_distinct(keys, descending, order);
    assert(order.contains(keys_index(a as int)));
    let i = choose|i: int| 0 <= i < order.len() && order[i] == keys_index(a as int);
    assert(order[i] == a);
}

} // verus!
