//! Rows of numbers, as vectors and as sequences.

use crate::assemble::{copy_range, extend_copied};
use vstd::prelude::*;

verus! {

/// What a vector of rows holds.
pub open spec fn rows_view<T>(rows: Seq<Vec<T>>) -> Seq<Seq<T>> {
    Seq::new(rows.len(), |i: int| rows[i]@)
}

/// Rows one behind the other.
pub open spec fn flat_rows<T>(rows: Seq<Seq<T>>) -> Seq<T>
    decreases rows.len(),
{
    if rows.len() == 0 {
        Seq::empty()
    } else {
        flat_rows(rows.drop_last()) + rows.last()
    }
}

/// A grid of `width` columns read column by column: the `i`-th row of the result holds the
/// `i`-th entry of every row.
pub open spec fn transposed<T>(rows: Seq<Seq<T>>, width: nat) -> Seq<Seq<T>> {
    Seq::new(width, |i: int| Seq::new(rows.len(), |f: int| rows[f][i]))
}

/// Every row has `width` entries.
pub open spec fn rectangular<T>(rows: Seq<Seq<T>>, width: nat) -> bool {
    forall|i: int| 0 <= i < rows.len() ==> (#[trigger] rows[i]).len() == width
}

/// A copy of `v`.
pub fn copy_vec<T: Copy>(v: &Vec<T>) -> (out: Vec<T>)
    ensures
        out@ == v@,
{
    let out = copy_range(v.as_slice(), 0, v.len());
    assert(v@.subrange(0, v@.len() as int) =~= v@);
    out
}

/// A copy of all rows.
pub fn copy_rows<T: Copy>(rows: &Vec<Vec<T>>) -> (out: Vec<Vec<T>>)
    ensures
        rows_view(out@) == rows_view(rows@),
{
    let mut out: Vec<Vec<T>> = Vec::new();
    let mut i: usize = 0;
    while i < rows.len()
        invariant
            i <= rows@.len(),
            rows_view(out@) == rows_view(rows@).take(i as int),
        decreases rows@.len() - i,
    {
        let ghost done = rows_view(out@);
        let row = copy_vec(&rows[i]);
        out.push(row);
        assert(rows_view(out@) =~= done.push(rows@[i as int]@));
        assert(rows_view(rows@).take(i + 1) =~= rows_view(rows@).take(i as int).push(
            rows_view(rows@)[i as int],
        ));
        i += 1;
    }
    assert(rows_view(rows@).take(i as int) =~= rows_view(rows@));
    out
}

/// `[rows][width]` to `[width][rows]`.
pub fn transpose(rows: &Vec<Vec<u32>>, width: usize) -> (out: Vec<Vec<u32>>)
    requires
        rectangular(rows_view(rows@), width as nat),
    ensures
        rows_view(out@) == transposed(rows_view(rows@), width as nat),
{
    let ghost all = rows_view(rows@);
    let mut out: Vec<Vec<u32>> = Vec::new();
    let mut i: usize = 0;
    while i < width
        invariant
            i <= width,
            all == rows_view(rows@),
            rectangular(all, width as nat),
            rows_view(out@) == transposed(all, width as nat).take(i as int),
        decreases width - i,
    {
        let mut column: Vec<u32> = Vec::new();
        let mut f: usize = 0;
        while f < rows.len()
            invariant
                i < width,
                f <= rows@.len(),
                all == rows_view(rows@),
                rectangular(all, width as nat),
                column@ == Seq::new(f as nat, |k: int| all[k][i as int]),
            decreases rows@.len() - f,
        {
            assert(all[f as int].len() == width);
            column.push(rows[f][i]);
            assert(column@ =~= Seq::new((f + 1) as nat, |k: int| all[k][i as int]));
            f += 1;
        }
        let ghost done = rows_view(out@);
        let ghost added = column@;
        out.push(column);
        assert(rows_view(out@) =~= done.push(added));
        assert(transposed(all, width as nat)[i as int] =~= added);
        assert(transposed(all, width as nat).take(i + 1) =~= transposed(all, width as nat).take(
            i as int,
        ).push(added));
        i += 1;
    }
    assert(transposed(all, width as nat).take(i as int) =~= transposed(all, width as nat));
    out
}

/// Transposing twice gives the grid back.
pub proof fn transposing_twice_is_the_identity<T>(rows: Seq<Seq<T>>, width: nat)
    requires
        rectangular(rows, width),
    ensures
        transposed(transposed(rows, width), rows.len()) == rows,
{
    let back = transposed(transposed(rows, width), rows.len());
    assert forall|i: int| 0 <= i < rows.len() implies back[i] == #[trigger] rows[i] by {
        assert(back[i] =~= rows[i]);
    }
    assert(back =~= rows);
}

/// Rows of known lengths are told apart by what they hold one behind the other.
pub proof fn rows_are_determined<T>(a: Seq<Seq<T>>, b: Seq<Seq<T>>)
    requires
        a.len() == b.len(),
        forall|i: int| 0 <= i < a.len() ==> (#[trigger] a[i]).len() == b[i].len(),
        flat_rows(a) == flat_rows(b),
    ensures
        a == b,
    decreases a.len(),
{
    if a.len() > 0 {
        let (p, q) = (a.drop_last(), b.drop_last());
        let all = flat_rows(a);
        assert(a[a.len() - 1].len() == b[b.len() - 1].len());
        assert(all == flat_rows(p) + a.last());
        assert(flat_rows(b) == flat_rows(q) + b.last());
        assert(flat_rows(p).len() == flat_rows(q).len());
        assert(flat_rows(p) =~= all.take(flat_rows(p).len() as int));
        assert(flat_rows(q) =~= all.take(flat_rows(p).len() as int));
        assert(a.last() =~= all.skip(flat_rows(p).len() as int));
        assert(b.last() =~= all.skip(flat_rows(p).len() as int));
        assert forall|i: int| 0 <= i < p.len() implies (#[trigger] p[i]).len() == q[i].len() by {
            assert(a[i].len() == b[i].len());
        }
        rows_are_determined(p, q);
        assert(a =~= p.push(a.last()));
        assert(b =~= q.push(b.last()));
    } else {
        assert(a =~= b);
    }
}

/// What stands in a row stands among the rows one behind the other.
pub proof fn lemma_flat_holds<T>(rows: Seq<Seq<T>>, k: int, j: int)
    requires
        0 <= k < rows.len(),
        0 <= j < rows[k].len(),
    ensures
        exists|at: int| 0 <= at < flat_rows(rows).len() && #[trigger] flat_rows(rows)[at] == rows[k][j],
        rows[k].len() <= flat_rows(rows).len(),
    decreases rows.len(),
{
    let before = flat_rows(rows.drop_last());
    if k == rows.len() - 1 {
        assert(flat_rows(rows)[before.len() + j] == rows[k][j]);
    } else {
        lemma_flat_holds(rows.drop_last(), k, j);
        let at = choose|at: int| 0 <= at < before.len() && #[trigger] before[at] == rows.drop_last()[k][j];
        assert(flat_rows(rows)[at] == rows[k][j]);
    }
}

/// Splits `rows * len` numbers into rows of `len`.
pub fn split_rows(flat: &Vec<u32>, rows: usize, len: usize) -> (out: Vec<Vec<u32>>)
    requires
        flat@.len() == rows * len,
    ensures
        out@.len() == rows,
        rectangular(rows_view(out@), len as nat),
        flat_rows(rows_view(out@)) == flat@,
{
    let mut out: Vec<Vec<u32>> = Vec::new();
    let mut i: usize = 0;
    let mut at: usize = 0;
    assert(flat_rows(rows_view(out@)) =~= flat@.take(0));
    assert(0 * len == 0) by (nonlinear_arith);
    while i < rows
        invariant
            i <= rows,
            out@.len() == i,
            flat@.len() == rows * len,
            at == i * len,
            rectangular(rows_view(out@), len as nat),
            flat_rows(rows_view(out@)) == flat@.take(at as int),
        decreases rows - i,
    {
        assert((i + 1) * len <= rows * len && (i + 1) * len == i * len + len) by (nonlinear_arith)
            requires
                i < rows,
        ;
        let ghost done = rows_view(out@);
        assert(at + len <= flat.len());
        let row = copy_range(flat.as_slice(), at, at + len);
        let ghost added = row@;
        out.push(row);
        assert(rows_view(out@) =~= done.push(added));
        assert(rows_view(out@).drop_last() =~= done);
        assert(flat@.take(at + len) =~= flat@.take(at as int) + added);
        at += len;
        i += 1;
    }
    assert(flat@.take(at as int) =~= flat@);
    out
}

/// The rows one behind the other.
pub fn join_rows(rows: &Vec<Vec<u32>>) -> (out: Vec<u32>)
    ensures
        out@ == flat_rows(rows_view(rows@)),
{
    let ghost all = rows_view(rows@);
    let mut out: Vec<u32> = Vec::new();
    let mut i: usize = 0;
    while i < rows.len()
        invariant
            i <= rows@.len(),
            all == rows_view(rows@),
            out@ == flat_rows(all.take(i as int)),
        decreases rows@.len() - i,
    {
        extend_copied(&mut out, rows[i].as_slice());
        assert(all.take(i + 1).drop_last() =~= all.take(i as int));
        i += 1;
    }
    assert(all.take(i as int) =~= all);
    out
}

/// That a row is what lies in a sequence between two places.
pub open spec fn lies_between<T>(flat: Seq<T>, row: Seq<T>, start: int, end: int) -> bool {
    0 <= start <= end <= flat.len() && end - start == row.len() && flat.subrange(start, end) == row
}

/// Rows that are joined lie end to end: the first at the start, each next one where the one before
/// it ends, the last up to the end.
pub proof fn rows_lie_end_to_end<T>(rows: Seq<Seq<T>>) -> (from: Seq<int>)
    ensures
        from.len() == rows.len() + 1,
        from[0] == 0,
        from.last() == flat_rows(rows).len(),
        forall|k: int|
            0 <= k < rows.len() ==> #[trigger] lies_between(
                flat_rows(rows),
                rows[k],
                from[k],
                from[k + 1],
            ),
    decreases rows.len(),
{
    if rows.len() == 0 {
        seq![0int]
    } else {
        let b = rows.drop_last();
        let flat = flat_rows(rows);
        let was = rows_lie_end_to_end(b);
        let from = was.push(flat.len() as int);
        assert forall|k: int| 0 <= k < rows.len() implies #[trigger] lies_between(
            flat,
            rows[k],
            from[k],
            from[k + 1],
        ) by {
            if k < b.len() {
                assert(lies_between(flat_rows(b), b[k], was[k], was[k + 1]));
                assert(flat.subrange(was[k], was[k + 1]) =~= flat_rows(b).subrange(
                    was[k],
                    was[k + 1],
                ));
            } else {
                assert(flat.subrange(was.last(), flat.len() as int) =~= rows[k]);
            }
        }
        from
    }
}

/// In rows of one length, the element in row `i` and column `j` stands at `i * width + j`.
pub proof fn rows_of_one_length_are_row_major<T>(rows: Seq<Seq<T>>, width: nat, i: int, j: int)
    requires
        rectangular(rows, width),
        0 <= i < rows.len(),
        0 <= j < width,
    ensures
        flat_rows(rows).len() == rows.len() * width,
        i * width + j < flat_rows(rows).len(),
        flat_rows(rows)[i * width + j] == rows[i][j],
    decreases rows.len(),
{
    let b = rows.drop_last();
    let n = rows.len() - 1;
    assert forall|k: int| 0 <= k < b.len() implies (#[trigger] b[k]).len() == width by {
        assert(b[k] == rows[k]);
    }
    assert(flat_rows(b).len() == n * width) by {
        if n > 0 {
            rows_of_one_length_are_row_major(b, width, 0, j);
        } else {
            assert(0 * width == 0) by (nonlinear_arith);
        }
    }
    assert(n * width + width == (n + 1) * width) by (nonlinear_arith);
    assert(rows.last().len() == width);
    if i < n {
        rows_of_one_length_are_row_major(b, width, i, j);
        assert(b[i] == rows[i]);
    }
}

/// Transposing turns columns into rows.
pub proof fn columns_become_rows<T>(rows: Seq<Seq<T>>, width: nat, r: int, c: int)
    requires
        0 <= r < rows.len(),
        0 <= c < width,
    ensures
        transposed(rows, width).len() == width,
        transposed(rows, width)[c].len() == rows.len(),
        transposed(rows, width)[c][r] == rows[r][c],
{
}

/// Rows show their elements, each in its place.
pub proof fn rows_show_their_elements<T>(rows: Seq<Vec<T>>, i: int)
    requires
        0 <= i < rows.len(),
    ensures
        rows_view(rows).len() == rows.len(),
        rows_view(rows)[i] == rows[i]@,
{
}

} // verus!
