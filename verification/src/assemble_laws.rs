//! Where everything stands in an utterance.

use crate::assemble;
use crate::assemble::Piece;
use vstd::prelude::*;

verus! {

/// Where each of some pieces, given by paragraph and samples, stands in the utterance.
pub proof fn every_view_is_heard_in_its_place<T>(
    views: Seq<(int, Seq<T>)>,
    gap: Seq<T>,
    para_gap: Seq<T>,
) -> (at: Seq<int>)
    requires
        views.len() > 0,
    ensures
        at.len() == views.len(),
        at[0] == 0,
        assemble::stitched(views, gap, para_gap).len() == at.last() + views.last().1.len(),
        forall|j: int|
            0 <= j < views.len() ==> 0 <= #[trigger] at[j] && at[j] + views[j].1.len()
                <= assemble::stitched(views, gap, para_gap).len() && assemble::stitched(
                views,
                gap,
                para_gap,
            ).subrange(at[j], at[j] + views[j].1.len()) == views[j].1,
        forall|j: int, k: int|
            0 <= j && k == j + 1 && k < views.len() ==> {
                let end = #[trigger] at[j] + views[j].1.len();
                let between = if views[j].0 == views[k].0 {
                    gap
                } else {
                    para_gap
                };
                &&& #[trigger] at[k] == end + between.len()
                &&& assemble::stitched(views, gap, para_gap).subrange(end, at[k]) == between
            },
    decreases views.len(),
{
    let out = assemble::stitched(views, gap, para_gap);
    let n = views.len();
    let last = views.last().1;
    if n == 1 {
        assert(out.subrange(0, last.len() as int) =~= last);
        seq![0int]
    } else {
        let rest = views.drop_last();
        let before = assemble::stitched(rest, gap, para_gap);
        let was = every_view_is_heard_in_its_place(rest, gap, para_gap);
        let between = if views[n - 2].0 == views[n - 1].0 {
            gap
        } else {
            para_gap
        };
        assert(out == before + between + last);
        let at = was.push((before.len() + between.len()) as int);
        assert forall|j: int| 0 <= j < n implies 0 <= #[trigger] at[j] && at[j] + views[j].1.len()
            <= out.len() && out.subrange(at[j], at[j] + views[j].1.len()) == views[j].1 by {
            if j < n - 1 {
                assert(was[j] == at[j] && rest[j] == views[j]);
                assert(out.subrange(at[j], at[j] + views[j].1.len()) =~= before.subrange(
                    was[j],
                    was[j] + rest[j].1.len(),
                ));
            } else {
                assert(out.subrange(at[j], at[j] + last.len()) =~= last);
            }
        }
        assert forall|j: int, k: int| 0 <= j && k == j + 1 && k < n implies {
            let end = #[trigger] at[j] + views[j].1.len();
            let g = if views[j].0 == views[k].0 {
                gap
            } else {
                para_gap
            };
            &&& #[trigger] at[k] == end + g.len()
            &&& out.subrange(end, at[k]) == g
        } by {
            let end = at[j] + views[j].1.len();
            assert(was[j] == at[j] && rest[j] == views[j]);
            if k < n - 1 {
                assert(was[k] == at[k] && rest[k] == views[k]);
                assert(out.subrange(end, at[k]) =~= before.subrange(end, was[k]));
            } else {
                assert(rest.last() == rest[j]);
                assert(out.subrange(end, at[k]) =~= between);
            }
        }
        at
    }
}

/// Every piece is heard as it is, from its first sample to its last: it stands in the utterance
/// behind the pieces before it and the gaps between them. Between two neighbours stands `gap` where
/// they are of one paragraph and `para_gap` where they are not, and nothing else is heard.
pub proof fn every_piece_is_heard_in_its_place<T>(
    pieces: Seq<Piece<T>>,
    gap: Seq<T>,
    para_gap: Seq<T>,
) -> (at: Seq<int>)
    requires
        pieces.len() > 0,
    ensures
        at.len() == pieces.len(),
        at[0] == 0,
        assemble::stitched(assemble::piece_views(pieces), gap, para_gap).len() == at.last()
            + pieces.last().samples@.len(),
        forall|j: int|
            0 <= j < pieces.len() ==> 0 <= #[trigger] at[j] && at[j] + pieces[j].samples@.len()
                <= assemble::stitched(assemble::piece_views(pieces), gap, para_gap).len()
                && assemble::stitched(assemble::piece_views(pieces), gap, para_gap).subrange(
                at[j],
                at[j] + pieces[j].samples@.len(),
            ) == pieces[j].samples@,
        forall|j: int, k: int|
            0 <= j && k == j + 1 && k < pieces.len() ==> {
                let end = #[trigger] at[j] + pieces[j].samples@.len();
                let between = if pieces[j].para == pieces[k].para {
                    gap
                } else {
                    para_gap
                };
                &&& #[trigger] at[k] == end + between.len()
                &&& assemble::stitched(
                    assemble::piece_views(pieces),
                    gap,
                    para_gap,
                ).subrange(end, at[k]) == between
            },
{
    let views = assemble::piece_views(pieces);
    assert forall|j: int| 0 <= j < pieces.len() implies #[trigger] views[j] == (
        pieces[j].para as int,
        pieces[j].samples@,
    ) by {
    }
    assert(views.last() == views[views.len() - 1]);
    let at = every_view_is_heard_in_its_place(views, gap, para_gap);
    assert forall|j: int| 0 <= j < pieces.len() implies 0 <= #[trigger] at[j] && at[j]
        + pieces[j].samples@.len() <= assemble::stitched(views, gap, para_gap).len()
        && assemble::stitched(views, gap, para_gap).subrange(
        at[j],
        at[j] + pieces[j].samples@.len(),
    ) == pieces[j].samples@ by {
        assert(views[j].1 == pieces[j].samples@);
    }
    assert forall|j: int, k: int| 0 <= j && k == j + 1 && k < pieces.len() implies {
        let end = #[trigger] at[j] + pieces[j].samples@.len();
        let between = if pieces[j].para == pieces[k].para {
            gap
        } else {
            para_gap
        };
        &&& #[trigger] at[k] == end + between.len()
        &&& assemble::stitched(views, gap, para_gap).subrange(end, at[k]) == between
    } by {
        assert(views[j].1 == pieces[j].samples@);
        assert(views[j].0 == pieces[j].para && views[k].0 == pieces[k].para);
    }
    at
}

/// A gap of some milliseconds is silence, and as many samples as fit into that time.
pub proof fn a_gap_is_as_long_as_it_says<T>(zero: T, rate: int, millis: int)
    requires
        0 <= rate,
        0 <= millis,
    ensures
        1000 * assemble::gap_of(zero, rate, millis).len() <= rate * millis < 1000
            * assemble::gap_of(zero, rate, millis).len() + 1000,
        forall|i: int|
            0 <= i < assemble::gap_of(zero, rate, millis).len() ==> #[trigger] assemble::gap_of(
                zero,
                rate,
                millis,
            )[i] == zero,
{
    assert(rate * millis >= 0) by (nonlinear_arith)
        requires
            0 <= rate,
            0 <= millis,
    ;
}

/// A joint waveform is cut where its units meet: given where each unit of `per` samples to a part
/// starts, every unit is its own stretch of the waveform, in order and with its own paragraph. The
/// last one takes whatever remains.
pub proof fn every_unit_is_cut_where_it_stands<T>(
    paras: Seq<usize>,
    lens: Seq<usize>,
    per: nat,
    samples: Seq<T>,
    from: Seq<int>,
)
    requires
        lens.len() > 0,
        per > 0,
        paras.len() == lens.len(),
        forall|k: int| 0 <= k < lens.len() ==> #[trigger] lens[k] > 0,
        from.len() == lens.len(),
        from[0] == 0,
        forall|j: int, k: int|
            0 <= j && k == j + 1 && k < from.len() ==> #[trigger] from[k] == #[trigger] from[j] + per
                * lens[j],
        from.last() < samples.len(),
    ensures
        assemble::cut_pieces(paras, lens, per, samples, lens.len() as int).len() == lens.len(),
        forall|k: int|
            0 <= k < lens.len() ==> #[trigger] assemble::cut_pieces(
                paras,
                lens,
                per,
                samples,
                lens.len() as int,
            )[k] == (
                paras[k] as int,
                samples.subrange(
                    from[k],
                    if k + 1 < lens.len() {
                        from[k + 1]
                    } else {
                        samples.len() as int
                    },
                ),
            ),
{
    lemma_units(paras, lens, per, samples, from, lens.len() as int);
}

/// Where the first `n` units of a joint waveform are cut.
proof fn lemma_units<T>(
    paras: Seq<usize>,
    lens: Seq<usize>,
    per: nat,
    samples: Seq<T>,
    from: Seq<int>,
    n: int,
)
    requires
        0 <= n <= lens.len(),
        per > 0,
        paras.len() == lens.len(),
        forall|k: int| 0 <= k < lens.len() ==> #[trigger] lens[k] > 0,
        from.len() == lens.len(),
        n > 0 ==> from[0] == 0,
        forall|j: int, k: int|
            0 <= j && k == j + 1 && k < from.len() ==> #[trigger] from[k] == #[trigger] from[j] + per
                * lens[j],
        n > 0 ==> from.last() < samples.len(),
    ensures
        n > 0 ==> per * assemble::total(lens.take(n - 1)) == from[n - 1] && from[n - 1]
            <= from.last(),
        assemble::cut_pieces(paras, lens, per, samples, n).len() == n,
        forall|k: int|
            0 <= k < n ==> #[trigger] assemble::cut_pieces(paras, lens, per, samples, n)[k] == (
                paras[k] as int,
                samples.subrange(
                    from[k],
                    if k + 1 < lens.len() {
                        from[k + 1]
                    } else {
                        samples.len() as int
                    },
                ),
            ),
    decreases n,
{
    if n > 0 {
        lemma_units(paras, lens, per, samples, from, n - 1);
        let len = samples.len();
        assert forall|k: int| 0 <= k < lens.len() implies per * lens[k] > 0 by {
            assert(per * lens[k] > 0) by (nonlinear_arith)
                requires
                    per > 0,
                    lens[k] > 0,
            ;
        }
        lemma_rising(lens, per, from, n - 1);
        if n >= 2 {
            assert(lens.take(n - 1).drop_last() =~= lens.take(n - 2));
            let a = assemble::total(lens.take(n - 2));
            assert(per * (a + lens[n - 2]) == per * a + per * lens[n - 2]) by (nonlinear_arith);
            assert(from[n - 1] == from[n - 2] + per * lens[n - 2]);
        } else {
            assert(lens.take(0) =~= Seq::<usize>::empty());
            assert(per * 0 == 0) by (nonlinear_arith);
        }
        let start = assemble::cut_end(lens, per, len, n - 2) as int;
        let stop = assemble::cut_end(lens, per, len, n - 1) as int;
        assert(start == from[n - 1]);
        if n < lens.len() {
            assert(lens.take(n).drop_last() =~= lens.take(n - 1));
            let a = assemble::total(lens.take(n - 1));
            assert(per * (a + lens[n - 1]) == per * a + per * lens[n - 1]) by (nonlinear_arith);
            assert(from[n] == from[n - 1] + per * lens[n - 1]);
            lemma_rising(lens, per, from, n);
            assert(stop == from[n]);
        }
        assert(start < stop);
    }
}

/// Units start one behind the other.
proof fn lemma_rising(lens: Seq<usize>, per: nat, from: Seq<int>, k: int)
    requires
        0 <= k < from.len() == lens.len(),
        forall|j: int, k: int|
            0 <= j && k == j + 1 && k < from.len() ==> #[trigger] from[k] == #[trigger] from[j] + per
                * lens[j],
    ensures
        from[k] <= from.last(),
    decreases from.len() - k,
{
    if k + 1 < from.len() {
        lemma_rising(lens, per, from, k + 1);
        assert(per * lens[k] >= 0) by (nonlinear_arith);
        assert(from[k + 1] == from[k] + per * lens[k]);
    }
}

/// The list of all segments goes through the paragraphs in order, and through each one's segments in
/// order: segment `k` of a paragraph stands `k` places behind the segments of the paragraphs before
/// it, and under that paragraph's number.
pub proof fn segments_are_listed_in_reading_order(paras: Seq<Seq<Seq<char>>>) -> (from: Seq<int>)
    ensures
        from.len() == paras.len() + 1,
        from[0] == 0,
        from.last() == assemble::flat(paras).len(),
        forall|p: int, q: int|
            0 <= p && q == p + 1 && q < from.len() ==> #[trigger] from[q] == #[trigger] from[p]
                + paras[p].len(),
        forall|p: int, k: int|
            0 <= p < paras.len() && 0 <= k < paras[p].len() ==> 0 <= from[p] + k
                < assemble::flat(paras).len() && assemble::flat(paras)[from[p] + k] == (
                p,
                #[trigger] paras[p][k],
            ),
    decreases paras.len(),
{
    if paras.len() == 0 {
        seq![0int]
    } else {
        let rest = paras.drop_last();
        let n = paras.len() - 1;
        let was = segments_are_listed_in_reading_order(rest);
        let all = assemble::flat(paras);
        let before = assemble::flat(rest);
        let from = was.push((before.len() + paras.last().len()) as int);
        assert forall|p: int, q: int| 0 <= p && q == p + 1 && q < from.len() implies #[trigger] from[q]
            == #[trigger] from[p] + paras[p].len() by {
            if q < was.len() {
                assert(was[q] == was[p] + rest[p].len());
            }
        }
        assert forall|p: int, k: int| 0 <= p < paras.len() && 0 <= k < paras[p].len() implies 0
            <= from[p] + k < all.len() && all[from[p] + k] == (p, #[trigger] paras[p][k]) by {
            if p < n {
                assert(rest[p][k] == paras[p][k]);
                assert(all[from[p] + k] == before[was[p] + k]);
            } else {
                assert(from[p] == before.len());
            }
        }
        from
    }
}

/// Segments show the number of their paragraph and their text, pieces that and their samples.
pub proof fn segments_and_pieces_show_their_paragraph<T>(
    v: Seq<(usize, String)>,
    pieces: Seq<Piece<T>>,
    k: int,
)
    ensures
        assemble::numbered(v).len() == v.len(),
        0 <= k < v.len() ==> assemble::numbered(v)[k].0 == v[k].0 && assemble::numbered(v)[k].1
            == v[k].1@,
        assemble::piece_views(pieces).len() == pieces.len(),
        0 <= k < pieces.len() ==> assemble::piece_views(pieces)[k].0 == pieces[k].para
            && assemble::piece_views(pieces)[k].1 == pieces[k].samples@,
{
}

} // verus!
