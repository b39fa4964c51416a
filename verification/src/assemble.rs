//! Putting an utterance together: which segments there are, where a joint waveform is cut back
//! into them, and the gaps between them.
//!
//! The functions are generic in the sample type, which they only move.

use crate::chars;
use crate::text;
use vstd::prelude::*;

verus! {

/// The segments of a text with the paragraph each came from, in reading order.
pub open spec fn flat(paras: Seq<Seq<Seq<char>>>) -> Seq<(int, Seq<char>)>
    decreases paras.len(),
{
    if paras.len() == 0 {
        Seq::empty()
    } else {
        flat(paras.drop_last()) + Seq::new(
            paras.last().len(),
            |k: int| (paras.len() - 1, paras.last()[k]),
        )
    }
}

/// What a vector of numbered strings says.
pub open spec fn numbered(v: Seq<(usize, String)>) -> Seq<(int, Seq<char>)> {
    Seq::new(v.len(), |k: int| (v[k].0 as int, v[k].1@))
}

/// Lists the segments of all paragraphs, each with the number of its paragraph.
pub fn flatten(paragraphs: &Vec<Vec<String>>) -> (out: Vec<(usize, String)>)
    ensures
        numbered(out@) == flat(text::paragraphs(paragraphs@)),
{
    let mut out: Vec<(usize, String)> = Vec::new();
    let mut p: usize = 0;
    let ghost all = text::paragraphs(paragraphs@);
    assert(numbered(out@) =~= Seq::<(int, Seq<char>)>::empty());
    while p < paragraphs.len()
        invariant
            p <= paragraphs@.len(),
            all == text::paragraphs(paragraphs@),
            numbered(out@) == flat(all.take(p as int)),
        decreases paragraphs@.len() - p,
    {
        let ghost done = numbered(out@);
        let ghost here = all[p as int];
        let mut k: usize = 0;
        assert(numbered(out@) =~= done + Seq::new(
            0,
            |j: int| (p as int, here[j]),
        ));
        while k < paragraphs[p].len()
            invariant
                p < paragraphs@.len(),
                k <= paragraphs@[p as int]@.len(),
                here == chars::texts(paragraphs@[p as int]@),
                numbered(out@) == done + Seq::new(k as nat, |j: int| (p as int, here[j])),
            decreases paragraphs@[p as int]@.len() - k,
        {
            let ghost before = numbered(out@);
            let s = paragraphs[p][k].clone();
            out.push((p, s));
            assert(numbered(out@) =~= before.push((p as int, here[k as int])));
            assert(numbered(out@) =~= done + Seq::new(
                (k + 1) as nat,
                |j: int| (p as int, here[j]),
            ));
            k += 1;
        }
        let ghost next = all.take(p + 1);
        assert(next.drop_last() =~= all.take(p as int));
        assert(next.last() == here);
        p += 1;
    }
    assert(all.take(p as int) =~= all);
    out
}

/// The sum of some lengths.
pub open spec fn total(lens: Seq<usize>) -> nat
    decreases lens.len(),
{
    if lens.len() == 0 {
        0
    } else {
        total(lens.drop_last()) + lens.last() as nat
    }
}

/// Where the `i`-th of several units stops in a joint waveform of `len` samples, at `per`
/// samples for each part of a unit. The last unit takes whatever remains, so that rounding
/// cannot drop samples.
pub open spec fn cut_end(lens: Seq<usize>, per: nat, len: nat, i: int) -> nat {
    if i < 0 {
        0
    } else if i + 1 >= lens.len() {
        len
    } else if per * total(lens.take(i + 1)) <= len {
        per * total(lens.take(i + 1))
    } else {
        len
    }
}

/// A stretch of audio and the paragraph that it belongs to.
pub struct Piece<T> {
    pub para: usize,
    pub samples: Vec<T>,
}

/// A piece without its vector.
pub open spec fn piece_view<T>(p: Piece<T>) -> (int, Seq<T>) {
    (p.para as int, p.samples@)
}

/// What several pieces hold.
pub open spec fn piece_views<T>(v: Seq<Piece<T>>) -> Seq<(int, Seq<T>)> {
    Seq::new(v.len(), |k: int| piece_view(v[k]))
}

/// The first `n` units cut out of a joint waveform; units without samples are left out.
pub open spec fn cut_pieces<T>(
    paras: Seq<usize>,
    lens: Seq<usize>,
    per: nat,
    samples: Seq<T>,
    n: int,
) -> Seq<(int, Seq<T>)>
    decreases n,
{
    if n <= 0 {
        Seq::empty()
    } else {
        let before = cut_pieces(paras, lens, per, samples, n - 1);
        let from = cut_end(lens, per, samples.len(), n - 2) as int;
        let to = cut_end(lens, per, samples.len(), n - 1) as int;
        if from < to {
            before.push((paras[n - 1] as int, samples.subrange(from, to)))
        } else {
            before
        }
    }
}

/// Pieces one behind the other, with `gap` between two of one paragraph and `para_gap` between
/// two of different ones.
pub open spec fn stitched<T>(pieces: Seq<(int, Seq<T>)>, gap: Seq<T>, para_gap: Seq<T>) -> Seq<T>
    decreases pieces.len(),
{
    if pieces.len() == 0 {
        Seq::empty()
    } else if pieces.len() == 1 {
        pieces[0].1
    } else {
        let last = pieces.last();
        let prev = pieces[pieces.len() - 2];
        stitched(pieces.drop_last(), gap, para_gap) + (if last.0 != prev.0 {
            para_gap
        } else {
            gap
        }) + last.1
    }
}

/// The samples of `v[from..to]`.
pub fn copy_range<T: Copy>(v: &[T], from: usize, to: usize) -> (out: Vec<T>)
    requires
        from <= to <= v@.len(),
    ensures
        out@ == v@.subrange(from as int, to as int),
{
    let mut out: Vec<T> = Vec::new();
    let mut i: usize = from;
    while i < to
        invariant
            from <= i <= to <= v@.len(),
            out@ == v@.subrange(from as int, i as int),
        decreases to - i,
    {
        out.push(v[i]);
        i += 1;
        assert(v@.subrange(from as int, i as int) =~= v@.subrange(from as int, i - 1).push(
            v@[i - 1],
        ));
    }
    out
}

/// Puts the samples of `more` behind those of `out`.
pub fn extend_copied<T: Copy>(out: &mut Vec<T>, more: &[T])
    ensures
        final(out)@ == old(out)@ + more@,
{
    let mut i: usize = 0;
    assert(out@ + more@.take(0) =~= out@);
    while i < more.len()
        invariant
            i <= more@.len(),
            out@ == old(out)@ + more@.take(i as int),
        decreases more@.len() - i,
    {
        out.push(more[i]);
        i += 1;
        assert(old(out)@ + more@.take(i as int) =~= (old(out)@ + more@.take(i - 1)).push(
            more@[i - 1],
        ));
    }
    assert(more@.take(i as int) =~= more@);
}

proof fn lemma_total_step(lens: Seq<usize>, i: int)
    requires
        0 <= i < lens.len(),
    ensures
        total(lens.take(i + 1)) == total(lens.take(i)) + lens[i],
{
    assert(lens.take(i + 1).drop_last() =~= lens.take(i));
}

proof fn lemma_cut_step(lens: Seq<usize>, per: nat, len: nat, i: int)
    requires
        0 <= i < lens.len() - 1,
    ensures
        cut_end(lens, per, len, i) == if cut_end(lens, per, len, i - 1) + lens[i] * per <= len {
            cut_end(lens, per, len, i - 1) + lens[i] * per
        } else {
            len as int
        },
        cut_end(lens, per, len, i - 1) <= cut_end(lens, per, len, i) <= len,
{
    lemma_total_step(lens, i);
    let a = total(lens.take(i));
    assert(per * (a + lens[i]) == per * a + lens[i] * per) by (nonlinear_arith);
    assert(lens[i] * per >= 0) by (nonlinear_arith);
    if i == 0 {
        assert(lens.take(0) =~= Seq::<usize>::empty());
        assert(per * 0 == 0) by (nonlinear_arith);
    }
}

/// Cuts a joint waveform back into its units, so that the gaps between them still apply. A unit
/// of `n` parts is exactly `n * per` samples, so the cuts are exact rather than estimated.
pub fn cut<T: Copy>(paras: &Vec<usize>, lens: &Vec<usize>, per: usize, samples: &[T]) -> (out: Vec<
    Piece<T>,
>)
    requires
        paras@.len() == lens@.len(),
    ensures
        piece_views(out@) == cut_pieces(
            paras@,
            lens@,
            per as nat,
            samples@,
            lens@.len() as int,
        ),
{
    let mut out: Vec<Piece<T>> = Vec::new();
    let mut at: usize = 0;
    let mut i: usize = 0;
    assert(piece_views(out@) =~= Seq::<(int, Seq<T>)>::empty());
    while i < lens.len()
        invariant
            i <= lens@.len(),
            paras@.len() == lens@.len(),
            at <= samples@.len(),
            at == cut_end(lens@, per as nat, samples@.len(), i - 1),
            piece_views(out@) == cut_pieces(paras@, lens@, per as nat, samples@, i as int),
        decreases lens@.len() - i,
    {
        let end: usize = if i + 1 == lens.len() {
            samples.len()
        } else {
            proof {
                lemma_cut_step(lens@, per as nat, samples@.len(), i as int);
            }
            assert(lens@[i as int] * per <= 0xffff_ffff_ffff_ffff * 0xffff_ffff_ffff_ffff)
                by (nonlinear_arith)
                requires
                    0 <= lens@[i as int] <= 0xffff_ffff_ffff_ffff,
                    0 <= per <= 0xffff_ffff_ffff_ffff,
            ;
            let want: u128 = lens[i] as u128 * per as u128;
            if want <= (samples.len() - at) as u128 {
                at + want as usize
            } else {
                samples.len()
            }
        };
        if end > at {
            let ghost done = piece_views(out@);
            let part = copy_range(samples, at, end);
            let piece = Piece { para: paras[i], samples: part };
            let ghost added = piece_view(piece);
            out.push(piece);
            assert(piece_views(out@) =~= done.push(added));
        }
        at = end;
        i += 1;
    }
    out
}

/// Joins the pieces with silence between them.
pub fn stitch<T: Copy>(pieces: &Vec<Piece<T>>, gap: &[T], para_gap: &[T]) -> (out: Vec<T>)
    ensures
        out@ == stitched(piece_views(pieces@), gap@, para_gap@),
{
    let mut out: Vec<T> = Vec::new();
    let mut i: usize = 0;
    let ghost all = piece_views(pieces@);
    while i < pieces.len()
        invariant
            i <= pieces@.len(),
            all == piece_views(pieces@),
            out@ == stitched(all.take(i as int), gap@, para_gap@),
        decreases pieces@.len() - i,
    {
        let ghost next = all.take(i + 1);
        let ghost before = out@;
        assert(next.drop_last() =~= all.take(i as int));
        assert(next.last() == piece_view(pieces@[i as int]));
        if i > 0 {
            assert(next[next.len() - 2] == piece_view(pieces@[i - 1]));
            if pieces[i].para != pieces[i - 1].para {
                extend_copied(&mut out, para_gap);
            } else {
                extend_copied(&mut out, gap);
            }
        }
        extend_copied(&mut out, pieces[i].samples.as_slice());
        assert(i == 0 ==> before + next.last().1 =~= next[0].1);
        i += 1;
    }
    assert(all.take(i as int) =~= all);
    out
}

/// `millis` of silence at `sample_rate`, for the gaps between segments.
pub fn silence<T: Copy>(zero: T, sample_rate: usize, millis: usize) -> (out: Vec<T>)
    requires
        sample_rate * millis <= usize::MAX,
    ensures
        out@ == Seq::new((sample_rate * millis / 1000) as nat, |i: int| zero),
{
    let n: usize = sample_rate * millis / 1000;
    let mut out: Vec<T> = Vec::new();
    while out.len() < n
        invariant
            out@.len() <= n,
            forall|i: int| 0 <= i < out@.len() ==> out@[i] == zero,
        decreases n - out@.len(),
    {
        out.push(zero);
    }
    assert(out@ =~= Seq::new(n as nat, |i: int| zero));
    out
}

/// The samples of several pieces, one behind the other.
pub open spec fn concat<T>(pieces: Seq<(int, Seq<T>)>) -> Seq<T>
    decreases pieces.len(),
{
    if pieces.len() == 0 {
        Seq::empty()
    } else {
        concat(pieces.drop_last()) + pieces.last().1
    }
}

proof fn lemma_cut_concat<T>(
    paras: Seq<usize>,
    lens: Seq<usize>,
    per: nat,
    samples: Seq<T>,
    n: int,
)
    requires
        0 <= n <= lens.len(),
    ensures
        cut_end(lens, per, samples.len(), n - 1) <= samples.len(),
        concat(cut_pieces(paras, lens, per, samples, n)) == samples.take(
            cut_end(lens, per, samples.len(), n - 1) as int,
        ),
    decreases n,
{
    if n > 0 {
        lemma_cut_concat(paras, lens, per, samples, n - 1);
        let before = cut_pieces(paras, lens, per, samples, n - 1);
        let from = cut_end(lens, per, samples.len(), n - 2) as int;
        let to = cut_end(lens, per, samples.len(), n - 1) as int;
        if n < lens.len() {
            lemma_cut_step(lens, per, samples.len(), n - 1);
        }
        assert(samples.take(to) =~= samples.take(from) + samples.subrange(from, to));
        if from < to {
            let p = (paras[n - 1] as int, samples.subrange(from, to));
            assert(before.push(p).drop_last() =~= before);
        } else {
            assert(samples.subrange(from, to) =~= Seq::<T>::empty());
            assert(samples.take(to) =~= samples.take(from));
        }
    }
}

/// Cutting loses nothing: the pieces, one behind the other, are the whole waveform.
pub proof fn cut_keeps_every_sample<T>(
    paras: Seq<usize>,
    lens: Seq<usize>,
    per: nat,
    samples: Seq<T>,
)
    requires
        lens.len() > 0,
    ensures
        concat(cut_pieces(paras, lens, per, samples, lens.len() as int)) == samples,
{
    lemma_cut_concat(paras, lens, per, samples, lens.len() as int);
    assert(samples.take(samples.len() as int) =~= samples);
}

/// The cuts are exact: where the waveform is as long as its units say, the `i`-th unit covers
/// its own samples and no others.
pub proof fn cuts_are_exact(lens: Seq<usize>, per: nat, i: int)
    requires
        0 <= i < lens.len(),
    ensures
        cut_end(lens, per, per * total(lens), i) == per * total(lens.take(i + 1)),
        cut_end(lens, per, per * total(lens), i) - cut_end(lens, per, per * total(lens), i - 1)
            == per * lens[i],
{
    lemma_total_monotone(lens, i + 1);
    lemma_total_monotone(lens, i);
    lemma_total_step(lens, i);
    let a = total(lens.take(i));
    let b = total(lens.take(i + 1));
    let c = total(lens);
    assert(per * (a + lens[i]) == per * a + per * lens[i]) by (nonlinear_arith);
    assert(per * a <= per * c && per * b <= per * c) by (nonlinear_arith)
        requires
            a <= c,
            b <= c,
    ;
    if i + 1 == lens.len() {
        assert(lens.take(i + 1) =~= lens);
    }
    if i == 0 {
        assert(lens.take(0) =~= Seq::<usize>::empty());
        assert(per * 0 == 0) by (nonlinear_arith);
    }
}

proof fn lemma_total_monotone(lens: Seq<usize>, i: int)
    requires
        0 <= i <= lens.len(),
    ensures
        total(lens.take(i)) <= total(lens),
    decreases lens.len() - i,
{
    if i == lens.len() {
        assert(lens.take(i) =~= lens);
    } else {
        lemma_total_step(lens, i);
        lemma_total_monotone(lens, i + 1);
    }
}

/// The segments to speak, each with the number of its paragraph, or `None` where there is no text
/// to speak.
pub fn plan_segments(t: &str, max_chars: usize) -> (r: Option<Vec<(usize, String)>>)
    ensures
        match r {
            Some(v) => v@.len() > 0 && numbered(v@) == flat(
                text::segmented(t@, max_chars as nat),
            ),
            None => flat(text::segmented(t@, max_chars as nat)).len() == 0,
        },
{
    let paragraphs = text::segment(t, max_chars);
    let v = flatten(&paragraphs);
    assert(numbered(v@).len() == v@.len());
    if v.len() == 0 {
        return None;
    }
    Some(v)
}

/// A gap of `millis` at `rate`, as samples.
pub open spec fn gap_of<T>(zero: T, rate: int, millis: int) -> Seq<T> {
    Seq::new((rate * millis / 1000) as nat, |i: int| zero)
}

/// The samples of an utterance: its pieces with silence between them, or `None` where that comes
/// to nothing.
pub fn join_pieces<T: Copy>(
    pieces: &Vec<Piece<T>>,
    zero: T,
    rate: usize,
    segment_ms: usize,
    paragraph_ms: usize,
) -> (r: Option<Vec<T>>)
    requires
        rate * segment_ms <= usize::MAX,
        rate * paragraph_ms <= usize::MAX,
    ensures
        ({
            let all = stitched(
                piece_views(pieces@),
                gap_of(zero, rate as int, segment_ms as int),
                gap_of(zero, rate as int, paragraph_ms as int),
            );
            match r {
                Some(v) => v@ == all && all.len() > 0,
                None => all.len() == 0,
            }
        }),
{
    let gap = silence(zero, rate, segment_ms);
    let para_gap = silence(zero, rate, paragraph_ms);
    assert(gap@ =~= gap_of(zero, rate as int, segment_ms as int));
    assert(para_gap@ =~= gap_of(zero, rate as int, paragraph_ms as int));
    let out = stitch(pieces, gap.as_slice(), para_gap.as_slice());
    if out.len() == 0 {
        return None;
    }
    Some(out)
}

proof fn lemma_flat_len(paras: Seq<Seq<Seq<char>>>, k: int)
    requires
        0 <= k < flat(paras).len(),
    ensures
        0 <= flat(paras)[k].0 < paras.len(),
        exists|j: int|
            0 <= j < paras[flat(paras)[k].0].len() && flat(paras)[k].1
                == #[trigger] paras[flat(paras)[k].0][j],
    decreases paras.len(),
{
    let before = flat(paras.drop_last());
    if k < before.len() {
        lemma_flat_len(paras.drop_last(), k);
        assert(flat(paras)[k] == before[k]);
        assert(paras.drop_last()[before[k].0] == paras[before[k].0]);
    } else {
        let j = k - before.len();
        assert(flat(paras)[k] == (paras.len() - 1, paras.last()[j]));
        assert(paras[paras.len() - 1] == paras.last());
    }
}

/// Every segment of the flat list is a segment of the paragraph that it names, and the paragraphs
/// come in order.
pub proof fn flat_keeps_paragraphs(paras: Seq<Seq<Seq<char>>>, a: int, b: int)
    requires
        0 <= a <= b < flat(paras).len(),
    ensures
        0 <= flat(paras)[a].0 <= flat(paras)[b].0 < paras.len(),
        exists|j: int|
            0 <= j < paras[flat(paras)[a].0].len() && flat(paras)[a].1
                == #[trigger] paras[flat(paras)[a].0][j],
    decreases paras.len(),
{
    lemma_flat_len(paras, a);
    lemma_flat_len(paras, b);
    let before = flat(paras.drop_last());
    if b < before.len() {
        flat_keeps_paragraphs(paras.drop_last(), a, b);
        assert(flat(paras)[a] == before[a]);
        assert(flat(paras)[b] == before[b]);
    } else {
        assert(flat(paras)[b].0 == paras.len() - 1);
    }
}

proof fn lemma_stitched_len<T>(pieces: Seq<(int, Seq<T>)>, gap: Seq<T>, para_gap: Seq<T>)
    ensures
        stitched(pieces, gap, para_gap).len() >= concat(pieces).len(),
        pieces.len() >= 1 ==> stitched(pieces, gap, para_gap).len() == concat(pieces).len()
            + gap_count(pieces, false) * gap.len() + gap_count(pieces, true) * para_gap.len(),
    decreases pieces.len(),
{
    if pieces.len() == 1 {
        reveal_with_fuel(concat, 2);
        assert(pieces.drop_last() =~= Seq::<(int, Seq<T>)>::empty());
        assert(concat(pieces) =~= pieces[0].1);
        assert(0 * gap.len() == 0 && 0 * para_gap.len() == 0) by (nonlinear_arith);
    } else if pieces.len() > 1 {
        lemma_stitched_len(pieces.drop_last(), gap, para_gap);
        let a = gap_count(pieces.drop_last(), false);
        let b = gap_count(pieces.drop_last(), true);
        assert((a + 1) * gap.len() == a * gap.len() + gap.len()) by (nonlinear_arith);
        assert((b + 1) * para_gap.len() == b * para_gap.len() + para_gap.len())
            by (nonlinear_arith);
    }
}

/// The neighbours that a gap separates: of different paragraphs, or of one.
pub open spec fn gap_count<T>(pieces: Seq<(int, Seq<T>)>, across: bool) -> nat
    decreases pieces.len(),
{
    if pieces.len() <= 1 {
        0
    } else {
        let n = gap_count(pieces.drop_last(), across);
        if (pieces.last().0 != pieces[pieces.len() - 2].0) == across {
            n + 1
        } else {
            n
        }
    }
}

/// An utterance is as long as its pieces and its gaps: stitching neither drops nor repeats a
/// sample.
pub proof fn stitching_adds_only_gaps<T>(pieces: Seq<(int, Seq<T>)>, gap: Seq<T>, para_gap: Seq<T>)
    requires
        pieces.len() >= 1,
    ensures
        stitched(pieces, gap, para_gap).len() == concat(pieces).len() + gap_count(pieces, false)
            * gap.len() + gap_count(pieces, true) * para_gap.len(),
{
    lemma_stitched_len(pieces, gap, para_gap);
}

} // verus!
