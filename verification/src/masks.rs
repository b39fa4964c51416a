//! Attention masks: which columns a row must not see.
//!
//! A mask is a row-major grid of flags. The adapter that hands it to the model writes minus
//! infinity where the flag is set and zero elsewhere.

use vstd::prelude::*;

verus! {

/// Column `c` is hidden from row `r` of a sequence with `pad` columns of filler in front. A real
/// row sees the real columns up to its own. A padded row gets ordinary causal visibility: masking
/// a position out does not stop it being computed, and a row that sees nothing would not be a
/// number.
pub open spec fn prefill_hidden(pad: int, r: int, c: int) -> bool {
    c > r || c < (if r < pad {
        0
    } else {
        pad
    })
}

/// Column `c` is hidden from row `r` under a causal window of `window` columns.
pub open spec fn window_hidden(window: int, r: int, c: int) -> bool {
    c > r || c + window <= r
}

/// The prefill mask at `q`, of lanes one behind the other, each `width` rows of `width` columns.
pub open spec fn prefill_at(pads: Seq<usize>, width: int, q: int) -> bool {
    prefill_hidden(pads[q / width / width] as int, q / width % width, q % width)
}

/// The decode mask at `q`, of lanes one behind the other, each one row of `span` columns: a
/// lane's filler is hidden.
pub open spec fn decode_at(pads: Seq<usize>, span: int, q: int) -> bool {
    q % span < pads[q / span]
}

/// The window mask at `q`, of `len` rows of `len` columns.
pub open spec fn window_at(window: int, len: int, q: int) -> bool {
    window_hidden(window, q / len, q % len)
}

/// A mask of `n` flags that agrees with `at`.
pub open spec fn is_grid(mask: Seq<bool>, n: int, at: spec_fn(int) -> bool) -> bool {
    mask.len() == n && forall|q: int| 0 <= q < n ==> #[trigger] mask[q] == at(q)
}

/// Some lane is padded.
pub open spec fn padded(pads: Seq<usize>) -> bool {
    exists|i: int| 0 <= i < pads.len() && #[trigger] pads[i] > 0
}

proof fn lemma_split(a: int, w: int, b: int)
    requires
        0 <= b < w,
    ensures
        (a * w + b) / w == a,
        (a * w + b) % w == b,
{
    vstd::arithmetic::div_mod::lemma_fundamental_div_mod_converse_div(a * w + b, w, a, b);
    vstd::arithmetic::div_mod::lemma_fundamental_div_mod_converse_mod(a * w + b, w, a, b);
}

/// Is any lane padded?
pub fn any_padded(pads: &Vec<usize>) -> (r: bool)
    ensures
        r == padded(pads@),
{
    let mut i: usize = 0;
    while i < pads.len()
        invariant
            i <= pads@.len(),
            forall|k: int| 0 <= k < i ==> #[trigger] pads@[k] == 0,
        decreases pads@.len() - i,
    {
        if pads[i] > 0 {
            return true;
        }
        i += 1;
    }
    false
}

/// Lays out the prefill masks of several lanes.
pub fn prefill_grid(pads: &Vec<usize>, width: usize) -> (mask: Vec<bool>)
    requires
        pads@.len() * width * width <= usize::MAX,
    ensures
        is_grid(
            mask@,
            pads@.len() * width * width,
            |q: int| prefill_at(pads@, width as int, q),
        ),
{
    let mut mask: Vec<bool> = Vec::new();
    let n: usize = pads.len();
    let w: usize = width;
    let mut i: usize = 0;
    assert(0 * w * w == 0) by (nonlinear_arith);
    while i < n
        invariant
            i <= n == pads@.len(),
            mask@.len() == i * w * w,
            forall|q: int|
                0 <= q < mask@.len() ==> #[trigger] mask@[q] == prefill_at(pads@, w as int, q),
        decreases n - i,
    {
        let mut r: usize = 0;
        assert((i * w + 0) * w == i * w * w) by (nonlinear_arith);
        while r < w
            invariant
                i < n == pads@.len(),
                r <= w,
                mask@.len() == (i * w + r) * w,
                forall|q: int|
                    0 <= q < mask@.len() ==> #[trigger] mask@[q] == prefill_at(pads@, w as int, q),
            decreases w - r,
        {
            let lo: usize = if r < pads[i] {
                0
            } else {
                pads[i]
            };
            let mut c: usize = 0;
            while c < w
                invariant
                    i < n == pads@.len(),
                    r < w,
                    c <= w,
                    lo == if r < pads@[i as int] {
                        0
                    } else {
                        pads@[i as int]
                    },
                    mask@.len() == (i * w + r) * w + c,
                    forall|q: int|
                        0 <= q < mask@.len() ==> #[trigger] mask@[q] == prefill_at(
                            pads@,
                            w as int,
                            q,
                        ),
                decreases w - c,
            {
                proof {
                    lemma_split((i * w + r) as int, w as int, c as int);
                    lemma_split(i as int, w as int, r as int);
                }
                mask.push(c > r || c < lo);
                c += 1;
            }
            assert((i * w + r) * w + w == (i * w + (r + 1)) * w) by (nonlinear_arith);
            r += 1;
        }
        assert((i * w + w) * w == (i + 1) * w * w) by (nonlinear_arith);
        i += 1;
    }
    mask
}

/// Lays out the decode masks of several lanes.
pub fn decode_grid(pads: &Vec<usize>, span: usize) -> (mask: Vec<bool>)
    requires
        pads@.len() * span <= usize::MAX,
    ensures
        is_grid(mask@, pads@.len() * span, |q: int| decode_at(pads@, span as int, q)),
{
    let mut mask: Vec<bool> = Vec::new();
    let n: usize = pads.len();
    let mut i: usize = 0;
    assert(0 * span == 0) by (nonlinear_arith);
    while i < n
        invariant
            i <= n == pads@.len(),
            mask@.len() == i * span,
            forall|q: int|
                0 <= q < mask@.len() ==> #[trigger] mask@[q] == decode_at(pads@, span as int, q),
        decreases n - i,
    {
        let mut c: usize = 0;
        while c < span
            invariant
                i < n == pads@.len(),
                c <= span,
                mask@.len() == i * span + c,
                forall|q: int|
                    0 <= q < mask@.len() ==> #[trigger] mask@[q] == decode_at(
                        pads@,
                        span as int,
                        q,
                    ),
            decreases span - c,
        {
            proof {
                lemma_split(i as int, span as int, c as int);
            }
            mask.push(c < pads[i]);
            c += 1;
        }
        assert(i * span + span == (i + 1) * span) by (nonlinear_arith);
        i += 1;
    }
    mask
}

/// Lays out a causal mask of `len` rows in which a row sees `window` columns, its own included.
pub fn window_mask(len: usize, window: usize) -> (mask: Vec<bool>)
    requires
        len * len <= usize::MAX,
    ensures
        is_grid(mask@, len * len, |q: int| window_at(window as int, len as int, q)),
{
    let mut mask: Vec<bool> = Vec::new();
    let mut r: usize = 0;
    assert(0 * len == 0) by (nonlinear_arith);
    while r < len
        invariant
            r <= len,
            mask@.len() == r * len,
            forall|q: int|
                0 <= q < mask@.len() ==> #[trigger] mask@[q] == window_at(
                    window as int,
                    len as int,
                    q,
                ),
        decreases len - r,
    {
        let mut c: usize = 0;
        while c < len
            invariant
                r < len,
                c <= len,
                mask@.len() == r * len + c,
                forall|q: int|
                    0 <= q < mask@.len() ==> #[trigger] mask@[q] == window_at(
                        window as int,
                        len as int,
                        q,
                    ),
            decreases len - c,
        {
            proof {
                lemma_split(r as int, len as int, c as int);
            }
            mask.push(c > r || r - c >= window);
            c += 1;
        }
        assert(r * len + len == (r + 1) * len) by (nonlinear_arith);
        r += 1;
    }
    mask
}

/// Every row sees itself, padded or not, so no row of a prefill mask is hidden altogether.
pub proof fn every_row_sees_itself(pad: int, window: int, r: int)
    requires
        0 <= r,
        0 < window,
    ensures
        !prefill_hidden(pad, r, r),
        !window_hidden(window, r, r),
{
}

/// A real row sees no filler and nothing ahead of it: exactly the columns from the end of the
/// filler to itself, which are its own sequence so far. Shifting the filler shifts the view with
/// it.
pub proof fn real_rows_see_their_own_sequence(pad: int, r: int, c: int, shift: int)
    requires
        0 <= pad <= r,
        0 <= pad + shift,
    ensures
        !prefill_hidden(pad, r, c) <==> pad <= c <= r,
        prefill_hidden(pad, r, c) == prefill_hidden(pad + shift, r + shift, c + shift),
{
}

/// A padded row has ordinary causal visibility: it sees the columns up to its own.
pub proof fn padded_rows_see_what_came_before(pad: int, r: int, c: int)
    requires
        0 <= r < pad,
        0 <= c,
    ensures
        !prefill_hidden(pad, r, c) <==> c <= r,
{
}

/// Under a window a row sees its own column and those just before it, as many as the window says.
pub proof fn a_window_ends_at_its_row(window: int, r: int, c: int)
    ensures
        !window_hidden(window, r, c) <==> r - window < c <= r,
{
}

/// A mask lists its lanes one behind the other, a lane its rows and a row its columns: the flag of
/// a column stands at its place in that order.
pub proof fn masks_are_laid_out_row_by_row(
    pads: Seq<usize>,
    width: int,
    window: int,
    i: int,
    r: int,
    c: int,
)
    requires
        0 <= i < pads.len(),
        0 <= r < width,
        0 <= c < width,
    ensures
        pads[i] <= r ==> prefill_at(pads, width, (i * width + r) * width + c) == !(pads[i] <= c
            <= r),
        r < pads[i] ==> prefill_at(pads, width, (i * width + r) * width + c) == !(c <= r),
        decode_at(pads, width, i * width + c) == (c < pads[i]),
        window_at(window, width, r * width + c) == !(r - window < c <= r),
{
    lemma_split(i * width + r, width, c);
    lemma_split(i, width, r);
    lemma_split(i, width, c);
    lemma_split(r, width, c);
}

/// A mask is needed where a lane has filler in front.
pub proof fn filler_calls_for_a_mask(pads: Seq<usize>)
    ensures
        !padded(pads) <==> forall|i: int| 0 <= i < pads.len() ==> #[trigger] pads[i] == 0,
{
}

} // verus!
