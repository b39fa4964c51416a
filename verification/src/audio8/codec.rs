//! What goes into the codec decoder: ten codebooks of codes, clamped and laid out row by row.

use crate::audio8::cfg;
use crate::grid;
use vstd::prelude::*;

verus! {

/// Why codes are not decoded.
#[derive(Clone, Copy, PartialEq, Eq, Structural, Debug)]
pub enum CodecError {
    /// There have to be ten codebooks.
    Codebooks { got: usize },
    /// No code frames to decode.
    Empty,
    /// A row that does not have as many frames as the first.
    Ragged { row: usize, len: usize },
}

/// The largest code of codebook `i`.
pub open spec fn top_code(i: int) -> u32 {
    if i == 0 {
        (cfg::CODEBOOK_SIZE - 1) as u32
    } else {
        (cfg::RESIDUAL_CODEBOOK_SIZE - 1) as u32
    }
}

/// A code of codebook `i`, held inside it.
pub open spec fn clamped(i: int, c: u32) -> u32 {
    if c < top_code(i) {
        c
    } else {
        top_code(i)
    }
}

/// The rows with every code held inside its codebook.
pub open spec fn clamped_rows(rows: Seq<Seq<u32>>) -> Seq<Seq<u32>> {
    Seq::new(rows.len(), |i: int| Seq::new(rows[i].len(), |t: int| clamped(i, rows[i][t])))
}

/// The codes for a decode, row behind row. The first codebook spans 4096 entries, the residual
/// ones only 1024, and a code beyond the last entry counts as that entry.
pub fn decode_input(codes: &Vec<Vec<u32>>) -> (r: Result<Vec<u32>, CodecError>)
    ensures
        ({
            let rows = grid::rows_view(codes@);
            match r {
                Ok(flat) => rows.len() == cfg::NUM_CODEBOOKS && rows[0].len() > 0
                    && grid::rectangular(rows, rows[0].len()) && flat@ == grid::flat_rows(
                    clamped_rows(rows),
                ),
                Err(CodecError::Codebooks { got }) => got == rows.len() && got
                    != cfg::NUM_CODEBOOKS,
                Err(CodecError::Empty) => rows.len() == cfg::NUM_CODEBOOKS && rows[0].len() == 0,
                Err(CodecError::Ragged { row, len }) => rows.len() == cfg::NUM_CODEBOOKS
                    && rows[0].len() > 0 && 0 < row < rows.len() && len == rows[row as int].len()
                    && len != rows[0].len() && forall|k: int|
                    0 <= k < row ==> (#[trigger] rows[k]).len() == rows[0].len(),
            }
        }),
{
    let n: usize = codes.len();
    let ghost rows = grid::rows_view(codes@);
    if n != cfg::NUM_CODEBOOKS {
        return Err(CodecError::Codebooks { got: n });
    }
    let t: usize = codes[0].len();
    if t == 0 {
        return Err(CodecError::Empty);
    }
    let mut flat: Vec<u32> = Vec::new();
    let mut i: usize = 0;
    assert(clamped_rows(rows).take(0) =~= Seq::empty());
    while i < n
        invariant
            n == codes@.len() == cfg::NUM_CODEBOOKS,
            rows == grid::rows_view(codes@),
            t == rows[0].len() > 0,
            i <= n,
            forall|k: int| 0 <= k < i ==> (#[trigger] rows[k]).len() == t,
            flat@ == grid::flat_rows(clamped_rows(rows).take(i as int)),
        decreases n - i,
    {
        let len: usize = codes[i].len();
        if len != t {
            assert(rows[i as int].len() == len);
            return Err(CodecError::Ragged { row: i, len });
        }
        let hi: u32 = if i == 0 {
            (cfg::CODEBOOK_SIZE - 1) as u32
        } else {
            (cfg::RESIDUAL_CODEBOOK_SIZE - 1) as u32
        };
        let ghost before = flat@;
        let ghost row = clamped_rows(rows)[i as int];
        let mut k: usize = 0;
        assert(before + row.take(0) =~= before);
        while k < t
            invariant
                k <= t == codes@[i as int]@.len(),
                i < codes@.len(),
                rows == grid::rows_view(codes@),
                hi == top_code(i as int),
                row == clamped_rows(rows)[i as int],
                row.len() == t,
                flat@ == before + row.take(k as int),
            decreases t - k,
        {
            let c: u32 = codes[i][k];
            flat.push(
                if c < hi {
                    c
                } else {
                    hi
                },
            );
            assert(row.take(k + 1) =~= row.take(k as int).push(row[k as int]));
            assert(flat@ =~= before + row.take(k + 1));
            k += 1;
        }
        assert(row.take(t as int) =~= row);
        assert(clamped_rows(rows).take(i + 1).drop_last() =~= clamped_rows(rows).take(i as int));
        i += 1;
    }
    assert(clamped_rows(rows).take(n as int) =~= clamped_rows(rows));
    Ok(flat)
}

/// The quantizer's two upsampling stages and the decoder's four come to the samples of one code
/// frame, and a code that was clamped is inside its codebook.
pub proof fn the_strides_make_a_frame(i: int, c: u32)
    ensures
        2 * 2 * 8 * 8 * 4 * 2 == cfg::CODEC_FRAME_SIZE,
        clamped(i, c) <= top_code(i),
        c <= top_code(i) ==> clamped(i, c) == c,
{
}

/// Codes are bound to their codebooks: 4096 entries in the first and 1024 in each other.
pub proof fn codes_are_bound_to_their_codebooks(rows: Seq<Seq<u32>>, i: int, t: int)
    requires
        0 <= i < rows.len(),
        0 <= t < rows[i].len(),
    ensures
        clamped_rows(rows).len() == rows.len(),
        clamped_rows(rows)[i].len() == rows[i].len(),
        i == 0 && rows[i][t] < 4096 ==> clamped_rows(rows)[i][t] == rows[i][t],
        i == 0 && rows[i][t] >= 4096 ==> clamped_rows(rows)[i][t] == 4095,
        i > 0 && rows[i][t] < 1024 ==> clamped_rows(rows)[i][t] == rows[i][t],
        i > 0 && rows[i][t] >= 1024 ==> clamped_rows(rows)[i][t] == 1023,
{
}

} // verus!
