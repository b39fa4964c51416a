//! A decoder stack shared by the talker, the predictor and the codec's transformer: its geometry,
//! and what one pass over it reads and writes.

use crate::masks;
use vstd::prelude::*;

verus! {

/// The shape of a stack and the flags in which the three differ.
#[derive(Clone, Copy, PartialEq, Eq, Structural, Debug)]
pub struct Geometry {
    pub dim: usize,
    pub layers: usize,
    pub heads: usize,
    pub n_kv: usize,
    pub head_dim: usize,
    pub ffn: usize,
    pub qk_norm: bool,
    pub layer_scale: bool,
    pub window: Option<usize>,
}

impl Geometry {
    /// Query heads share key-value heads evenly, and the fused projection's width fits the
    /// machine.
    pub open spec fn wf(&self) -> bool {
        &&& self.n_kv > 0
        &&& self.heads % self.n_kv == 0
        &&& self.fused() <= usize::MAX
    }

    /// The width of the fused projection: the queries, then the keys, then the values.
    pub open spec fn fused(&self) -> int {
        self.heads * self.head_dim + 2 * (self.n_kv * self.head_dim)
    }

    /// Does the width of the fused projection fit the machine?
    pub fn fits(&self) -> (r: bool)
        ensures
            r == (self.fused() <= usize::MAX),
    {
        assert(self.heads * self.head_dim >= 0 && self.n_kv * self.head_dim >= 0) by (nonlinear_arith);
        match (self.heads.checked_mul(self.head_dim), self.n_kv.checked_mul(self.head_dim)) {
            (Some(q), Some(kv)) => match q.checked_add(kv) {
                Some(sum) => sum.checked_add(kv).is_some(),
                None => false,
            },
            _ => false,
        }
    }

    /// Query heads per key-value head.
    pub fn gqa(&self) -> (r: usize)
        requires
            self.n_kv > 0,
        ensures
            r == self.heads / self.n_kv,
    {
        self.heads / self.n_kv
    }

    /// The width of all query heads.
    pub fn q_width(&self) -> (r: usize)
        requires
            self.heads * self.head_dim <= usize::MAX,
        ensures
            r == self.heads * self.head_dim,
    {
        self.heads * self.head_dim
    }

    /// The width of all key-value heads.
    pub fn kv_width(&self) -> (r: usize)
        requires
            self.n_kv * self.head_dim <= usize::MAX,
        ensures
            r == self.n_kv * self.head_dim,
    {
        self.n_kv * self.head_dim
    }
}

/// Why a pass is refused.
#[derive(Clone, Copy, PartialEq, Eq, Structural, Debug)]
pub enum StackError {
    /// The input's batch is not the state's.
    Batch { got: usize, want: usize },
    /// The input's width is not the stack's.
    Width { got: usize, want: usize },
    /// The cache has no room for the positions.
    Capacity { positions: usize, capacity: usize },
}

/// How much of the caches is written, of how much.
#[derive(Clone, Copy, PartialEq, Eq, Structural, Debug)]
pub struct State {
    /// Positions written.
    pub width: usize,
    pub batch: usize,
    pub capacity: usize,
}

/// `x` moved into the range from `lo` to `hi`.
pub open spec fn clamped(x: int, lo: int, hi: int) -> int {
    if x < lo {
        lo
    } else if x > hi {
        hi
    } else {
        x
    }
}

/// What a pass over `t` positions reads and writes.
#[derive(Clone, Copy, PartialEq, Eq, Structural, Debug)]
pub struct Pass {
    /// The first position written.
    pub start: usize,
    /// One past the last: attention runs over the positions before it.
    pub span: usize,
    /// The first position that a single-position pass attends to.
    pub window_start: usize,
    /// Where the keys start in the fused projection, after the queries.
    pub keys_at: usize,
    /// Where the values start, after the keys.
    pub values_at: usize,
}

/// The first position that the last row of `span` sees under a window.
pub open spec fn first_seen(window: Option<usize>, span: int) -> int {
    match window {
        Some(w) => if span > w {
            span - w
        } else {
            0
        },
        None => 0,
    }
}

impl State {
    /// No more is written than there is room for.
    pub open spec fn wf(&self) -> bool {
        self.width <= self.capacity
    }

    /// An empty state for `batch` sequences, with as many positions as asked for within what the
    /// stack's tables cover.
    pub fn new_state_with(batch: usize, capacity: usize, most: usize) -> (s: Self)
        requires
            most >= 1,
        ensures
            s == (State {
                width: 0,
                batch,
                capacity: clamped(capacity as int, 1, most as int) as usize,
            }),
            s.wf(),
            1 <= s.capacity <= most,
    {
        let capacity: usize = if capacity < 1 {
            1
        } else if capacity > most {
            most
        } else {
            capacity
        };
        State { width: 0, batch, capacity }
    }

    /// Takes in a pass over an input of `b` sequences, `t` positions and width `dim`, or says why
    /// not. A refused pass writes nothing.
    pub fn forward(&mut self, geo: &Geometry, b: usize, t: usize, dim: usize) -> (r: Result<
        Pass,
        StackError,
    >)
        requires
            old(self).wf(),
            geo.fused() <= usize::MAX,
        ensures
            final(self).wf(),
            match r {
                Ok(p) => b == old(self).batch && dim == geo.dim && old(self).width + t <= old(
                    self,
                ).capacity && p == (Pass {
                    start: old(self).width,
                    span: (old(self).width + t) as usize,
                    window_start: first_seen(geo.window, old(self).width + t) as usize,
                    keys_at: (geo.heads * geo.head_dim) as usize,
                    values_at: (geo.heads * geo.head_dim + geo.n_kv * geo.head_dim) as usize,
                }) && *final(self) == (State { width: p.span, ..*old(self) }),
                Err(StackError::Batch { got, want }) => *final(self) == *old(self) && got == b
                    && want == old(self).batch && got != want,
                Err(StackError::Width { got, want }) => *final(self) == *old(self) && b == old(
                    self,
                ).batch && got == dim && want == geo.dim && got != want,
                Err(StackError::Capacity { positions, capacity }) => *final(self) == *old(self)
                    && b == old(self).batch && dim == geo.dim && old(self).width + t > old(
                    self,
                ).capacity && capacity == old(self).capacity && (old(self).width + t <= usize::MAX
                    ==> positions == old(self).width + t),
            },
    {
        if b != self.batch {
            return Err(StackError::Batch { got: b, want: self.batch });
        }
        if dim != geo.dim {
            return Err(StackError::Width { got: dim, want: geo.dim });
        }
        if t > self.capacity - self.width {
            return Err(
                StackError::Capacity {
                    positions: self.width.saturating_add(t),
                    capacity: self.capacity,
                },
            );
        }
        assert(geo.heads * geo.head_dim >= 0 && geo.n_kv * geo.head_dim >= 0) by (nonlinear_arith);
        let start: usize = self.width;
        let span: usize = start + t;
        let window_start: usize = match geo.window {
            Some(w) => if span > w {
                span - w
            } else {
                0
            },
            None => 0,
        };
        let keys_at: usize = geo.q_width();
        let values_at: usize = keys_at + geo.kv_width();
        self.width = span;
        Ok(Pass { start, span, window_start, keys_at, values_at })
    }
}

/// The queries, keys and values tile the fused projection, and their heads tile them in turn.
pub proof fn the_fused_projection_is_tiled(geo: Geometry)
    requires
        geo.wf(),
    ensures
        geo.heads * geo.head_dim + geo.n_kv * geo.head_dim + geo.n_kv * geo.head_dim
            == geo.fused(),
        (geo.heads / geo.n_kv) * geo.n_kv == geo.heads,
{
    vstd::arithmetic::div_mod::lemma_fundamental_div_mod(geo.heads as int, geo.n_kv as int);
    assert((geo.heads / geo.n_kv) * geo.n_kv == geo.n_kv * (geo.heads / geo.n_kv))
        by (nonlinear_arith);
}

/// A decode step under a window sees exactly what the last row of a causal window mask leaves
/// visible.
pub proof fn decode_windows_agree_with_the_mask(window: usize, span: int, c: int)
    requires
        0 < window,
        0 < span,
        0 <= c,
    ensures
        first_seen(Some(window), span) <= c < span <==> !masks::window_hidden(
            window as int,
            span - 1,
            c,
        ),
{
}

/// A number is moved into a range by no more than it has to be.
pub proof fn clamping_moves_into_the_range(x: int, lo: int, hi: int)
    requires
        lo <= hi,
    ensures
        lo <= clamped(x, lo, hi) <= hi,
        lo <= x <= hi ==> clamped(x, lo, hi) == x,
        x < lo ==> clamped(x, lo, hi) == lo,
        hi < x ==> clamped(x, lo, hi) == hi,
{
}

} // verus!
