//! A regular chunk grid: an array shape cut into chunks of one nominal shape,
//! the last chunk along each dimension truncated at the array's edge.
use vstd::prelude::*;
use vstd::arithmetic::div_mod::{lemma_fundamental_div_mod, lemma_div_is_ordered};
use crate::index::{all_positive, in_bounds, num_elements, checked_num_elements};
use crate::subset::ArraySubset;
use crate::region::lemma_num_elements_le;

verus! {

/// Why a grid could not be built or a chunk could not be addressed.
#[derive(Clone, Copy, Debug, PartialEq, Eq, Structural)]
pub enum GridError {
    /// The array and chunk shapes have different lengths, a shape has a zero
    /// extent, or the array's element count exceeds `u64::MAX`.
    IncompatibleConfiguration,
    /// The chunk indices lie outside the grid.
    OutOfBounds,
}

pub open spec fn ceil_div(a: nat, b: nat) -> nat {
    if a % b == 0 {
        a / b
    } else {
        a / b + 1
    }
}

/// The number of chunks along each dimension.
pub open spec fn grid_shape_spec(array_shape: Seq<u64>, chunk_shape: Seq<u64>) -> Seq<u64> {
    Seq::new(
        array_shape.len(),
        |i: int| ceil_div(array_shape[i] as nat, chunk_shape[i] as nat) as u64,
    )
}

/// The shape of the chunk at grid position `g`, truncated at the array's edge.
pub open spec fn chunk_shape_spec(
    array_shape: Seq<u64>,
    chunk_shape: Seq<u64>,
    g: Seq<u64>,
) -> Seq<u64> {
    Seq::new(
        array_shape.len(),
        |i: int|
            if chunk_shape[i] <= array_shape[i] - g[i] * chunk_shape[i] {
                chunk_shape[i]
            } else {
                (array_shape[i] - g[i] * chunk_shape[i]) as u64
            },
    )
}

/// The grid position of the chunk holding array index `idx`.
pub open spec fn chunk_of(idx: Seq<u64>, chunk_shape: Seq<u64>) -> Seq<u64> {
    Seq::new(idx.len(), |i: int| (idx[i] / chunk_shape[i]) as u64)
}

/// The position of array index `idx` inside its chunk.
pub open spec fn local_of(idx: Seq<u64>, chunk_shape: Seq<u64>) -> Seq<u64> {
    Seq::new(idx.len(), |i: int| (idx[i] % chunk_shape[i]) as u64)
}

/// A positive extent has at most as many chunks as elements.
pub proof fn lemma_ceil_div_bound(a: nat, c: nat)
    requires
        c > 0,
        a > 0,
    ensures
        ceil_div(a, c) <= a,
        a / c <= a,
        a % c != 0 ==> a / c + 1 <= a,
{
    lemma_fundamental_div_mod(a as int, c as int);
    assert(a / c <= a) by (nonlinear_arith)
        requires
            c >= 1,
            a as int == c * (a / c) + a % c,
            0 <= a % c < c,
    ;
    if a % c != 0 {
        assert(a / c + 1 <= a) by (nonlinear_arith)
            requires
                c >= 2,
                a % c != 0,
                a as int == c * (a / c) + a % c,
                0 <= a % c < c,
        ;
    }
}

/// A regular chunk grid over an array.
#[derive(Clone, Debug)]
pub struct ChunkGrid {
    pub array_shape: Vec<u64>,
    pub chunk_shape: Vec<u64>,
}

/// An array shape and a chunk shape that make a grid.
pub open spec fn grid_wf(a_shape: Seq<u64>, c_shape: Seq<u64>) -> bool {
    &&& a_shape.len() == c_shape.len()
    &&& all_positive(a_shape)
    &&& all_positive(c_shape)
    &&& num_elements(a_shape) <= u64::MAX
}

impl ChunkGrid {
    pub open spec fn wf(&self) -> bool {
        grid_wf(self.array_shape@, self.chunk_shape@)
    }

    pub open spec fn grid_shape_view(&self) -> Seq<u64> {
        grid_shape_spec(self.array_shape@, self.chunk_shape@)
    }

    pub open spec fn chunk_shape_view(&self, g: Seq<u64>) -> Seq<u64> {
        chunk_shape_spec(self.array_shape@, self.chunk_shape@, g)
    }

    /// A grid over `array_shape` with chunks of `chunk_shape`.
    pub fn new(array_shape: Vec<u64>, chunk_shape: Vec<u64>) -> (r: Result<ChunkGrid, GridError>)
        ensures
            r.is_ok() <==> array_shape@.len() == chunk_shape@.len() && all_positive(array_shape@)
                && all_positive(chunk_shape@) && num_elements(array_shape@) <= u64::MAX,
            r.is_ok() ==> r.unwrap().array_shape@ == array_shape@ && r.unwrap().chunk_shape@
                == chunk_shape@ && r.unwrap().wf(),
            r.is_err() ==> r == Err::<ChunkGrid, _>(GridError::IncompatibleConfiguration),
    {
        if array_shape.len() != chunk_shape.len() {
            return Err(GridError::IncompatibleConfiguration);
        }
        let mut i: usize = 0;
        while i < array_shape.len()
            invariant
                array_shape@.len() == chunk_shape@.len(),
                i <= array_shape.len(),
                forall|j: int| 0 <= j < i ==> #[trigger] array_shape@[j] > 0,
                forall|j: int| 0 <= j < i ==> #[trigger] chunk_shape@[j] > 0,
            decreases array_shape.len() - i,
        {
            if array_shape[i] == 0 || chunk_shape[i] == 0 {
                return Err(GridError::IncompatibleConfiguration);
            }
            i = i + 1;
        }
        if checked_num_elements(&array_shape).is_none() {
            return Err(GridError::IncompatibleConfiguration);
        }
        Ok(ChunkGrid { array_shape, chunk_shape })
    }

    /// The number of chunks along each dimension: `ceil(array_shape / chunk_shape)`.
    pub fn grid_shape(&self) -> (r: Vec<u64>)
        requires
            self.wf(),
        ensures
            r@ == self.grid_shape_view(),
    {
        let mut out: Vec<u64> = Vec::new();
        let mut i: usize = 0;
        while i < self.array_shape.len()
            invariant
                self.wf(),
                i <= self.array_shape.len(),
                out@ =~= self.grid_shape_view().take(i as int),
            decreases self.array_shape.len() - i,
        {
            let a = self.array_shape[i];
            let c = self.chunk_shape[i];
            let n = if a % c == 0 {
                a / c
            } else {
                proof {
                    lemma_ceil_div_bound(a as nat, c as nat);
                }
                a / c + 1
            };
            out.push(n);
            i = i + 1;
        }
        proof {
            assert(self.grid_shape_view().take(self.array_shape@.len() as int) =~= self.grid_shape_view());
        }
        out
    }

    /// Whether `g` addresses a chunk of the grid.
    pub fn chunk_in_grid(&self, g: &Vec<u64>) -> (r: bool)
        requires
            self.wf(),
        ensures
            r == in_bounds(g@, self.grid_shape_view()),
    {
        if g.len() != self.array_shape.len() {
            return false;
        }
        let mut i: usize = 0;
        while i < g.len()
            invariant
                self.wf(),
                g@.len() == self.array_shape@.len(),
                i <= g.len(),
                forall|j: int| 0 <= j < i ==> #[trigger] g@[j] < self.grid_shape_view()[j],
            decreases g.len() - i,
        {
            let a = self.array_shape[i];
            let c = self.chunk_shape[i];
            let n = if a % c == 0 {
                a / c
            } else {
                proof {
                    lemma_ceil_div_bound(a as nat, c as nat);
                }
                a / c + 1
            };
            if g[i] >= n {
                return false;
            }
            i = i + 1;
        }
        true
    }

    /// The shape of chunk `g`: `min(chunk_shape, array_shape - g * chunk_shape)`
    /// along each dimension.
    pub fn chunk_shape_at(&self, g: &Vec<u64>) -> (r: Result<Vec<u64>, GridError>)
        requires
            self.wf(),
        ensures
            r.is_ok() <==> in_bounds(g@, self.grid_shape_view()),
            r.is_ok() ==> r.unwrap()@ == self.chunk_shape_view(g@) && all_positive(r.unwrap()@),
            r.is_ok() ==> num_elements(r.unwrap()@) <= num_elements(self.array_shape@),
            r.is_err() ==> r == Err::<Vec<u64>, _>(GridError::OutOfBounds),
    {
        if !self.chunk_in_grid(g) {
            return Err(GridError::OutOfBounds);
        }
        let mut out: Vec<u64> = Vec::new();
        let mut i: usize = 0;
        while i < g.len()
            invariant
                self.wf(),
                in_bounds(g@, self.grid_shape_view()),
                i <= g.len(),
                out@ =~= self.chunk_shape_view(g@).take(i as int),
                forall|j: int| 0 <= j < i ==> #[trigger] out@[j] > 0,
            decreases g.len() - i,
        {
            let a = self.array_shape[i];
            let c = self.chunk_shape[i];
            proof {
                lemma_chunk_start_below(self.array_shape@, self.chunk_shape@, g@, i as int);
            }
            let origin = g[i] * c;
            let rest = a - origin;
            let n = if c <= rest {
                c
            } else {
                rest
            };
            out.push(n);
            i = i + 1;
        }
        proof {
            assert(self.chunk_shape_view(g@).take(g@.len() as int) =~= self.chunk_shape_view(g@));
            assert forall|j: int| 0 <= j < out@.len() implies out@[j] <= self.array_shape@[j] by {
                lemma_chunk_start_below(self.array_shape@, self.chunk_shape@, g@, j);
            }
            lemma_num_elements_le(out@, self.array_shape@);
        }
        Ok(out)
    }

    /// Chunk `g`'s nominal extent shares an element with `subset` along every
    /// dimension.
    pub open spec fn chunk_intersects(&self, g: Seq<u64>, subset: &ArraySubset) -> bool {
        forall|i: int|
            0 <= i < g.len() ==> {
                let lo = g[i] * self.chunk_shape@[i];
                #[trigger] subset.start@[i] < lo + self.chunk_shape@[i] && lo < subset.end_spec(i)
                    && subset.start@[i] < subset.end_spec(i)
            }
    }

    /// The chunks that `subset` intersects, as a region of grid positions:
    /// from `start / chunk_shape` up to the chunk holding the last element,
    /// along each dimension (an empty region where the subset is empty).
    pub fn chunks_in_subset(&self, subset: &ArraySubset) -> (r: ArraySubset)
        requires
            self.wf(),
            subset.wf(),
            subset.within_spec(self.array_shape@),
        ensures
            r.wf(),
            r.dim() == subset.dim(),
            forall|g: Seq<u64>|
                g.len() == subset.dim() ==> (#[trigger] r.contains_spec(g) <==> self.chunk_intersects(
                    g,
                    subset,
                )),
    {
        let mut start: Vec<u64> = Vec::new();
        let mut shape: Vec<u64> = Vec::new();
        let mut i: usize = 0;
        while i < subset.shape.len()
            invariant
                self.wf(),
                subset.wf(),
                subset.within_spec(self.array_shape@),
                i <= subset.dim(),
                start@.len() == i,
                shape@.len() == i,
                forall|j: int| 0 <= j < i ==> #[trigger] start@[j] + shape@[j] <= u64::MAX,
                forall|j: int, x: u64|
                    0 <= j < i ==> ((#[trigger] in_range(x, start@[j], shape@[j])) <==> {
                        let lo = x * self.chunk_shape@[j];
                        subset.start@[j] < lo + self.chunk_shape@[j] && lo < subset.end_spec(j)
                            && subset.start@[j] < subset.end_spec(j)
                    }),
            decreases subset.dim() - i,
        {
            let c = self.chunk_shape[i];
            let s0 = subset.start[i];
            let e = subset.start[i] + subset.shape[i];
            let lo = s0 / c;
            let hi = if e > s0 {
                (e - 1) / c + 1
            } else {
                lo
            };
            proof {
                assert(lo <= hi) by {
                    if e > s0 {
                        lemma_div_is_ordered(s0 as int, (e - 1) as int, c as int);
                    }
                }
                assert forall|x: u64| (#[trigger] in_range(x, lo, (hi - lo) as u64)) <==> {
                    let l = x * c;
                    s0 < l + c && l < e && s0 < e
                } by {
                    lemma_div_below(s0 as nat, c as nat, x as nat);
                    if e > s0 {
                        lemma_div_atmost((e - 1) as nat, c as nat, x as nat);
                    }
                }
            }
            start.push(lo);
            shape.push(hi - lo);
            i = i + 1;
        }
        let r = ArraySubset { start, shape };
        proof {
            assert forall|g: Seq<u64>| g.len() == subset.dim() implies (#[trigger] r.contains_spec(g)
                <==> self.chunk_intersects(g, subset)) by {
                if r.contains_spec(g) {
                    assert forall|j: int| 0 <= j < g.len() implies {
                        let lo = g[j] * self.chunk_shape@[j];
                        #[trigger] subset.start@[j] < lo + self.chunk_shape@[j] && lo < subset.end_spec(j)
                            && subset.start@[j] < subset.end_spec(j)
                    } by {
                        assert(in_range(g[j], r.start@[j], r.shape@[j]));
                    }
                }
                if self.chunk_intersects(g, subset) {
                    assert forall|j: int| 0 <= j < r.dim() implies r.start@[j] <= g[j] && g[j]
                        < r.end_spec(j) by {
                        assert(subset.start@[j] < g[j] * self.chunk_shape@[j] + self.chunk_shape@[j]);
                        assert(in_range(g[j], r.start@[j], r.shape@[j]));
                    }
                }
            }
        }
        r
    }

    /// The array region covered by chunk `g`, truncated at the array's edge.
    pub fn chunk_subset_bounded(&self, g: &Vec<u64>) -> (r: Result<ArraySubset, GridError>)
        requires
            self.wf(),
        ensures
            r.is_ok() <==> in_bounds(g@, self.grid_shape_view()),
            r.is_ok() ==> all_positive(r.unwrap().shape@),
            r.is_ok() ==> r.unwrap().wf() && r.unwrap().shape@ == self.chunk_shape_view(g@)
                && r.unwrap().start@ == Seq::new(
                g@.len(),
                |i: int| (g@[i] * self.chunk_shape@[i]) as u64,
            ) && r.unwrap().within_spec(self.array_shape@),
            r.is_err() ==> r == Err::<ArraySubset, _>(GridError::OutOfBounds),
    {
        let shape = match self.chunk_shape_at(g) {
            Ok(s) => s,
            Err(e) => {
                return Err(e);
            },
        };
        let mut start: Vec<u64> = Vec::new();
        let mut i: usize = 0;
        while i < g.len()
            invariant
                self.wf(),
                in_bounds(g@, self.grid_shape_view()),
                shape@ == self.chunk_shape_view(g@),
                i <= g.len(),
                start@ =~= Seq::new(i as nat, |j: int| (g@[j] * self.chunk_shape@[j]) as u64),
            decreases g.len() - i,
        {
            proof {
                lemma_chunk_start_below(self.array_shape@, self.chunk_shape@, g@, i as int);
            }
            start.push(g[i] * self.chunk_shape[i]);
            i = i + 1;
        }
        let r = ArraySubset { start, shape };
        proof {
            assert forall|j: int| 0 <= j < r.dim() implies r.start@[j] + r.shape@[j] <= self.array_shape@[j] by {
                lemma_chunk_start_below(self.array_shape@, self.chunk_shape@, g@, j);
            }
        }
        Ok(r)
    }

    /// The grid position of the chunk holding in-bounds array index `idx`.
    pub fn chunk_indices_of(&self, idx: &Vec<u64>) -> (r: Vec<u64>)
        requires
            self.wf(),
            in_bounds(idx@, self.array_shape@),
        ensures
            r@ == chunk_of(idx@, self.chunk_shape@),
    {
        let mut out: Vec<u64> = Vec::new();
        let mut i: usize = 0;
        while i < idx.len()
            invariant
                self.wf(),
                in_bounds(idx@, self.array_shape@),
                i <= idx.len(),
                out@ =~= chunk_of(idx@, self.chunk_shape@).take(i as int),
            decreases idx.len() - i,
        {
            out.push(idx[i] / self.chunk_shape[i]);
            i = i + 1;
        }
        proof {
            assert(chunk_of(idx@, self.chunk_shape@).take(idx@.len() as int) =~= chunk_of(
                idx@,
                self.chunk_shape@,
            ));
        }
        out
    }

    /// The position of in-bounds array index `idx` inside its chunk.
    pub fn local_indices_of(&self, idx: &Vec<u64>) -> (r: Vec<u64>)
        requires
            self.wf(),
            in_bounds(idx@, self.array_shape@),
        ensures
            r@ == local_of(idx@, self.chunk_shape@),
    {
        let mut out: Vec<u64> = Vec::new();
        let mut i: usize = 0;
        while i < idx.len()
            invariant
                self.wf(),
                in_bounds(idx@, self.array_shape@),
                i <= idx.len(),
                out@ =~= local_of(idx@, self.chunk_shape@).take(i as int),
            decreases idx.len() - i,
        {
            out.push(idx[i] % self.chunk_shape[i]);
            i = i + 1;
        }
        proof {
            assert(local_of(idx@, self.chunk_shape@).take(idx@.len() as int) =~= local_of(
                idx@,
                self.chunk_shape@,
            ));
        }
        out
    }
}

/// A chunk of the grid starts inside the array.
pub proof fn lemma_chunk_start_below(a_shape: Seq<u64>, c_shape: Seq<u64>, g: Seq<u64>, i: int)
    requires
        grid_wf(a_shape, c_shape),
        in_bounds(g, grid_shape_spec(a_shape, c_shape)),
        0 <= i < g.len(),
    ensures
        g[i] * c_shape[i] < a_shape[i],
{
    let a = a_shape[i] as int;
    let c = c_shape[i] as int;
    let gi = g[i] as int;
    lemma_fundamental_div_mod(a, c);
    assert(gi < ceil_div(a as nat, c as nat));
    if a % c == 0 {
        assert(gi <= a / c - 1);
        assert(gi * c <= (a / c - 1) * c) by (nonlinear_arith)
            requires
                gi <= a / c - 1,
                c > 0,
        ;
        assert((a / c - 1) * c == (a / c) * c - c) by (nonlinear_arith);
    } else {
        assert(gi <= a / c);
        assert(gi * c <= (a / c) * c) by (nonlinear_arith)
            requires
                gi <= a / c,
                c > 0,
        ;
    }
}

/// Array index `idx` lies in chunk `chunk_of(idx)` of the grid, at position
/// `local_of(idx)` inside that chunk's (possibly truncated) shape.
pub proof fn lemma_chunk_of_in_grid(a_shape: Seq<u64>, c_shape: Seq<u64>, idx: Seq<u64>)
    requires
        grid_wf(a_shape, c_shape),
        in_bounds(idx, a_shape),
    ensures
        in_bounds(chunk_of(idx, c_shape), grid_shape_spec(a_shape, c_shape)),
        in_bounds(
            local_of(idx, c_shape),
            chunk_shape_spec(a_shape, c_shape, chunk_of(idx, c_shape)),
        ),
        forall|i: int|
            0 <= i < idx.len() ==> #[trigger] idx[i] == chunk_of(idx, c_shape)[i]
                * c_shape[i] + local_of(idx, c_shape)[i],
{
    let g = chunk_of(idx, c_shape);
    let l = local_of(idx, c_shape);
    assert forall|i: int| 0 <= i < idx.len() implies #[trigger] g[i] < grid_shape_spec(a_shape, c_shape)[i]
        && l[i] < chunk_shape_spec(a_shape, c_shape, g)[i] && idx[i] == g[i] * c_shape[i] + l[i] by {
        let a = a_shape[i] as int;
        let c = c_shape[i] as int;
        let x = idx[i] as int;
        lemma_fundamental_div_mod(x, c);
        lemma_fundamental_div_mod(a, c);
        lemma_div_is_ordered(x, a, c);
        assert(g[i] as int == x / c);
        assert(l[i] as int == x % c);
        assert(c * (x / c) == (x / c) * c) by (nonlinear_arith);
        assert(x == (x / c) * c + x % c);
        if a % c == 0 {
            if x / c >= a / c {
                assert(c * (x / c) >= c * (a / c)) by (nonlinear_arith)
                    requires
                        x / c >= a / c,
                        c > 0,
                ;
                assert(false);
            }
            assert(x / c < a / c);
        }
        lemma_ceil_div_bound(a as nat, c as nat);
        assert(g[i] < grid_shape_spec(a_shape, c_shape)[i]);
        assert(l[i] < chunk_shape_spec(a_shape, c_shape, g)[i]);
    }
}

/// The grid has at least one chunk along each dimension, and no more
/// chunks than the array has elements.
pub proof fn lemma_grid_num_elements(a_shape: Seq<u64>, c_shape: Seq<u64>)
    requires
        grid_wf(a_shape, c_shape),
    ensures
        all_positive(grid_shape_spec(a_shape, c_shape)),
        num_elements(grid_shape_spec(a_shape, c_shape)) <= num_elements(a_shape),
{
    let gs = grid_shape_spec(a_shape, c_shape);
    assert forall|i: int| 0 <= i < gs.len() implies gs[i] <= a_shape[i] && gs[i] > 0 by {
        let a = a_shape[i] as nat;
        let c = c_shape[i] as nat;
        lemma_ceil_div_bound(a, c);
        lemma_fundamental_div_mod(a as int, c as int);
        if a % c == 0 {
            assert(a / c > 0) by (nonlinear_arith)
                requires
                    a > 0,
                    a as int == c * (a / c) + 0,
            ;
        }
    }
    lemma_num_elements_le(gs, a_shape);
}

/// `start <= x < start + len`.
pub open spec fn in_range(x: u64, start: u64, len: u64) -> bool {
    start <= x && x < start + len
}

/// `s / c <= x` exactly when `s < x * c + c`.
pub proof fn lemma_div_below(s: nat, c: nat, x: nat)
    requires
        c > 0,
    ensures
        s / c <= x <==> s < x * c + c,
{
    lemma_fundamental_div_mod(s as int, c as int);
    let q = s / c;
    let r = s % c;
    assert(s / c <= x <==> s < x * c + c) by (nonlinear_arith)
        requires
            s == c * q + r,
            0 <= r < c,
            q == s / c,
    ;
}

/// `x <= y / c` exactly when `x * c <= y`.
pub proof fn lemma_div_atmost(y: nat, c: nat, x: nat)
    requires
        c > 0,
    ensures
        x <= y / c <==> x * c <= y,
{
    lemma_fundamental_div_mod(y as int, c as int);
    let q = y / c;
    let r = y % c;
    assert(x <= y / c <==> x * c <= y) by (nonlinear_arith)
        requires
            y == c * q + r,
            0 <= r < c,
            q == y / c,
    ;
}

} // verus!
