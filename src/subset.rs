//! Axis-aligned N-dimensional half-open intervals.
use vstd::prelude::*;
use crate::index::{checked_num_elements, num_elements};

verus! {

/// The region `start[i] .. start[i] + shape[i]` along each dimension `i`.
#[derive(Clone, Debug)]
pub struct ArraySubset {
    pub start: Vec<u64>,
    pub shape: Vec<u64>,
}

/// Why a subset could not be formed.
#[derive(Clone, Copy, Debug, PartialEq, Eq, Structural)]
pub enum SubsetError {
    /// The start and shape have different lengths.
    IncompatibleDimensionality,
    /// An exclusive end along some dimension exceeds `u64::MAX`.
    EndOverflow,
}

/// Exclusive ends `start + shape` fit in `u64`.
pub open spec fn ends_fit(start: Seq<u64>, shape: Seq<u64>) -> bool {
    forall|i: int| 0 <= i < shape.len() ==> start[i] + shape[i] <= u64::MAX
}

pub open spec fn max_u64(a: u64, b: u64) -> u64 {
    if a >= b {
        a
    } else {
        b
    }
}

pub open spec fn min_u64(a: u64, b: u64) -> u64 {
    if a <= b {
        a
    } else {
        b
    }
}

impl ArraySubset {
    pub open spec fn wf(&self) -> bool {
        &&& self.start@.len() == self.shape@.len()
        &&& ends_fit(self.start@, self.shape@)
    }

    pub open spec fn dim(&self) -> nat {
        self.shape@.len()
    }

    /// The exclusive end along dimension `i`.
    pub open spec fn end_spec(&self, i: int) -> nat {
        (self.start@[i] + self.shape@[i]) as nat
    }

    /// `idx` lies inside the subset.
    pub open spec fn contains_spec(&self, idx: Seq<u64>) -> bool {
        &&& idx.len() == self.dim()
        &&& forall|i: int|
            0 <= i < self.dim() ==> self.start@[i] <= idx[i] && idx[i] < self.end_spec(i)
    }

    /// The subset lies inside an array of `shape`.
    pub open spec fn within_spec(&self, shape: Seq<u64>) -> bool {
        &&& shape.len() == self.dim()
        &&& forall|i: int| 0 <= i < self.dim() ==> self.end_spec(i) <= shape[i]
    }

    /// A subset from its start and shape.
    pub fn new_with_start_shape(start: Vec<u64>, shape: Vec<u64>) -> (r: Result<
        ArraySubset,
        SubsetError,
    >)
        ensures
            start@.len() != shape@.len() <==> r == Err::<ArraySubset, _>(
                SubsetError::IncompatibleDimensionality,
            ),
            start@.len() == shape@.len() && !ends_fit(start@, shape@) <==> r == Err::<
                ArraySubset,
                _,
            >(SubsetError::EndOverflow),
            r.is_ok() <==> start@.len() == shape@.len() && ends_fit(start@, shape@),
            r.is_ok() ==> r.unwrap().start@ == start@ && r.unwrap().shape@ == shape@
                && r.unwrap().wf(),
    {
        if start.len() != shape.len() {
            return Err(SubsetError::IncompatibleDimensionality);
        }
        let mut i: usize = 0;
        while i < shape.len()
            invariant
                start@.len() == shape@.len(),
                i <= shape.len(),
                forall|j: int| 0 <= j < i ==> start@[j] + shape@[j] <= u64::MAX,
            decreases shape.len() - i,
        {
            if start[i] > u64::MAX - shape[i] {
                return Err(SubsetError::EndOverflow);
            }
            i = i + 1;
        }
        Ok(ArraySubset { start, shape })
    }

    /// The subset of shape `shape` starting at the origin.
    pub fn new_with_shape(shape: Vec<u64>) -> (r: ArraySubset)
        ensures
            r.wf(),
            r.shape@ == shape@,
            r.start@ == Seq::new(shape@.len(), |i: int| 0u64),
    {
        let mut start: Vec<u64> = Vec::new();
        let mut i: usize = 0;
        while i < shape.len()
            invariant
                i <= shape.len(),
                start@ == Seq::new(i as nat, |j: int| 0u64),
            decreases shape.len() - i,
        {
            start.push(0);
            i = i + 1;
            proof {
                assert(start@ =~= Seq::new(i as nat, |j: int| 0u64));
            }
        }
        ArraySubset { start, shape }
    }

    pub fn dimensionality(&self) -> (r: usize)
        ensures
            r == self.dim(),
    {
        self.shape.len()
    }

    /// The exclusive end along each dimension.
    pub fn end_exc(&self) -> (r: Vec<u64>)
        requires
            self.wf(),
        ensures
            r@.len() == self.dim(),
            forall|i: int| 0 <= i < self.dim() ==> r@[i] == self.end_spec(i),
    {
        let mut out: Vec<u64> = Vec::new();
        let mut i: usize = 0;
        while i < self.shape.len()
            invariant
                self.wf(),
                i <= self.shape.len(),
                out@.len() == i,
                forall|j: int| 0 <= j < i ==> out@[j] == self.end_spec(j),
            decreases self.shape.len() - i,
        {
            out.push(self.start[i] + self.shape[i]);
            i = i + 1;
        }
        out
    }

    /// The number of elements, or `None` where it exceeds `u64::MAX`.
    pub fn num_elements(&self) -> (r: Option<u64>)
        ensures
            r.is_some() <==> num_elements(self.shape@) <= u64::MAX,
            r.is_some() ==> r.unwrap() == num_elements(self.shape@),
    {
        checked_num_elements(&self.shape)
    }

    /// Some extent is zero, so the subset holds no element.
    pub fn is_empty(&self) -> (r: bool)
        ensures
            r <==> exists|i: int| 0 <= i < self.dim() && self.shape@[i] == 0,
    {
        let mut i: usize = 0;
        while i < self.shape.len()
            invariant
                i <= self.shape.len(),
                forall|j: int| 0 <= j < i ==> self.shape@[j] != 0,
            decreases self.shape.len() - i,
        {
            if self.shape[i] == 0 {
                return true;
            }
            i = i + 1;
        }
        false
    }

    /// Whether `idx` lies inside the subset.
    pub fn contains(&self, idx: &Vec<u64>) -> (r: bool)
        requires
            self.wf(),
        ensures
            r == self.contains_spec(idx@),
    {
        if idx.len() != self.shape.len() {
            return false;
        }
        let mut i: usize = 0;
        while i < self.shape.len()
            invariant
                self.wf(),
                idx@.len() == self.dim(),
                i <= self.shape.len(),
                forall|j: int|
                    0 <= j < i ==> self.start@[j] <= #[trigger] idx@[j] && idx@[j] < self.end_spec(
                        j,
                    ),
            decreases self.shape.len() - i,
        {
            let lo = self.start[i];
            let hi = self.start[i] + self.shape[i];
            if idx[i] < lo || idx[i] >= hi {
                return false;
            }
            i = i + 1;
        }
        true
    }

    /// Whether the subset lies inside an array of `shape`.
    pub fn inbounds_shape(&self, shape: &Vec<u64>) -> (r: bool)
        requires
            self.wf(),
        ensures
            r == self.within_spec(shape@),
    {
        if shape.len() != self.shape.len() {
            return false;
        }
        let mut i: usize = 0;
        while i < self.shape.len()
            invariant
                self.wf(),
                shape@.len() == self.dim(),
                i <= self.shape.len(),
                forall|j: int| 0 <= j < i ==> self.end_spec(j) <= shape@[j],
            decreases self.shape.len() - i,
        {
            if self.start[i] + self.shape[i] > shape[i] {
                return false;
            }
            i = i + 1;
        }
        true
    }

    /// The start of the intersection with `other` along dimension `i`.
    pub open spec fn overlap_start(&self, other: &ArraySubset, i: int) -> u64 {
        max_u64(self.start@[i], other.start@[i])
    }

    /// The exclusive end of the intersection with `other` along dimension `i`.
    pub open spec fn overlap_end(&self, other: &ArraySubset, i: int) -> u64 {
        min_u64(
            (self.start@[i] + self.shape@[i]) as u64,
            (other.start@[i] + other.shape@[i]) as u64,
        )
    }

    /// The intersection of two subsets of equal dimensionality; `None` where it
    /// is empty along some dimension.
    pub fn overlap(&self, other: &ArraySubset) -> (r: Option<ArraySubset>)
        requires
            self.wf(),
            other.wf(),
            self.dim() == other.dim(),
        ensures
            r.is_some() <==> forall|i: int|
                0 <= i < self.dim() ==> #[trigger] self.overlap_start(other, i) < self.overlap_end(
                    other,
                    i,
                ),
            r.is_some() ==> r.unwrap().wf() && r.unwrap().dim() == self.dim() && forall|i: int|
                0 <= i < self.dim() ==> r.unwrap().start@[i] == #[trigger] self.overlap_start(
                    other,
                    i,
                ) && r.unwrap().end_spec(i) == self.overlap_end(other, i),
            forall|idx: Seq<u64>|
                self.contains_spec(idx) && other.contains_spec(idx) ==> r.is_some()
                    && #[trigger] r.unwrap().contains_spec(idx),
    {
        let mut start: Vec<u64> = Vec::new();
        let mut shape: Vec<u64> = Vec::new();
        let mut i: usize = 0;
        while i < self.shape.len()
            invariant
                self.wf(),
                other.wf(),
                self.dim() == other.dim(),
                i <= self.shape.len(),
                start@.len() == i,
                shape@.len() == i,
                forall|j: int|
                    0 <= j < i ==> #[trigger] self.overlap_start(other, j) < self.overlap_end(
                        other,
                        j,
                    ),
                forall|j: int| 0 <= j < i ==> #[trigger] start@[j] == self.overlap_start(other, j),
                forall|j: int|
                    0 <= j < i ==> #[trigger] start@[j] + shape@[j] == self.overlap_end(other, j),
            decreases self.shape.len() - i,
        {
            let a_end = self.start[i] + self.shape[i];
            let b_end = other.start[i] + other.shape[i];
            let s = if self.start[i] >= other.start[i] {
                self.start[i]
            } else {
                other.start[i]
            };
            let e = if a_end <= b_end {
                a_end
            } else {
                b_end
            };
            assert(s == self.overlap_start(other, i as int));
            assert(e == self.overlap_end(other, i as int));
            if s >= e {
                proof {
                    assert forall|idx: Seq<u64>|
                        self.contains_spec(idx) && other.contains_spec(idx) implies false by {
                        assert(self.start@[i as int] <= idx[i as int]);
                        assert(other.start@[i as int] <= idx[i as int]);
                    }
                }
                return None;
            }
            let ghost old_start = start@;
            let ghost old_shape = shape@;
            start.push(s);
            shape.push(e - s);
            proof {
                assert forall|j: int| 0 <= j < i implies #[trigger] start@[j] == old_start[j]
                    && shape@[j] == old_shape[j] by {}
                assert(start@[i as int] == self.overlap_start(other, i as int));
                assert(start@[i as int] + shape@[i as int] == self.overlap_end(other, i as int));
                assert(self.overlap_start(other, i as int) < self.overlap_end(other, i as int));
            }
            i = i + 1;
        }
        let r = ArraySubset { start, shape };
        proof {
            assert forall|i: int| 0 <= i < self.dim() implies #[trigger] self.overlap_start(
                other,
                i,
            ) < self.overlap_end(other, i) by {
                assert(r.start@[i] == self.overlap_start(other, i));
            }
            assert forall|i: int| 0 <= i < self.dim() implies r.start@[i] == #[trigger] self.overlap_start(
                other,
                i,
            ) && r.end_spec(i) == self.overlap_end(other, i) by {
                assert(r.start@[i] == self.overlap_start(other, i));
            }
            assert forall|idx: Seq<u64>|
                self.contains_spec(idx) && other.contains_spec(idx) implies #[trigger] r.contains_spec(
                idx,
            ) by {
                assert forall|j: int| 0 <= j < r.dim() implies r.start@[j] <= idx[j] && idx[j]
                    < r.end_spec(j) by {
                    assert(r.start@[j] == self.overlap_start(other, j));
                    assert(self.start@[j] <= idx[j] && idx[j] < self.end_spec(j));
                    assert(other.start@[j] <= idx[j] && idx[j] < other.end_spec(j));
                }
            }
        }
        Some(r)
    }

    /// The subset shifted so that `origin` becomes the new zero; `None` where
    /// the dimensionalities differ or the subset starts before `origin` along
    /// some dimension.
    pub fn relative_to(&self, origin: &Vec<u64>) -> (r: Option<ArraySubset>)
        requires
            self.wf(),
        ensures
            r.is_some() <==> origin@.len() == self.dim() && forall|i: int|
                0 <= i < self.dim() ==> origin@[i] <= self.start@[i],
            r.is_some() ==> r.unwrap().wf() && r.unwrap().shape@ == self.shape@ && r.unwrap().start@
                == Seq::new(self.dim(), |i: int| (self.start@[i] - origin@[i]) as u64),
    {
        if origin.len() != self.shape.len() {
            return None;
        }
        let mut i: usize = 0;
        while i < self.shape.len()
            invariant
                self.wf(),
                i <= self.shape.len(),
                origin@.len() == self.dim(),
                forall|j: int| 0 <= j < i ==> #[trigger] origin@[j] <= self.start@[j],
            decreases self.shape.len() - i,
        {
            if origin[i] > self.start[i] {
                return None;
            }
            i = i + 1;
        }
        Some(self.relative_to_unchecked(origin))
    }

    /// The subset shifted so that `origin` becomes the new zero, for an
    /// `origin` that the caller knows to be at or before the start.
    pub fn relative_to_unchecked(&self, origin: &Vec<u64>) -> (r: ArraySubset)
        requires
            self.wf(),
            origin@.len() == self.dim(),
            forall|i: int| 0 <= i < self.dim() ==> origin@[i] <= self.start@[i],
        ensures
            r.wf(),
            r.shape@ == self.shape@,
            r.start@ == Seq::new(self.dim(), |i: int| (self.start@[i] - origin@[i]) as u64),
    {
        let mut start: Vec<u64> = Vec::new();
        let mut i: usize = 0;
        while i < self.shape.len()
            invariant
                self.wf(),
                origin@.len() == self.dim(),
                forall|j: int| 0 <= j < self.dim() ==> origin@[j] <= self.start@[j],
                i <= self.shape.len(),
                start@ == Seq::new(i as nat, |j: int| (self.start@[j] - origin@[j]) as u64),
            decreases self.shape.len() - i,
        {
            start.push(self.start[i] - origin[i]);
            i = i + 1;
            proof {
                assert(start@ =~= Seq::new(i as nat, |j: int| (self.start@[j] - origin@[j]) as u64));
            }
        }
        ArraySubset { start, shape: self.shape.clone() }
    }
}

} // verus!
