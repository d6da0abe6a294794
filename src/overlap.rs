//! A subset grown by a margin on every side, clamped to its array: filters
//! that look at neighbouring elements read the grown region and keep the
//! part of what they compute that lies in the requested subset.
use vstd::prelude::*;
use crate::index::num_elements;
use crate::region::{extract_region, region_elems};
use crate::subset::{ArraySubset, min_u64};

verus! {

/// The region `subset` grown by `overlap` (clamped to the source array), and
/// where `subset` lies inside that grown region.
#[derive(Debug)]
pub struct ArraySubsetOverlap {
    subset_src_overlap: ArraySubset,
    subset_dst_in_src: ArraySubset,
}

/// `a - b`, or zero where `b > a`.
pub open spec fn sat_sub(a: u64, b: u64) -> u64 {
    if a >= b {
        (a - b) as u64
    } else {
        0
    }
}

impl ArraySubsetOverlap {
    /// The grown region, in source array coordinates.
    pub closed spec fn input_view(&self) -> ArraySubset {
        self.subset_src_overlap
    }

    /// The requested subset, in coordinates of the grown region.
    pub closed spec fn inner_view(&self) -> ArraySubset {
        self.subset_dst_in_src
    }

    /// Grows `subset_src` by `overlap` on each side, clamped to `shape_src`.
    pub fn new(shape_src: &Vec<u64>, subset_src: &ArraySubset, overlap: &Vec<u64>) -> (r: Self)
        requires
            subset_src.wf(),
            subset_src.within_spec(shape_src@),
            overlap@.len() == subset_src.dim(),
        ensures
            r.input_view().wf(),
            r.inner_view().wf(),
            r.input_view().dim() == subset_src.dim(),
            r.inner_view().shape@ == subset_src.shape@,
            forall|i: int|
                0 <= i < subset_src.dim() ==> #[trigger] r.input_view().start@[i] == sat_sub(
                    subset_src.start@[i],
                    overlap@[i],
                ) && r.input_view().end_spec(i) == min_u64(
                    if subset_src.end_spec(i) + overlap@[i] <= u64::MAX {
                        (subset_src.end_spec(i) + overlap@[i]) as u64
                    } else {
                        u64::MAX
                    },
                    shape_src@[i],
                ) && r.inner_view().start@[i] == subset_src.start@[i] - r.input_view().start@[i],
            r.inner_view().within_spec(r.input_view().shape@),
    {
        let mut start: Vec<u64> = Vec::new();
        let mut shape: Vec<u64> = Vec::new();
        let mut offset: Vec<u64> = Vec::new();
        let mut i: usize = 0;
        while i < subset_src.shape.len()
            invariant
                subset_src.wf(),
                subset_src.within_spec(shape_src@),
                overlap@.len() == subset_src.dim(),
                i <= subset_src.dim(),
                start@.len() == i,
                shape@.len() == i,
                offset@.len() == i,
                forall|j: int|
                    0 <= j < i ==> #[trigger] start@[j] == sat_sub(subset_src.start@[j], overlap@[j])
                        && start@[j] + shape@[j] == min_u64(
                        if subset_src.end_spec(j) + overlap@[j] <= u64::MAX {
                            (subset_src.end_spec(j) + overlap@[j]) as u64
                        } else {
                            u64::MAX
                        },
                        shape_src@[j],
                    ) && offset@[j] == subset_src.start@[j] - start@[j] && offset@[j]
                        + subset_src.shape@[j] <= shape@[j],
            decreases subset_src.dim() - i,
        {
            let s = subset_src.start[i];
            let o = overlap[i];
            let e = subset_src.start[i] + subset_src.shape[i];
            let lo = if s >= o {
                s - o
            } else {
                0
            };
            let grown = if e <= u64::MAX - o {
                e + o
            } else {
                u64::MAX
            };
            let hi = if grown <= shape_src[i] {
                grown
            } else {
                shape_src[i]
            };
            let ghost old_start = start@;
            let ghost old_shape = shape@;
            let ghost old_offset = offset@;
            start.push(lo);
            shape.push(hi - lo);
            offset.push(s - lo);
            proof {
                assert forall|j: int| 0 <= j < i implies #[trigger] start@[j] == old_start[j]
                    && shape@[j] == old_shape[j] && offset@[j] == old_offset[j] by {}
            }
            i = i + 1;
        }
        let copy = crate::index::copy_u64s(&subset_src.shape);
        proof {
            assert forall|j: int| 0 <= j < copy@.len() implies offset@[j] + copy@[j] <= shape@[j] by {
                assert(start@[j] == sat_sub(subset_src.start@[j], overlap@[j]));
            }
        }
        ArraySubsetOverlap {
            subset_src_overlap: ArraySubset { start, shape },
            subset_dst_in_src: ArraySubset { start: offset, shape: copy },
        }
    }

    /// The grown region to read from the source array.
    pub fn subset_input(&self) -> (r: &ArraySubset)
        ensures
            *r == self.input_view(),
    {
        &self.subset_src_overlap
    }

    /// The elements of the requested subset, out of the elements of the grown
    /// region (row-major, in the grown region's shape); none for an empty
    /// subset.
    pub fn extract_subset(&self, elems: &Vec<u64>) -> (r: Vec<u64>)
        requires
            self.input_view().wf(),
            self.inner_view().wf(),
            self.inner_view().within_spec(self.input_view().shape@),
            num_elements(self.input_view().shape@) <= u64::MAX,
            elems@.len() == num_elements(self.input_view().shape@),
        ensures
            r@ == region_elems(
                elems@,
                self.input_view().shape@,
                self.inner_view().start@,
                self.inner_view().shape@,
            ),
    {
        extract_region(elems, &self.subset_src_overlap.shape, &self.subset_dst_in_src)
    }
}

} // verus!
