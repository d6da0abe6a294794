//! Reading the elements of a region out of a row-major element buffer.
use vstd::prelude::*;
use vstd::arithmetic::div_mod::lemma_fundamental_div_mod_converse;
use crate::index::{
    all_positive, in_bounds, num_elements, suffix_product, ravel, unravel, ravel_index,
    unravel_index, lemma_unravel_in_bounds, lemma_ravel_bound,
};
use crate::subset::ArraySubset;

verus! {

/// The index `start + unravel(k, rshape)` of the `k`-th element of a region.
pub open spec fn region_index(start: Seq<u64>, rshape: Seq<u64>, k: nat) -> Seq<u64> {
    let local = unravel(k, rshape);
    Seq::new(rshape.len(), |i: int| (start[i] + local[i]) as u64)
}

/// The elements of the region `start .. start + rshape`, in row-major order, of
/// an array of `shape` whose elements are `elems`.
pub open spec fn region_elems(
    elems: Seq<u64>,
    shape: Seq<u64>,
    start: Seq<u64>,
    rshape: Seq<u64>,
) -> Seq<u64> {
    Seq::new(num_elements(rshape), |k: int| elems[ravel(region_index(start, rshape, k as nat), shape) as int])
}

proof fn lemma_suffix_product_le(small: Seq<u64>, big: Seq<u64>, i: int)
    requires
        small.len() == big.len(),
        forall|j: int| 0 <= j < small.len() ==> small[j] <= big[j],
        0 <= i,
    ensures
        suffix_product(small, i) <= suffix_product(big, i),
    decreases small.len() - i,
{
    if i < small.len() {
        lemma_suffix_product_le(small, big, i + 1);
        let a = suffix_product(small, i + 1) as int;
        let b = suffix_product(big, i + 1) as int;
        assert(a * small[i] <= b * big[i]) by (nonlinear_arith)
            requires
                0 <= a <= b,
                0 <= small[i] <= big[i],
        ;
    }
}

/// A shape no larger than another along every dimension has no more elements.
pub proof fn lemma_num_elements_le(small: Seq<u64>, big: Seq<u64>)
    requires
        small.len() == big.len(),
        forall|j: int| 0 <= j < small.len() ==> small[j] <= big[j],
    ensures
        num_elements(small) <= num_elements(big),
{
    lemma_suffix_product_le(small, big, 0);
}

proof fn lemma_suffix_product_zero(shape: Seq<u64>, i: int, z: int)
    requires
        0 <= i <= z < shape.len(),
        shape[z] == 0,
    ensures
        suffix_product(shape, i) == 0,
    decreases z - i,
{
    if i < z {
        lemma_suffix_product_zero(shape, i + 1, z);
    }
    let s = suffix_product(shape, i + 1) as int;
    let x = shape[i] as int;
    assert(s * x == 0) by (nonlinear_arith)
        requires
            s == 0 || x == 0,
    ;
}

/// A shape with a zero extent has no element.
pub proof fn lemma_num_elements_zero(shape: Seq<u64>)
    requires
        !all_positive(shape),
    ensures
        num_elements(shape) == 0,
{
    let z = choose|z: int| 0 <= z < shape.len() && !(shape[z] > 0);
    lemma_suffix_product_zero(shape, 0, z);
}

/// The elements of a region of a row-major buffer, in row-major order,
/// copied a contiguous run at a time.
pub fn extract_region(elems: &Vec<u64>, shape: &Vec<u64>, region: &ArraySubset) -> (r: Vec<u64>)
    requires
        region.wf(),
        region.within_spec(shape@),
        num_elements(shape@) <= u64::MAX,
        elems@.len() == num_elements(shape@),
    ensures
        r@ == region_elems(elems@, shape@, region.start@, region.shape@),
{
    proof {
        lemma_num_elements_le(region.shape@, shape@);
    }
    let n = match region.num_elements() {
        Some(n) => n,
        None => {
            return Vec::new();
        },
    };
    if n == 0 {
        let out: Vec<u64> = Vec::new();
        proof {
            assert(out@ =~= region_elems(elems@, shape@, region.start@, region.shape@));
        }
        return out;
    }
    proof {
        if !all_positive(region.shape@) {
            lemma_num_elements_zero(region.shape@);
        }
        assert forall|i: int| 0 <= i < shape@.len() implies shape@[i] > 0 by {
            assert(region.shape@[i] > 0);
            assert(region.end_spec(i) <= shape@[i]);
        }
    }
    let runs = region.contiguous_linearised_indices(shape);
    let out = crate::runs::gather_runs(elems, &runs);
    proof {
        let offs = crate::runs::element_offsets(region.start@, region.shape@, shape@);
        assert forall|k: int| 0 <= k < n implies #[trigger] out@[k] == region_elems(
            elems@,
            shape@,
            region.start@,
            region.shape@,
        )[k] by {
            lemma_region_index_in_bounds(shape@, region.start@, region.shape@, k as nat);
            lemma_ravel_bound(region_index(region.start@, region.shape@, k as nat), shape@);
            assert(offs[k] as int == ravel(region_index(region.start@, region.shape@, k as nat), shape@));
        }
        assert(out@ =~= region_elems(elems@, shape@, region.start@, region.shape@));
    }
    out
}

/// `start + local`, an index of an array of `shape` where `local` lies in a
/// region that starts at `start` and fits in the array.
pub fn offset_index(start: &Vec<u64>, local: &Vec<u64>, shape: &Vec<u64>) -> (r: Vec<u64>)
    requires
        start@.len() == local@.len() == shape@.len(),
        forall|i: int| 0 <= i < shape@.len() ==> start@[i] + local@[i] < shape@[i],
    ensures
        r@ == Seq::new(shape@.len(), |i: int| (start@[i] + local@[i]) as u64),
        in_bounds(r@, shape@),
{
    let mut out: Vec<u64> = Vec::new();
    let mut i: usize = 0;
    while i < shape.len()
        invariant
            start@.len() == local@.len() == shape@.len(),
            forall|j: int| 0 <= j < shape@.len() ==> start@[j] + local@[j] < shape@[j],
            i <= shape@.len(),
            out@ =~= Seq::new(i as nat, |j: int| (start@[j] + local@[j]) as u64),
        decreases shape@.len() - i,
    {
        out.push(start[i] + local[i]);
        i = i + 1;
    }
    out
}

/// The `k`-th index of a region that fits in an array lies in that array.
pub proof fn lemma_region_index_in_bounds(shape: Seq<u64>, start: Seq<u64>, rshape: Seq<u64>, k: nat)
    requires
        all_positive(rshape),
        start.len() == rshape.len(),
        rshape.len() == shape.len(),
        forall|i: int| 0 <= i < shape.len() ==> start[i] + rshape[i] <= shape[i],
    ensures
        in_bounds(region_index(start, rshape, k), shape),
{
    lemma_unravel_in_bounds(k, rshape);
}

} // verus!
