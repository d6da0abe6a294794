//! Row-major (last dimension fastest) linearisation of N-dimensional indices.
use vstd::prelude::*;
use vstd::arithmetic::div_mod::{
    lemma_fundamental_div_mod, lemma_fundamental_div_mod_converse, lemma_mod_breakdown,
    lemma_small_mod,
};
use vstd::arithmetic::mul::{lemma_mul_inequality, lemma_mul_strictly_positive};

verus! {

/// Every extent of `shape` is at least one.
pub open spec fn all_positive(shape: Seq<u64>) -> bool {
    forall|i: int| 0 <= i < shape.len() ==> shape[i] > 0
}

/// The number of elements spanned by dimensions `i..` of `shape`.
pub open spec fn suffix_product(shape: Seq<u64>, i: int) -> nat
    decreases shape.len() - i,
{
    if i < 0 || i >= shape.len() {
        1
    } else {
        suffix_product(shape, i + 1) * shape[i] as nat
    }
}

/// The number of elements of an array of `shape`.
pub open spec fn num_elements(shape: Seq<u64>) -> nat {
    if shape.len() == 0 {
        1
    } else {
        suffix_product(shape, 0)
    }
}

/// `idx` addresses an element of an array of `shape`.
pub open spec fn in_bounds(idx: Seq<u64>, shape: Seq<u64>) -> bool {
    &&& idx.len() == shape.len()
    &&& forall|i: int| 0 <= i < shape.len() ==> idx[i] < shape[i]
}

/// The contribution of dimensions `i..` of `idx` to its row-major offset.
pub open spec fn ravel_from(idx: Seq<u64>, shape: Seq<u64>, i: int) -> nat
    decreases shape.len() - i,
{
    if i < 0 || i >= shape.len() {
        0
    } else {
        idx[i] as nat * suffix_product(shape, i + 1) + ravel_from(idx, shape, i + 1)
    }
}

/// The row-major offset of `idx` in an array of `shape`.
pub open spec fn ravel(idx: Seq<u64>, shape: Seq<u64>) -> nat {
    ravel_from(idx, shape, 0)
}

/// The index whose row-major offset in an array of `shape` is `k`.
pub open spec fn unravel(k: nat, shape: Seq<u64>) -> Seq<u64> {
    Seq::new(shape.len(), |i: int| ((k / suffix_product(shape, i + 1)) % (shape[i] as nat)) as u64)
}

pub proof fn lemma_suffix_product_positive(shape: Seq<u64>, i: int)
    requires
        all_positive(shape),
    ensures
        suffix_product(shape, i) >= 1,
    decreases shape.len() - i,
{
    if 0 <= i < shape.len() {
        lemma_suffix_product_positive(shape, i + 1);
        lemma_mul_strictly_positive(suffix_product(shape, i + 1) as int, shape[i] as int);
    }
}

/// The suffix products shrink as dimensions are dropped.
pub proof fn lemma_suffix_product_monotone(shape: Seq<u64>, i: int, j: int)
    requires
        all_positive(shape),
        0 <= i <= j,
    ensures
        suffix_product(shape, j) <= suffix_product(shape, i),
    decreases j - i,
{
    if i < j && i < shape.len() {
        lemma_suffix_product_monotone(shape, i + 1, j);
        lemma_suffix_product_positive(shape, i + 1);
        let s = suffix_product(shape, i + 1) as int;
        assert(s <= s * shape[i]) by (nonlinear_arith)
            requires
                shape[i] >= 1,
                s >= 0,
        ;
    }
}

pub proof fn lemma_ravel_from_bound(idx: Seq<u64>, shape: Seq<u64>, i: int)
    requires
        in_bounds(idx, shape),
        0 <= i,
    ensures
        ravel_from(idx, shape, i) < suffix_product(shape, i),
    decreases shape.len() - i,
{
    if i < shape.len() {
        lemma_ravel_from_bound(idx, shape, i + 1);
        let s = suffix_product(shape, i + 1) as int;
        let r = ravel_from(idx, shape, i + 1) as int;
        assert(idx[i] * s + r < s * shape[i]) by (nonlinear_arith)
            requires
                idx[i] + 1 <= shape[i],
                0 <= r < s,
        ;
    }
}

/// An in-bounds index has an offset below the element count.
pub proof fn lemma_ravel_bound(idx: Seq<u64>, shape: Seq<u64>)
    requires
        in_bounds(idx, shape),
    ensures
        ravel(idx, shape) < num_elements(shape),
{
    lemma_ravel_from_bound(idx, shape, 0);
}

pub proof fn lemma_unravel_in_bounds(k: nat, shape: Seq<u64>)
    requires
        all_positive(shape),
    ensures
        in_bounds(unravel(k, shape), shape),
{
    assert forall|i: int| 0 <= i < shape.len() implies unravel(k, shape)[i] < shape[i] by {
        lemma_suffix_product_positive(shape, i + 1);
        lemma_fundamental_div_mod(k as int / suffix_product(shape, i + 1) as int, shape[i] as int);
    }
}

proof fn lemma_ravel_from_unravel(k: nat, shape: Seq<u64>, i: int)
    requires
        all_positive(shape),
        0 <= i <= shape.len(),
    ensures
        ravel_from(unravel(k, shape), shape, i) == k % suffix_product(shape, i),
    decreases shape.len() - i,
{
    if i == shape.len() {
        assert(suffix_product(shape, i) == 1);
        assert(k % 1 == 0) by (nonlinear_arith);
    } else {
        lemma_ravel_from_unravel(k, shape, i + 1);
        lemma_suffix_product_positive(shape, i + 1);
        let s = suffix_product(shape, i + 1) as int;
        lemma_mod_breakdown(k as int, s, shape[i] as int);
        let c = (k as int / s) % (shape[i] as int);
        lemma_fundamental_div_mod(k as int / s, shape[i] as int);
        assert(0 <= c < shape[i]);
        assert(unravel(k, shape)[i] as int == c);
        assert(c * s == s * c) by (nonlinear_arith);
        assert(s * shape[i] == suffix_product(shape, i));
    }
}

/// Unravelling then ravelling an offset gives the offset back.
pub proof fn lemma_ravel_unravel(k: nat, shape: Seq<u64>)
    requires
        all_positive(shape),
        k < num_elements(shape),
    ensures
        ravel(unravel(k, shape), shape) == k,
{
    lemma_ravel_from_unravel(k, shape, 0);
    if shape.len() == 0 {
        assert(k == 0);
        lemma_small_mod(0, 1);
    } else {
        lemma_small_mod(k, suffix_product(shape, 0));
    }
}

proof fn lemma_ravel_from_injective(a: Seq<u64>, b: Seq<u64>, shape: Seq<u64>, i: int)
    requires
        in_bounds(a, shape),
        in_bounds(b, shape),
        0 <= i <= shape.len(),
        ravel_from(a, shape, i) == ravel_from(b, shape, i),
    ensures
        forall|j: int| i <= j < shape.len() ==> a[j] == b[j],
    decreases shape.len() - i,
{
    if i < shape.len() {
        let s = suffix_product(shape, i + 1) as int;
        lemma_ravel_from_bound(a, shape, i + 1);
        lemma_ravel_from_bound(b, shape, i + 1);
        let x = ravel_from(a, shape, i) as int;
        lemma_fundamental_div_mod_converse(x, s, a[i] as int, ravel_from(a, shape, i + 1) as int);
        lemma_fundamental_div_mod_converse(x, s, b[i] as int, ravel_from(b, shape, i + 1) as int);
        lemma_ravel_from_injective(a, b, shape, i + 1);
    }
}

/// Distinct in-bounds indices have distinct offsets.
pub proof fn lemma_ravel_injective(a: Seq<u64>, b: Seq<u64>, shape: Seq<u64>)
    requires
        in_bounds(a, shape),
        in_bounds(b, shape),
        ravel(a, shape) == ravel(b, shape),
    ensures
        a == b,
{
    lemma_ravel_from_injective(a, b, shape, 0);
    assert(a =~= b);
}

/// Ravelling then unravelling an in-bounds index gives the index back.
pub proof fn lemma_unravel_ravel(idx: Seq<u64>, shape: Seq<u64>)
    requires
        in_bounds(idx, shape),
    ensures
        unravel(ravel(idx, shape), shape) == idx,
{
    assert(all_positive(shape));
    let k = ravel(idx, shape);
    lemma_ravel_bound(idx, shape);
    lemma_unravel_in_bounds(k, shape);
    lemma_ravel_unravel(k, shape);
    lemma_ravel_injective(unravel(k, shape), idx, shape);
}

/// The element count of `shape`, or `None` where it exceeds `u64::MAX`.
pub fn checked_num_elements(shape: &Vec<u64>) -> (r: Option<u64>)
    ensures
        r.is_some() <==> num_elements(shape@) <= u64::MAX,
        r.is_some() ==> r.unwrap() == num_elements(shape@),
{
    let mut acc: u64 = 1;
    let mut i: usize = shape.len();
    let mut overflow = false;
    while i > 0
        invariant
            i <= shape.len(),
            !overflow ==> acc as nat == suffix_product(shape@, i as int),
            overflow ==> suffix_product(shape@, i as int) > u64::MAX,
        decreases i,
    {
        i = i - 1;
        if !overflow {
            match acc.checked_mul(shape[i]) {
                Some(p) => {
                    acc = p;
                },
                None => {
                    overflow = true;
                },
            }
        } else if shape[i] == 0 {
            // a zero extent collapses every element count to zero
            acc = 0;
            overflow = false;
        } else {
            proof {
                let s = suffix_product(shape@, i as int + 1);
                assert(s * shape@[i as int] as nat >= s) by (nonlinear_arith)
                    requires
                        shape@[i as int] >= 1,
                ;
            }
        }
    }
    if shape.len() == 0 {
        Some(1)
    } else if overflow {
        None
    } else {
        Some(acc)
    }
}

/// The row-major offset of an in-bounds `idx`.
pub fn ravel_index(idx: &Vec<u64>, shape: &Vec<u64>) -> (r: u64)
    requires
        in_bounds(idx@, shape@),
        num_elements(shape@) <= u64::MAX,
    ensures
        r as nat == ravel(idx@, shape@),
{
    let mut acc: u64 = 0;
    let mut stride: u64 = 1;
    let mut i: usize = shape.len();
    proof {
        assert(all_positive(shape@));
        if shape.len() > 0 {
            lemma_ravel_from_bound(idx@, shape@, 0);
        }
    }
    while i > 0
        invariant
            i <= shape.len(),
            in_bounds(idx@, shape@),
            num_elements(shape@) <= u64::MAX,
            i > 0 ==> stride as nat == suffix_product(shape@, i as int),
            acc as nat == ravel_from(idx@, shape@, i as int),
        decreases i,
    {
        proof {
            lemma_ravel_from_bound(idx@, shape@, i as int - 1);
            lemma_suffix_product_monotone(shape@, 0, i as int - 1);
            lemma_ravel_from_bound(idx@, shape@, i as int);
            assert(idx@[i - 1] as nat * stride as nat <= suffix_product(shape@, i as int - 1)) by {
                lemma_mul_inequality(idx@[i - 1] as int, shape@[i - 1] as int, stride as int);
            }
        }
        i = i - 1;
        let term: u64 = idx[i] * stride;
        acc = term + acc;
        if i > 0 {
            stride = stride * shape[i];
        }
    }
    acc
}

/// The index whose row-major offset is `k`, for `k` below the element count.
pub fn unravel_index(k: u64, shape: &Vec<u64>) -> (r: Vec<u64>)
    requires
        all_positive(shape@),
        k < num_elements(shape@),
        num_elements(shape@) <= u64::MAX,
    ensures
        r@ == unravel(k as nat, shape@),
        in_bounds(r@, shape@),
{
    let mut out: Vec<u64> = Vec::new();
    let mut j: usize = 0;
    while j < shape.len()
        invariant
            j <= shape.len(),
            out@.len() == j,
        decreases shape.len() - j,
    {
        out.push(0);
        j = j + 1;
    }
    let mut stride: u64 = 1;
    let mut i: usize = shape.len();
    while i > 0
        invariant
            i <= shape.len(),
            all_positive(shape@),
            num_elements(shape@) <= u64::MAX,
            i > 0 ==> stride as nat == suffix_product(shape@, i as int),
            out@.len() == shape.len(),
            forall|t: int| i <= t < shape.len() ==> out@[t] == unravel(k as nat, shape@)[t],
        decreases i,
    {
        i = i - 1;
        proof {
            lemma_suffix_product_positive(shape@, i as int + 1);
        }
        out.set(i, (k / stride) % shape[i]);
        if i > 0 {
            proof {
                lemma_suffix_product_monotone(shape@, 0, i as int);
            }
            stride = stride * shape[i];
        }
    }
    proof {
        assert(out@ =~= unravel(k as nat, shape@));
        lemma_unravel_in_bounds(k as nat, shape@);
    }
    out
}

/// A copy of `v`.
pub fn copy_u64s(v: &Vec<u64>) -> (r: Vec<u64>)
    ensures
        r@ == v@,
{
    let mut out: Vec<u64> = Vec::new();
    let mut i: usize = 0;
    while i < v.len()
        invariant
            i <= v@.len(),
            out@ =~= v@.take(i as int),
        decreases v@.len() - i,
    {
        out.push(v[i]);
        i = i + 1;
    }
    proof {
        assert(v@.take(i as int) =~= v@);
    }
    out
}

} // verus!
