//! Contiguous runs of linear offsets: the elements of a subset, embedded in a
//! bounding array, grouped into maximal stretches of consecutive offsets so
//! that they can be copied a run at a time.
use vstd::prelude::*;
use crate::index::{
    all_positive, in_bounds, num_elements, ravel, unravel, ravel_index, unravel_index,
    lemma_ravel_bound, lemma_ravel_unravel, lemma_unravel_in_bounds,
};
use crate::region::{region_index, offset_index, lemma_num_elements_le, lemma_num_elements_zero};
use crate::subset::ArraySubset;

verus! {

/// The linear offsets, in an array of `bshape`, of the elements of the region
/// `start .. start + shape`, in row-major order.
pub open spec fn element_offsets(start: Seq<u64>, shape: Seq<u64>, bshape: Seq<u64>) -> Seq<u64> {
    Seq::new(
        num_elements(shape),
        |k: int| ravel(region_index(start, shape, k as nat), bshape) as u64,
    )
}

/// The maximal runs `(offset, length)` of consecutive values in `p`, in order.
pub open spec fn runs_spec(p: Seq<u64>) -> Seq<(u64, u64)>
    decreases p.len(),
{
    if p.len() == 0 {
        Seq::empty()
    } else {
        let r = runs_spec(p.drop_last());
        let x = p.last();
        if r.len() > 0 && r.last().0 + r.last().1 == x {
            r.update(r.len() - 1, (r.last().0, (r.last().1 + 1) as u64))
        } else {
            r.push((x, 1u64))
        }
    }
}

/// The values `o, o + 1, ..., o + len - 1`.
pub open spec fn run_values(o: u64, len: u64) -> Seq<u64> {
    Seq::new(len as nat, |i: int| (o + i) as u64)
}

/// The values covered by a sequence of runs, in order.
pub open spec fn expand(runs: Seq<(u64, u64)>) -> Seq<u64>
    decreases runs.len(),
{
    if runs.len() == 0 {
        Seq::empty()
    } else {
        expand(runs.drop_last()) + run_values(runs.last().0, runs.last().1)
    }
}

/// Each run is non-empty and ends within `bound`.
pub open spec fn runs_bounded(runs: Seq<(u64, u64)>, bound: nat) -> bool {
    forall|q: int|
        0 <= q < runs.len() ==> #[trigger] runs[q].1 >= 1 && runs[q].0 + runs[q].1 <= bound
}

/// The runs of values below `bound` stay below it, and expand to the values.
pub proof fn lemma_runs_expand(p: Seq<u64>, bound: nat)
    requires
        bound <= u64::MAX,
        forall|k: int| 0 <= k < p.len() ==> #[trigger] p[k] < bound,
    ensures
        runs_bounded(runs_spec(p), bound),
        expand(runs_spec(p)) == p,
    decreases p.len(),
{
    if p.len() > 0 {
        let q = p.drop_last();
        lemma_runs_expand(q, bound);
        let r = runs_spec(q);
        let x = p.last();
        if r.len() > 0 && r.last().0 + r.last().1 == x {
            assert(r[r.len() - 1].1 >= 1);
            assert(r.last().1 + 1 <= u64::MAX);
            let r2 = r.update(r.len() - 1, (r.last().0, (r.last().1 + 1) as u64));
            assert(r2.drop_last() =~= r.drop_last());
            assert(run_values(r.last().0, (r.last().1 + 1) as u64) =~= run_values(
                r.last().0,
                r.last().1,
            ).push(x));
            assert(expand(r) == expand(r.drop_last()) + run_values(r.last().0, r.last().1));
            assert(expand(r2) =~= expand(r).push(x));
            assert(p =~= q.push(x));
        } else {
            let r2 = r.push((x, 1u64));
            assert(r2.drop_last() =~= r);
            assert(run_values(x, 1) =~= seq![x]);
            assert(p =~= q.push(x));
        }
    }
}

/// Consecutive offsets `0, 1, ..., n - 1` form a single run.
pub proof fn lemma_consecutive_one_run(n: nat)
    requires
        1 <= n <= u64::MAX,
    ensures
        runs_spec(Seq::new(n, |k: int| k as u64)) == seq![(0u64, n as u64)],
    decreases n,
{
    let p = Seq::new(n, |k: int| k as u64);
    if n == 1 {
        assert(p.drop_last() =~= Seq::<u64>::empty());
        assert(runs_spec(p.drop_last()) == Seq::<(u64, u64)>::empty());
        assert(p.last() == 0u64);
        assert(runs_spec(p) =~= seq![(0u64, 1u64)]);
    } else {
        lemma_consecutive_one_run((n - 1) as nat);
        assert(p.drop_last() =~= Seq::new((n - 1) as nat, |k: int| k as u64));
        assert(runs_spec(p) =~= seq![(0u64, n as u64)]);
    }
}

impl ArraySubset {
    /// The elements of the subset, embedded in an array of `bounding_shape`,
    /// as maximal runs `(linear offset, length)` of consecutive offsets in
    /// row-major order. An empty subset gives no run; a subset covering the
    /// whole array gives one run of all its elements.
    pub fn contiguous_linearised_indices(&self, bounding_shape: &Vec<u64>) -> (r: Vec<(u64, u64)>)
        requires
            self.wf(),
            self.within_spec(bounding_shape@),
            num_elements(bounding_shape@) <= u64::MAX,
        ensures
            r@ == runs_spec(element_offsets(self.start@, self.shape@, bounding_shape@)),
            runs_bounded(r@, num_elements(bounding_shape@)),
            expand(r@) == element_offsets(self.start@, self.shape@, bounding_shape@),
    {
        let ghost offs = element_offsets(self.start@, self.shape@, bounding_shape@);
        let mut runs: Vec<(u64, u64)> = Vec::new();
        proof {
            lemma_num_elements_le(self.shape@, bounding_shape@);
        }
        let n = match self.num_elements() {
            Some(n) => n,
            None => {
                proof {
                    assert(false);
                }
                return runs;
            },
        };
        if n == 0 {
            proof {
                assert(offs =~= Seq::<u64>::empty());
                lemma_runs_expand(offs, num_elements(bounding_shape@));
            }
            return runs;
        }
        proof {
            if !all_positive(self.shape@) {
                lemma_num_elements_zero(self.shape@);
            }
            assert(all_positive(bounding_shape@)) by {
                assert forall|i: int| 0 <= i < bounding_shape@.len() implies bounding_shape@[i] > 0 by {
                    assert(self.shape@[i] > 0);
                    assert(self.end_spec(i) <= bounding_shape@[i]);
                }
            }
            assert forall|k: int| 0 <= k < offs.len() implies #[trigger] offs[k] < num_elements(
                bounding_shape@,
            ) by {
                crate::region::lemma_region_index_in_bounds(
                    bounding_shape@,
                    self.start@,
                    self.shape@,
                    k as nat,
                );
                lemma_ravel_bound(region_index(self.start@, self.shape@, k as nat), bounding_shape@);
            }
            lemma_runs_expand(offs, num_elements(bounding_shape@));
        }
        let mut k: u64 = 0;
        while k < n
            invariant
                self.wf(),
                self.within_spec(bounding_shape@),
                all_positive(self.shape@),
                all_positive(bounding_shape@),
                num_elements(bounding_shape@) <= u64::MAX,
                n == num_elements(self.shape@),
                offs == element_offsets(self.start@, self.shape@, bounding_shape@),
                forall|t: int| 0 <= t < offs.len() ==> #[trigger] offs[t] < num_elements(bounding_shape@),
                k <= n,
                runs@ == runs_spec(offs.take(k as int)),
                runs_bounded(runs@, num_elements(bounding_shape@)),
            decreases n - k,
        {
            let local = unravel_index(k, &self.shape);
            let coord = offset_index(&self.start, &local, bounding_shape);
            proof {
                assert(coord@ =~= region_index(self.start@, self.shape@, k as nat));
                lemma_ravel_bound(coord@, bounding_shape@);
                assert(offs.take(k as int + 1).drop_last() =~= offs.take(k as int));
                lemma_runs_expand(offs.take(k as int + 1), num_elements(bounding_shape@));
            }
            let p = ravel_index(&coord, bounding_shape);
            let len = runs.len();
            let mut extend = false;
            if len > 0 {
                let (o, l) = runs[len - 1];
                if o + l == p {
                    extend = true;
                    runs.set(len - 1, (o, l + 1));
                }
            }
            if !extend {
                runs.push((p, 1));
            }
            k = k + 1;
        }
        proof {
            assert(offs.take(n as int) =~= offs);
        }
        runs
    }
}

/// A subset that covers its whole bounding array is a single run of all its
/// elements.
pub proof fn lemma_full_subset_single_run(shape: Seq<u64>)
    requires
        all_positive(shape),
        1 <= num_elements(shape) <= u64::MAX,
    ensures
        runs_spec(element_offsets(Seq::new(shape.len(), |i: int| 0u64), shape, shape)) == seq![
            (0u64, num_elements(shape) as u64),
        ],
{
    let start = Seq::new(shape.len(), |i: int| 0u64);
    let offs = element_offsets(start, shape, shape);
    assert forall|k: int| 0 <= k < offs.len() implies #[trigger] offs[k] == k as u64 by {
        assert(region_index(start, shape, k as nat) =~= unravel(k as nat, shape));
        lemma_ravel_unravel(k as nat, shape);
    }
    assert(offs =~= Seq::new(num_elements(shape), |k: int| k as u64));
    lemma_consecutive_one_run(num_elements(shape));
}

/// The elements of `src` at the offsets `p`, in order.
pub open spec fn gathered(src: Seq<u64>, p: Seq<u64>) -> Seq<u64> {
    Seq::new(p.len(), |k: int| src[p[k] as int])
}

/// Copies the elements of `src` covered by `runs`, a whole run at a time.
pub fn gather_runs(src: &Vec<u64>, runs: &Vec<(u64, u64)>) -> (r: Vec<u64>)
    requires
        runs_bounded(runs@, src@.len()),
    ensures
        r@ == gathered(src@, expand(runs@)),
{
    let mut out: Vec<u64> = Vec::new();
    let mut q: usize = 0;
    while q < runs.len()
        invariant
            runs_bounded(runs@, src@.len()),
            q <= runs@.len(),
            out@ =~= gathered(src@, expand(runs@.take(q as int))),
        decreases runs@.len() - q,
    {
        let (o, l) = runs[q];
        proof {
            assert(runs@[q as int].1 >= 1);
            assert(runs@.take(q as int + 1).drop_last() =~= runs@.take(q as int));
        }
        let ghost before = out@;
        let slen = src.len();
        let mut t: u64 = 0;
        while t < l
            invariant
                runs_bounded(runs@, src@.len()),
                q < runs@.len(),
                (o, l) == runs@[q as int],
                o + l <= src@.len(),
                slen == src@.len(),
                t <= l,
                before =~= gathered(src@, expand(runs@.take(q as int))),
                out@ =~= before + gathered(src@, run_values(o, t)),
            decreases l - t,
        {
            assert(o + t < slen);
            out.push(src[(o + t) as usize]);
            t = t + 1;
        }
        proof {
            assert(expand(runs@.take(q as int + 1)) =~= expand(runs@.take(q as int)) + run_values(o, l));
        }
        q = q + 1;
    }
    proof {
        assert(runs@.take(q as int) =~= runs@);
    }
    out
}

} // verus!
