//! Splitting a concurrency budget between chunks and each chunk's codec pipeline.
use vstd::prelude::*;

verus! {

/// An inclusive range `[min, max]` of useful thread counts for one codec pipeline.
#[derive(Clone, Copy, Debug, PartialEq, Eq, Structural)]
pub struct RecommendedConcurrency {
    pub min: usize,
    pub max: usize,
}

impl RecommendedConcurrency {
    pub open spec fn wf(self) -> bool {
        1 <= self.min <= self.max
    }

    /// The range `[min, max]`; `None` unless `1 <= min <= max`.
    pub fn new(min: usize, max: usize) -> (r: Option<RecommendedConcurrency>)
        ensures
            r.is_some() <==> 1 <= min <= max,
            r.is_some() ==> r.unwrap() == (RecommendedConcurrency { min, max }),
    {
        if 1 <= min && min <= max {
            Some(RecommendedConcurrency { min, max })
        } else {
            None
        }
    }
}

pub open spec fn clamp_spec(v: int, lo: int, hi: int) -> int {
    if v < lo {
        lo
    } else if v > hi {
        hi
    } else {
        v
    }
}

/// The number of chunks processed at once: an explicit override clamped to
/// `[1, num_chunks]`, else as many as the budget allows up to `num_chunks`.
pub open spec fn chunks_in_parallel_spec(
    outer_target: int,
    num_chunks: int,
    concurrent_chunks: Option<usize>,
) -> int {
    match concurrent_chunks {
        Some(c) => clamp_spec(c as int, 1, num_chunks),
        None => clamp_spec(outer_target, 1, num_chunks),
    }
}

/// The threads granted to each chunk's codec pipeline: the budget left per chunk,
/// capped by the codec's maximum, and at least one.
pub open spec fn threads_per_codec_spec(outer_target: int, chunks: int, codec_max: int) -> int {
    let remaining = outer_target / chunks;
    if remaining < 1 {
        1
    } else if remaining > codec_max {
        codec_max
    } else {
        remaining
    }
}

pub open spec fn plan_spec(
    outer_target: int,
    num_chunks: int,
    codec: RecommendedConcurrency,
    concurrent_chunks: Option<usize>,
) -> (int, int) {
    let chunks = chunks_in_parallel_spec(outer_target, num_chunks, concurrent_chunks);
    (chunks, threads_per_codec_spec(outer_target, chunks, codec.max as int))
}

/// Splits `outer_target` threads into `(chunks_in_parallel, threads_per_codec)`
/// for `num_chunks` chunks whose codec can use `codec` threads; an explicit
/// `concurrent_chunks` takes priority over the budget.
pub fn calculate_chunk_and_codec_concurrency(
    outer_target: usize,
    concurrent_chunks: Option<usize>,
    codec: RecommendedConcurrency,
    num_chunks: usize,
) -> (r: (usize, usize))
    requires
        outer_target >= 1,
        num_chunks >= 1,
        codec.wf(),
    ensures
        (r.0 as int, r.1 as int) == plan_spec(
            outer_target as int,
            num_chunks as int,
            codec,
            concurrent_chunks,
        ),
{
    let chunks: usize = match concurrent_chunks {
        Some(c) => if c < 1 {
            1
        } else if c > num_chunks {
            num_chunks
        } else {
            c
        },
        None => if outer_target > num_chunks {
            num_chunks
        } else {
            outer_target
        },
    };
    let remaining: usize = outer_target / chunks;
    let threads: usize = if remaining < 1 {
        1
    } else if remaining > codec.max {
        codec.max
    } else {
        remaining
    };
    (chunks, threads)
}

/// The planner's bounds: at least one chunk and at most `num_chunks` run at once;
/// each codec pipeline gets between one thread and the codec's maximum; the
/// product of the two stays within `outer_target` unless an override forces more
/// chunks than the budget, in which case each codec gets a single thread; and the
/// codec's minimum is met whenever the budget left per chunk reaches it.
pub proof fn lemma_plan_bounds(
    outer_target: int,
    num_chunks: int,
    codec: RecommendedConcurrency,
    concurrent_chunks: Option<usize>,
)
    requires
        outer_target >= 1,
        num_chunks >= 1,
        codec.wf(),
    ensures
        ({
            let (chunks, threads) = plan_spec(outer_target, num_chunks, codec, concurrent_chunks);
            &&& 1 <= chunks <= num_chunks
            &&& 1 <= threads <= codec.max
            &&& chunks <= outer_target ==> chunks * threads <= outer_target
            &&& chunks > outer_target ==> threads == 1
            &&& concurrent_chunks.is_none() ==> chunks * threads <= outer_target
            &&& outer_target / chunks >= codec.min ==> codec.min <= threads
            &&& concurrent_chunks.is_none() && outer_target < num_chunks ==> chunks == outer_target
                && threads == 1
        }),
{
    let (chunks, threads) = plan_spec(outer_target, num_chunks, codec, concurrent_chunks);
    let remaining = outer_target / chunks;
    assert(chunks * remaining <= outer_target) by (nonlinear_arith)
        requires
            chunks >= 1,
            outer_target >= 0,
            remaining == outer_target / chunks,
    ;
    if chunks <= outer_target {
        assert(remaining >= 1) by (nonlinear_arith)
            requires
                chunks >= 1,
                chunks <= outer_target,
                remaining == outer_target / chunks,
        ;
        assert(chunks * threads <= chunks * remaining) by (nonlinear_arith)
            requires
                chunks >= 1,
                threads <= remaining,
        ;
    } else {
        assert(remaining == 0) by (nonlinear_arith)
            requires
                chunks > outer_target,
                outer_target >= 0,
                remaining == outer_target / chunks,
        ;
    }
    if concurrent_chunks.is_none() && outer_target < num_chunks {
        assert(outer_target / outer_target == 1) by (nonlinear_arith)
            requires
                outer_target >= 1,
        ;
    }
}

} // verus!
