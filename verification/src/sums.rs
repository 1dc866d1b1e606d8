//! Finite sums of an integer function over an interval, and their algebra.

use vstd::prelude::*;

verus! {

/// The sum of `f(i)` for `lo <= i < hi`; zero where the interval is empty.
pub open spec fn sum_range(f: spec_fn(int) -> int, lo: int, hi: int) -> int
    decreases hi - lo,
{
    if hi <= lo {
        0
    } else {
        sum_range(f, lo, hi - 1) + f(hi - 1)
    }
}

/// A sum splits at any point of its interval.
pub proof fn lemma_sum_split(f: spec_fn(int) -> int, lo: int, mid: int, hi: int)
    requires
        lo <= mid <= hi,
    ensures
        sum_range(f, lo, hi) == sum_range(f, lo, mid) + sum_range(f, mid, hi),
    decreases hi - mid,
{
    if mid < hi {
        lemma_sum_split(f, lo, mid, hi - 1);
    }
}

/// A sum of zeros is zero.
pub proof fn lemma_sum_zero(f: spec_fn(int) -> int, lo: int, hi: int)
    requires
        forall|i: int| lo <= i < hi ==> #[trigger] f(i) == 0,
    ensures
        sum_range(f, lo, hi) == 0,
    decreases hi - lo,
{
    if lo < hi {
        lemma_sum_zero(f, lo, hi - 1);
    }
}

/// Terms that vanish outside `from..to` may be left out of the sum.
pub proof fn lemma_sum_clip(f: spec_fn(int) -> int, lo: int, hi: int, from: int, to: int)
    requires
        lo <= from <= to <= hi,
        forall|i: int| lo <= i < from ==> #[trigger] f(i) == 0,
        forall|i: int| to <= i < hi ==> #[trigger] f(i) == 0,
    ensures
        sum_range(f, lo, hi) == sum_range(f, from, to),
{
    lemma_sum_split(f, lo, from, hi);
    lemma_sum_split(f, from, to, hi);
    lemma_sum_zero(f, lo, from);
    lemma_sum_zero(f, to, hi);
}

/// A sum of terms between zero and `bound` lies between zero and `bound`
/// times the number of terms.
pub proof fn lemma_sum_bounds(f: spec_fn(int) -> int, lo: int, hi: int, bound: int)
    requires
        lo <= hi,
        forall|i: int| lo <= i < hi ==> 0 <= #[trigger] f(i) <= bound,
    ensures
        0 <= sum_range(f, lo, hi) <= (hi - lo) * bound,
    decreases hi - lo,
{
    if lo < hi {
        lemma_sum_bounds(f, lo, hi - 1, bound);
        assert((hi - lo) * bound == (hi - 1 - lo) * bound + bound) by (nonlinear_arith);
    } else {
        assert((hi - lo) * bound == 0) by (nonlinear_arith)
            requires
                hi - lo == 0,
        ;
    }
}

/// A common factor may be taken out of a sum.
pub proof fn lemma_sum_factor(
    f: spec_fn(int) -> int,
    g: spec_fn(int) -> int,
    factor: int,
    lo: int,
    hi: int,
)
    requires
        forall|i: int| lo <= i < hi ==> #[trigger] g(i) == factor * #[trigger] f(i),
    ensures
        sum_range(g, lo, hi) == factor * sum_range(f, lo, hi),
    decreases hi - lo,
{
    if lo < hi {
        lemma_sum_factor(f, g, factor, lo, hi - 1);
        assert(factor * (sum_range(f, lo, hi - 1) + f(hi - 1)) == factor * sum_range(
            f,
            lo,
            hi - 1,
        ) + factor * f(hi - 1)) by (nonlinear_arith);
    } else {
        assert(factor * 0 == 0) by (nonlinear_arith);
    }
}

} // verus!
