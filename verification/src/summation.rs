//! Finite sums of an integer-valued function over an interval, with the
//! rearrangement lemmas that the tour-length proofs rest on.

use vstd::prelude::*;

verus! {

/// The sum of `f(k)` for `lo <= k < hi`; zero when the interval is empty.
pub open spec fn sum_over(f: spec_fn(int) -> int, lo: int, hi: int) -> int
    decreases hi - lo,
{
    if hi <= lo {
        0
    } else {
        sum_over(f, lo, hi - 1) + f(hi - 1)
    }
}

/// A sum over `[lo, hi)` is the sum over `[lo, mid)` plus the sum over `[mid, hi)`.
pub proof fn lemma_sum_split(f: spec_fn(int) -> int, lo: int, mid: int, hi: int)
    requires
        lo <= mid <= hi,
    ensures
        sum_over(f, lo, hi) == sum_over(f, lo, mid) + sum_over(f, mid, hi),
    decreases hi - mid,
{
    if mid < hi {
        lemma_sum_split(f, lo, mid, hi - 1);
    }
}

/// Taking the first term out of a non-empty sum.
pub proof fn lemma_sum_first(f: spec_fn(int) -> int, lo: int, hi: int)
    requires
        lo < hi,
    ensures
        sum_over(f, lo, hi) == f(lo) + sum_over(f, lo + 1, hi),
{
    lemma_sum_split(f, lo, lo + 1, hi);
    assert(sum_over(f, lo, lo + 1) == sum_over(f, lo, lo) + f(lo));
}

/// Two functions that agree on `[lo, hi)` have the same sum there.
pub proof fn lemma_sum_agree(f: spec_fn(int) -> int, g: spec_fn(int) -> int, lo: int, hi: int)
    requires
        forall|k: int| lo <= k < hi ==> #[trigger] f(k) == g(k),
    ensures
        sum_over(f, lo, hi) == sum_over(g, lo, hi),
    decreases hi - lo,
{
    if lo < hi {
        lemma_sum_agree(f, g, lo, hi - 1);
    }
}

/// If `g(k) == f(k + d)` on `[lo, hi)`, the sum of `g` there is the sum of
/// `f` over the interval moved by `d`.
pub proof fn lemma_sum_shift(
    f: spec_fn(int) -> int,
    g: spec_fn(int) -> int,
    lo: int,
    hi: int,
    d: int,
)
    requires
        forall|k: int| lo <= k < hi ==> #[trigger] g(k) == f(k + d),
    ensures
        sum_over(g, lo, hi) == sum_over(f, lo + d, hi + d),
    decreases hi - lo,
{
    if lo < hi {
        lemma_sum_shift(f, g, lo, hi - 1, d);
    }
}

/// If `g` runs through the values of `f` on `[lo, hi)` in the opposite
/// order, the two sums agree.
pub proof fn lemma_sum_mirror(f: spec_fn(int) -> int, g: spec_fn(int) -> int, lo: int, hi: int)
    requires
        forall|k: int| lo <= k < hi ==> #[trigger] g(k) == f(lo + hi - 1 - k),
    ensures
        sum_over(g, lo, hi) == sum_over(f, lo, hi),
    decreases hi - lo,
{
    if lo < hi {
        // g restricted to [lo, hi - 1) mirrors f on [lo + 1, hi).
        let f_up = |k: int| f(k + 1);
        assert forall|k: int| lo <= k < hi - 1 implies #[trigger] g(k) == f_up(
            lo + (hi - 1) - 1 - k,
        ) by {}
        lemma_sum_mirror(f_up, g, lo, hi - 1);
        lemma_sum_shift(f, f_up, lo, hi - 1, 1);
        lemma_sum_first(f, lo, hi);
    }
}

/// A sum of terms that each lie in `[low, high]` lies in
/// `[(hi - lo) * low, (hi - lo) * high]`.
pub proof fn lemma_sum_bounds(f: spec_fn(int) -> int, lo: int, hi: int, low: int, high: int)
    requires
        lo <= hi,
        forall|k: int| lo <= k < hi ==> low <= #[trigger] f(k) <= high,
    ensures
        (hi - lo) * low <= sum_over(f, lo, hi) <= (hi - lo) * high,
    decreases hi - lo,
{
    if lo < hi {
        lemma_sum_bounds(f, lo, hi - 1, low, high);
        assert((hi - lo) * low == (hi - 1 - lo) * low + low) by (nonlinear_arith);
        assert((hi - lo) * high == (hi - 1 - lo) * high + high) by (nonlinear_arith);
    } else {
        assert((hi - lo) * low == 0) by (nonlinear_arith)
            requires
                hi - lo == 0,
        ;
        assert((hi - lo) * high == 0) by (nonlinear_arith)
            requires
                hi - lo == 0,
        ;
    }
}

/// With non-negative terms, a sum over a shorter interval with the same
/// start is no greater.
pub proof fn lemma_sum_prefix_le(f: spec_fn(int) -> int, lo: int, mid: int, hi: int)
    requires
        lo <= mid <= hi,
        forall|k: int| lo <= k < hi ==> 0 <= #[trigger] f(k),
    ensures
        0 <= sum_over(f, lo, mid) <= sum_over(f, lo, hi),
    decreases hi - mid,
{
    if mid < hi {
        lemma_sum_prefix_le(f, lo, mid, hi - 1);
    } else {
        lemma_sum_nonneg(f, lo, hi);
    }
}

/// A sum of non-negative terms is non-negative.
pub proof fn lemma_sum_nonneg(f: spec_fn(int) -> int, lo: int, hi: int)
    requires
        forall|k: int| lo <= k < hi ==> 0 <= #[trigger] f(k),
    ensures
        0 <= sum_over(f, lo, hi),
    decreases hi - lo,
{
    if lo < hi {
        lemma_sum_nonneg(f, lo, hi - 1);
    }
}

} // verus!
