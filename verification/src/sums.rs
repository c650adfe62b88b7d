//! Finite sums over index ranges, and the bound lemmas the kernels need to
//! show their accumulators stay in range.

use vstd::prelude::*;

verus! {

/// `f(0) + f(1) + ... + f(n - 1)`.
pub open spec fn sum(n: nat, f: spec_fn(int) -> int) -> int
    decreases n,
{
    if n == 0 {
        0
    } else {
        sum((n - 1) as nat, f) + f(n - 1)
    }
}

/// Magnitude of an integer.
pub open spec fn iabs(v: int) -> int {
    if v < 0 {
        -v
    } else {
        v
    }
}

/// `|a * b| <= A * B` when the factors are bounded by `A` and `B`.
pub proof fn lemma_abs_mul_le(a: int, b: int, bound_a: int, bound_b: int)
    by (nonlinear_arith)
    requires
        iabs(a) <= bound_a,
        iabs(b) <= bound_b,
    ensures
        iabs(a * b) <= bound_a * bound_b,
{
}

/// Two sums over the same range agree when the summands agree pointwise.
pub proof fn lemma_sum_eq(n: nat, f: spec_fn(int) -> int, g: spec_fn(int) -> int)
    requires
        forall|i: int| 0 <= i < n ==> #[trigger] f(i) == g(i),
    ensures
        sum(n, f) == sum(n, g),
    decreases n,
{
    if n > 0 {
        lemma_sum_eq((n - 1) as nat, f, g);
    }
}

/// A sum of `n` terms each of magnitude at most `b` has magnitude at most `n * b`.
pub proof fn lemma_sum_bound(n: nat, f: spec_fn(int) -> int, b: int)
    requires
        forall|i: int| 0 <= i < n ==> iabs(#[trigger] f(i)) <= b,
    ensures
        iabs(sum(n, f)) <= n * b,
    decreases n,
{
    if n == 0 {
        assert(sum(n, f) == 0);
        assert(n * b == 0) by (nonlinear_arith)
            requires
                n == 0,
        ;
    } else {
        lemma_sum_bound((n - 1) as nat, f, b);
        assert(iabs(f(n - 1)) <= b);
        assert(n * b == (n - 1) * b + b) by (nonlinear_arith);
        assert(iabs(sum(n, f)) <= (n - 1) * b + b);
    }
}

/// A sum of nonnegative terms is nonnegative.
pub proof fn lemma_sum_nonneg(n: nat, f: spec_fn(int) -> int)
    requires
        forall|i: int| 0 <= i < n ==> #[trigger] f(i) >= 0,
    ensures
        sum(n, f) >= 0,
    decreases n,
{
    if n > 0 {
        lemma_sum_nonneg((n - 1) as nat, f);
    }
}

/// A sum of zero terms is zero.
pub proof fn lemma_sum_zero(n: nat, f: spec_fn(int) -> int)
    requires
        forall|i: int| 0 <= i < n ==> #[trigger] f(i) == 0,
    ensures
        sum(n, f) == 0,
    decreases n,
{
    if n > 0 {
        lemma_sum_zero((n - 1) as nat, f);
    }
}

/// A sum whose terms vanish everywhere except possibly at `t0` equals the
/// term at `t0`.
pub proof fn lemma_sum_single(n: nat, f: spec_fn(int) -> int, t0: int)
    requires
        0 <= t0 < n,
        forall|i: int| 0 <= i < n && i != t0 ==> #[trigger] f(i) == 0,
    ensures
        sum(n, f) == f(t0),
    decreases n,
{
    if n - 1 == t0 {
        lemma_sum_zero((n - 1) as nat, f);
    } else {
        lemma_sum_single((n - 1) as nat, f, t0);
    }
}

/// A sum over `[0, a + b)` splits at `a`: the tail is a sum of shifted terms.
pub proof fn lemma_sum_split(a: nat, b: nat, f: spec_fn(int) -> int)
    ensures
        sum((a + b) as nat, f) == sum(a, f) + sum(b, |i: int| f(i + a)),
    decreases b,
{
    let shifted = |i: int| f(i + a);
    if b == 0 {
        assert(sum(0, shifted) == 0);
    } else {
        lemma_sum_split(a, (b - 1) as nat, f);
        assert(shifted(b - 1) == f(a + b - 1));
    }
}

} // verus!
