//! Finite sums, counts and saturation.

use vstd::prelude::*;

verus! {

/// `f(0) + .. + f(n - 1)`.
pub open spec fn sum(n: int, f: spec_fn(int) -> int) -> int
    decreases n,
{
    if n <= 0 {
        0
    } else {
        sum(n - 1, f) + f(n - 1)
    }
}

/// The summand of [`count`].
pub open spec fn indicator(p: spec_fn(int) -> bool) -> spec_fn(int) -> int {
    |i: int|
        if p(i) {
            1int
        } else {
            0int
        }
}

/// How many of `0 .. n` satisfy `p`.
pub open spec fn count(n: int, p: spec_fn(int) -> bool) -> int {
    sum(n, indicator(p))
}

/// The places where `f` takes the given value.
pub open spec fn places_of(f: spec_fn(int) -> int, value: int) -> spec_fn(int) -> bool {
    |i: int| f(i) == value
}

/// `x`, held down to `limit`.
pub open spec fn saturate(x: int, limit: int) -> int {
    if x > limit {
        limit
    } else {
        x
    }
}

pub open spec fn minimum(a: int, b: int) -> int {
    if a <= b {
        a
    } else {
        b
    }
}

pub open spec fn maximum(a: int, b: int) -> int {
    if a >= b {
        a
    } else {
        b
    }
}

/// The distance between two numbers.
pub open spec fn distance(a: int, b: int) -> int {
    if a >= b {
        a - b
    } else {
        b - a
    }
}

/// Saturating one part of a sum first changes nothing.
pub proof fn lemma_saturate_sum(a: int, b: int, limit: int)
    requires
        0 <= a,
        0 <= b,
        0 <= limit,
    ensures
        saturate(saturate(a, limit) + saturate(b, limit), limit) == saturate(a + b, limit),
{
}

pub proof fn lemma_sum_same(n: int, f: spec_fn(int) -> int, g: spec_fn(int) -> int)
    requires
        forall|i: int| 0 <= i < n ==> #[trigger] f(i) == g(i),
    ensures
        sum(n, f) == sum(n, g),
    decreases n,
{
    if n > 0 {
        lemma_sum_same(n - 1, f, g);
        assert(f(n - 1) == g(n - 1));
    }
}

pub proof fn lemma_sum_bounds(n: int, f: spec_fn(int) -> int, low: int, high: int)
    requires
        0 <= n,
        forall|i: int| 0 <= i < n ==> low <= #[trigger] f(i) <= high,
    ensures
        low * n <= sum(n, f) <= high * n,
    decreases n,
{
    if n > 0 {
        lemma_sum_bounds(n - 1, f, low, high);
        assert(low <= f(n - 1) <= high);
        assert(low * n == low * (n - 1) + low) by (nonlinear_arith);
        assert(high * n == high * (n - 1) + high) by (nonlinear_arith);
    } else {
        assert(low * n == 0 && high * n == 0) by (nonlinear_arith)
            requires
                n == 0,
        ;
    }
}

/// A part of a sum of natural numbers is no larger than the sum.
pub proof fn lemma_sum_monotone(m: int, n: int, f: spec_fn(int) -> int)
    requires
        0 <= m <= n,
        forall|i: int| 0 <= i < n ==> 0 <= #[trigger] f(i),
    ensures
        0 <= sum(m, f) <= sum(n, f),
    decreases n,
{
    if m < n {
        lemma_sum_monotone(m, n - 1, f);
        assert(f(n - 1) >= 0);
    } else if n > 0 {
        lemma_sum_monotone(n - 1, n - 1, f);
        assert(f(n - 1) >= 0);
    }
}

pub proof fn lemma_sum_split(m: int, n: int, f: spec_fn(int) -> int, rest: spec_fn(int) -> int)
    requires
        0 <= m,
        0 <= n,
        forall|i: int| 0 <= i < n ==> #[trigger] rest(i) == f(m + i),
    ensures
        sum(m + n, f) == sum(m, f) + sum(n, rest),
    decreases n,
{
    if n > 0 {
        lemma_sum_split(m, n - 1, f, rest);
        assert(rest(n - 1) == f(m + n - 1));
    }
}

/// Two summands that differ at one place only.
pub proof fn lemma_sum_changed_at(
    n: int,
    k: int,
    f: spec_fn(int) -> int,
    g: spec_fn(int) -> int,
)
    requires
        0 <= k < n,
        forall|i: int| 0 <= i < n && i != k ==> #[trigger] f(i) == g(i),
    ensures
        sum(n, g) == sum(n, f) + g(k) - f(k),
    decreases n,
{
    if k == n - 1 {
        lemma_sum_same(n - 1, f, g);
    } else {
        lemma_sum_changed_at(n - 1, k, f, g);
        assert(f(n - 1) == g(n - 1));
    }
}

pub proof fn lemma_count_bounds(n: int, p: spec_fn(int) -> bool)
    requires
        0 <= n,
    ensures
        0 <= count(n, p) <= n,
{
    lemma_sum_bounds(n, indicator(p), 0, 1);
}

pub proof fn lemma_count_monotone(m: int, n: int, p: spec_fn(int) -> bool)
    requires
        0 <= m <= n,
    ensures
        0 <= count(m, p) <= count(n, p),
{
    lemma_sum_monotone(m, n, indicator(p));
}

/// What implies another thing holds no more often than it.
pub proof fn lemma_count_implies(n: int, p: spec_fn(int) -> bool, q: spec_fn(int) -> bool)
    requires
        forall|i: int| 0 <= i < n && #[trigger] p(i) ==> q(i),
    ensures
        count(n, p) <= count(n, q),
    decreases n,
{
    if n > 0 {
        lemma_count_implies(n - 1, p, q);
        let here = p(n - 1);
    }
}

/// The counts of all values add up to the number of places.
pub proof fn lemma_counts_add_up(n: int, f: spec_fn(int) -> int, values: int)
    requires
        0 <= n,
        forall|i: int| 0 <= i < n ==> 0 <= #[trigger] f(i) < values,
    ensures
        sum(values, value_counts(n, f)) == n,
    decreases n,
{
    let after = value_counts(n, f);
    if n == 0 {
        assert forall|v: int| 0 <= v < values implies 0 <= #[trigger] after(v) <= 0 by {}
        if 0 <= values {
            lemma_sum_bounds(values, after, 0, 0);
        }
    } else {
        lemma_counts_add_up(n - 1, f, values);
        let before = value_counts(n - 1, f);
        let last = f(n - 1);
        assert forall|v: int| 0 <= v < values && v != last implies #[trigger] before(v) == after(v) by {
            assert(indicator(places_of(f, v))(n - 1) == 0);
        }
        assert(indicator(places_of(f, last))(n - 1) == 1);
        lemma_sum_changed_at(values, last, before, after);
    }
}

/// How often each value is taken.
pub open spec fn value_counts(n: int, f: spec_fn(int) -> int) -> spec_fn(int) -> int {
    |v: int| count(n, places_of(f, v))
}

/// A sum is no larger than another one with summands that are no smaller.
pub proof fn lemma_sum_at_most(n: int, f: spec_fn(int) -> int, g: spec_fn(int) -> int)
    requires
        forall|i: int| 0 <= i < n ==> #[trigger] f(i) <= g(i),
    ensures
        sum(n, f) <= sum(n, g),
    decreases n,
{
    if n > 0 {
        lemma_sum_at_most(n - 1, f, g);
        assert(f(n - 1) <= g(n - 1));
    }
}

} // verus!
