//! Finite sums of integer-valued functions over `[0, n)`, and the algebra
//! that the polynomial and ciphertext proofs need from them.
use vstd::arithmetic::div_mod::*;
use vstd::arithmetic::mul::*;
use vstd::prelude::*;

verus! {

/// `f(0) + f(1) + ... + f(n - 1)`.
pub open spec fn sum(f: spec_fn(int) -> int, n: int) -> int
    decreases n,
{
    if n <= 0 {
        0
    } else {
        sum(f, n - 1) + f(n - 1)
    }
}

/// Sums of functions that agree on `[0, n)` agree.
pub proof fn lemma_sum_ext(f: spec_fn(int) -> int, g: spec_fn(int) -> int, n: int)
    requires
        forall|i: int| 0 <= i < n ==> #[trigger] f(i) == g(i),
    ensures
        sum(f, n) == sum(g, n),
    decreases n,
{
    if n > 0 {
        lemma_sum_ext(f, g, n - 1);
    }
}

/// The sum of a pointwise sum is the sum of the sums.
pub proof fn lemma_sum_add(f: spec_fn(int) -> int, g: spec_fn(int) -> int, n: int)
    ensures
        sum(|i: int| f(i) + g(i), n) == sum(f, n) + sum(g, n),
    decreases n,
{
    if n > 0 {
        lemma_sum_add(f, g, n - 1);
    }
}

/// The sum of a pointwise difference is the difference of the sums.
pub proof fn lemma_sum_sub(f: spec_fn(int) -> int, g: spec_fn(int) -> int, n: int)
    ensures
        sum(|i: int| f(i) - g(i), n) == sum(f, n) - sum(g, n),
    decreases n,
{
    if n > 0 {
        lemma_sum_sub(f, g, n - 1);
    }
}

/// A constant factor comes out of a sum.
pub proof fn lemma_sum_scale(f: spec_fn(int) -> int, c: int, n: int)
    ensures
        sum(|i: int| c * f(i), n) == c * sum(f, n),
    decreases n,
{
    if n > 0 {
        lemma_sum_scale(f, c, n - 1);
        lemma_mul_is_distributive_add(c, sum(f, n - 1), f(n - 1));
    }
}

/// The sum of zeros is zero.
pub proof fn lemma_sum_zero(f: spec_fn(int) -> int, n: int)
    requires
        forall|i: int| 0 <= i < n ==> #[trigger] f(i) == 0,
    ensures
        sum(f, n) == 0,
    decreases n,
{
    if n > 0 {
        lemma_sum_zero(f, n - 1);
    }
}

/// A sum with a single nonzero term is that term.
pub proof fn lemma_sum_single(f: spec_fn(int) -> int, n: int, t: int)
    requires
        0 <= t < n,
        forall|i: int| 0 <= i < n && i != t ==> #[trigger] f(i) == 0,
    ensures
        sum(f, n) == f(t),
    decreases n,
{
    if t == n - 1 {
        lemma_sum_zero(f, n - 1);
    } else {
        lemma_sum_single(f, n - 1, t);
    }
}

/// Summing terms that agree modulo `q` gives sums that agree modulo `q`.
pub proof fn lemma_sum_mod(f: spec_fn(int) -> int, g: spec_fn(int) -> int, n: int, q: int)
    requires
        q > 0,
        forall|i: int| 0 <= i < n ==> #[trigger] f(i) % q == g(i) % q,
    ensures
        sum(f, n) % q == sum(g, n) % q,
    decreases n,
{
    if n > 0 {
        lemma_sum_mod(f, g, n - 1, q);
        lemma_add_mod_noop(sum(f, n - 1), f(n - 1), q);
        lemma_add_mod_noop(sum(g, n - 1), g(n - 1), q);
    }
}

/// The order of summation in a finite double sum does not matter.
pub proof fn lemma_sum_swap(f: spec_fn(int, int) -> int, n: int, m: int)
    ensures
        sum(|i: int| sum(|j: int| f(i, j), m), n) == sum(|j: int| sum(|i: int| f(i, j), n), m),
    decreases n,
{
    if n > 0 {
        let outer = |i: int| sum(|j: int| f(i, j), m);
        let prev = |j: int| sum(|i: int| f(i, j), n - 1);
        let last = |j: int| f(n - 1, j);
        let whole = |j: int| sum(|i: int| f(i, j), n);
        lemma_sum_swap(f, n - 1, m);
        assert(sum(outer, n - 1) == sum(prev, m));
        assert(sum(outer, n) == sum(outer, n - 1) + sum(last, m));
        lemma_sum_add(prev, last, m);
        assert forall|j: int| 0 <= j < m implies #[trigger] whole(j) == prev(j) + last(j) by {
        }
        lemma_sum_ext(|j: int| prev(j) + last(j), whole, m);
        assert(sum(outer, n) == sum(whole, m));
        assert((|i: int| sum(|j: int| f(i, j), m)) =~= outer);
        assert((|j: int| sum(|i: int| f(i, j), n)) =~= whole);
    } else {
        lemma_sum_zero(|j: int| sum(|i: int| f(i, j), n), m);
    }
}

} // verus!
