//! Polynomials in `R_q = Z_q[X]/(X^N + 1)`.
use crate::finite_sum::{lemma_sum_ext, lemma_sum_single, lemma_sum_swap, sum};
use crate::tfhe::modq::{add_mod, centered, mul_mod, neg_mod, sub_mod, Modulus, ZqElement};
use vstd::arithmetic::div_mod::*;
use vstd::arithmetic::mul::*;
use vstd::prelude::*;

verus! {

/// The contribution of `a[i] * b[j]` to coefficient `k` of the product in
/// `Z[X]/(X^n + 1)`: `X^(i+j)` lands on `X^k` when `i + j == k`, and wraps
/// around negated when `i + j == k + n`, since `X^n = -1`.
pub open spec fn negacyclic_term(
    a: Seq<ZqElement>,
    b: Seq<ZqElement>,
    n: int,
    i: int,
    j: int,
    k: int,
) -> int {
    if i + j == k {
        a[i]@ * b[j]@
    } else if i + j == k + n {
        -(a[i]@ * b[j]@)
    } else {
        0
    }
}

/// `sum_{jj < j} negacyclic_term(a, b, n, i, jj, k)`.
pub open spec fn negacyclic_row(
    a: Seq<ZqElement>,
    b: Seq<ZqElement>,
    n: int,
    i: int,
    k: int,
    j: int,
) -> int {
    sum(|jj: int| negacyclic_term(a, b, n, i, jj, k), j)
}

/// `sum_{ii < i} sum_{j < n} negacyclic_term(a, b, n, ii, j, k)`.
pub open spec fn negacyclic_partial(
    a: Seq<ZqElement>,
    b: Seq<ZqElement>,
    n: int,
    k: int,
    i: int,
) -> int {
    sum(|ii: int| negacyclic_row(a, b, n, ii, k, n), i)
}

/// Coefficient `k` of the product of `a` and `b` in `Z[X]/(X^n + 1)`, with
/// `n = a.len()`, over the integers (before reduction mod `q`).
pub open spec fn negacyclic_coeff(a: Seq<ZqElement>, b: Seq<ZqElement>, k: int) -> int {
    negacyclic_partial(a, b, a.len() as int, k, a.len() as int)
}

/// Multiplication in `Z[X]/(X^n + 1)` is commutative: every coefficient of
/// `a * b` equals that of `b * a`, so `a.mul(b, q) == b.mul(a, q)`.
pub proof fn lemma_negacyclic_commutes(a: Seq<ZqElement>, b: Seq<ZqElement>, k: int)
    requires
        a.len() == b.len(),
    ensures
        negacyclic_coeff(a, b, k) == negacyclic_coeff(b, a, k),
{
    let n = a.len() as int;
    let f = |i: int, j: int| negacyclic_term(a, b, n, i, j, k);
    let rows_ab = |i: int| negacyclic_row(a, b, n, i, k, n);
    let rows_f = |i: int| sum(|j: int| f(i, j), n);
    assert forall|i: int| 0 <= i < n implies #[trigger] rows_ab(i) == rows_f(i) by {
        lemma_sum_ext(|jj: int| negacyclic_term(a, b, n, i, jj, k), |j: int| f(i, j), n);
    }
    lemma_sum_ext(rows_ab, rows_f, n);
    lemma_sum_swap(f, n, n);
    let cols_f = |j: int| sum(|i: int| f(i, j), n);
    let rows_ba = |j: int| negacyclic_row(b, a, n, j, k, n);
    assert forall|j: int| 0 <= j < n implies #[trigger] cols_f(j) == rows_ba(j) by {
        assert forall|i: int| 0 <= i < n implies #[trigger] f(i, j) == negacyclic_term(
            b,
            a,
            n,
            j,
            i,
            k,
        ) by {
            lemma_mul_is_commutative(a[i]@ as int, b[j]@ as int);
        }
        lemma_sum_ext(|i: int| f(i, j), |ii: int| negacyclic_term(b, a, n, j, ii, k), n);
    }
    lemma_sum_ext(cols_f, rows_ba, n);
}

/// Coefficient `k` of the product in `Z[X]/(X^n + 1)` is the negacyclic
/// convolution `sum_{i <= k} a[i] b[k - i] - sum_{i > k} a[i] b[n + k - i]`:
/// the products that land past degree `n - 1` come back negated.
pub proof fn lemma_negacyclic_convolution(a: Seq<ZqElement>, b: Seq<ZqElement>, k: int)
    requires
        a.len() == b.len(),
        0 <= k < a.len(),
    ensures
        negacyclic_coeff(a, b, k) == sum(
            |i: int|
                if i <= k {
                    a[i]@ * b[k - i]@
                } else {
                    -(a[i]@ * b[a.len() + k - i]@)
                },
            a.len() as int,
        ),
{
    let n = a.len() as int;
    let rows = |i: int| negacyclic_row(a, b, n, i, k, n);
    let conv = |i: int|
        if i <= k {
            a[i]@ * b[k - i]@
        } else {
            -(a[i]@ * b[n + k - i]@)
        };
    assert forall|i: int| 0 <= i < n implies #[trigger] rows(i) == conv(i) by {
        let t = if i <= k {
            k - i
        } else {
            n + k - i
        };
        let f = |j: int| negacyclic_term(a, b, n, i, j, k);
        assert forall|j: int| 0 <= j < n && j != t implies #[trigger] f(j) == 0 by {}
        lemma_sum_single(f, n, t);
    }
    lemma_sum_ext(rows, conv, n);
}

/// Multiplying by `X` shifts the coefficients up by one and brings the top
/// one back negated, because `X^n = -1`.
pub proof fn lemma_mul_by_x_shifts(a: Seq<ZqElement>, b: Seq<ZqElement>, k: int)
    requires
        a.len() == b.len(),
        a.len() >= 2,
        0 <= k < a.len(),
        forall|i: int| 0 <= i < a.len() ==> (#[trigger] a[i])@ == (if i == 1 {
            1int
        } else {
            0int
        }),
    ensures
        negacyclic_coeff(a, b, k) == (if k >= 1 {
            b[k - 1]@ as int
        } else {
            -(b[a.len() - 1]@ as int)
        }),
{
    let n = a.len() as int;
    lemma_negacyclic_convolution(a, b, k);
    let conv = |i: int|
        if i <= k {
            a[i]@ * b[k - i]@
        } else {
            -(a[i]@ * b[n + k - i]@)
        };
    assert forall|i: int| 0 <= i < n && i != 1 implies #[trigger] conv(i) == 0 by {}
    lemma_sum_single(conv, n, 1);
}

/// `X * X^(n-1) = X^n = -1`: the product has coefficient `q - 1` at `0` and
/// `0` everywhere else, for every `n >= 2` and every `q >= 2`.
pub proof fn lemma_x_times_x_to_the_n_minus_one(
    a: Seq<ZqElement>,
    b: Seq<ZqElement>,
    q: int,
)
    requires
        q >= 2,
        a.len() == b.len(),
        a.len() >= 2,
        forall|i: int| 0 <= i < a.len() ==> (#[trigger] a[i])@ == (if i == 1 {
            1int
        } else {
            0int
        }),
        forall|i: int| 0 <= i < b.len() ==> (#[trigger] b[i])@ == (if i == b.len() - 1 {
            1int
        } else {
            0int
        }),
    ensures
        negacyclic_coeff(a, b, 0) % q == q - 1,
        forall|k: int| 1 <= k < a.len() ==> #[trigger] negacyclic_coeff(a, b, k) % q == 0,
{
    let n = a.len() as int;
    lemma_mul_by_x_shifts(a, b, 0);
    assert(b[n - 1]@ == 1);
    lemma_fundamental_div_mod_converse(-1, q, -1, q - 1);
    assert forall|k: int| 1 <= k < n implies #[trigger] negacyclic_coeff(a, b, k) % q == 0 by {
        lemma_mul_by_x_shifts(a, b, k);
        assert(b[k - 1]@ == 0);
    }
}

/// `add_assign` leaves in `self` exactly what `add` returns: any two
/// coefficient sequences that meet the coefficient-wise sum contract for the
/// same operands are equal.
pub proof fn lemma_add_assign_matches_add(
    x: Seq<ZqElement>,
    y: Seq<ZqElement>,
    a: Seq<ZqElement>,
    b: Seq<ZqElement>,
    q: int,
)
    requires
        x.len() == a.len(),
        y.len() == a.len(),
        b.len() == a.len(),
        forall|i: int| 0 <= i < a.len() ==> (#[trigger] x[i])@ == (a[i]@ + b[i]@) % q,
        forall|i: int| 0 <= i < a.len() ==> (#[trigger] y[i])@ == (a[i]@ + b[i]@) % q,
    ensures
        x == y,
{
    assert forall|i: int| 0 <= i < a.len() implies #[trigger] x[i] == y[i] by {
        ZqElement::lemma_view_eq(x[i], y[i]);
    }
    assert(x =~= y);
}

/// A coefficient in `[-q/2, q/2)` survives `from_signed` followed by
/// `to_centered` for an even modulus `q`.
pub proof fn lemma_signed_round_trip(c: int, q: int)
    requires
        q >= 2,
        q % 2 == 0,
        -(q / 2) <= c < q / 2,
    ensures
        centered(c % q, q) == c,
{
    if c >= 0 {
        lemma_small_mod(c as nat, q as nat);
    } else {
        lemma_fundamental_div_mod_converse(c, q, -1, c + q);
    }
}

/// A polynomial with `N >= 1` coefficients in `Z_q`; index `i` holds the
/// coefficient of `X^i`.
#[derive(Debug, PartialEq, Eq)]
pub struct Poly {
    coeffs: Vec<ZqElement>,
}

impl View for Poly {
    type V = Seq<ZqElement>;

    closed spec fn view(&self) -> Seq<ZqElement> {
        self.coeffs@
    }
}

impl Clone for Poly {
    fn clone(&self) -> (r: Self)
        ensures
            r@ == self@,
    {
        proof {
            use_type_invariant(self);
        }
        let n = self.coeffs.len();
        let mut out: Vec<ZqElement> = Vec::with_capacity(n);
        let mut i: usize = 0;
        while i < n
            invariant
                n == self.coeffs@.len(),
                i <= n,
                out@ == self.coeffs@.subrange(0, i as int),
            decreases n - i,
        {
            out.push(self.coeffs[i]);
            i = i + 1;
        }
        Poly { coeffs: out }
    }
}

impl Poly {
    #[verifier::type_invariant]
    closed spec fn inv(self) -> bool {
        self.coeffs@.len() >= 1
    }

    /// Every polynomial has at least one coefficient.
    pub fn new(coeffs: Vec<ZqElement>) -> (r: Self)
        requires
            coeffs@.len() >= 1,
        ensures
            r@ == coeffs@,
    {
        Self { coeffs }
    }

    pub fn zero(n: usize) -> (r: Self)
        requires
            n >= 1,
        ensures
            r@.len() == n,
            forall|i: int| 0 <= i < n ==> (#[trigger] r@[i])@ == 0,
    {
        let mut coeffs: Vec<ZqElement> = Vec::with_capacity(n);
        let mut i: usize = 0;
        while i < n
            invariant
                i <= n,
                coeffs@.len() == i,
                forall|j: int| 0 <= j < i ==> (#[trigger] coeffs@[j])@ == 0,
            decreases n - i,
        {
            coeffs.push(ZqElement::zero());
            i = i + 1;
        }
        Self::new(coeffs)
    }

    pub fn from_signed(coeffs: &[i64], q: Modulus) -> (r: Self)
        requires
            coeffs@.len() >= 1,
        ensures
            r@.len() == coeffs@.len(),
            forall|i: int|
                0 <= i < coeffs@.len() ==> (#[trigger] r@[i])@ == coeffs@[i] as int % (q@ as int),
    {
        let n = coeffs.len();
        let mut out: Vec<ZqElement> = Vec::with_capacity(n);
        let mut i: usize = 0;
        while i < n
            invariant
                n == coeffs@.len(),
                i <= n,
                out@.len() == i,
                forall|j: int|
                    0 <= j < i ==> (#[trigger] out@[j])@ == coeffs@[j] as int % (q@ as int),
            decreases n - i,
        {
            out.push(ZqElement::from_i64(coeffs[i], q));
            i = i + 1;
        }
        Self::new(out)
    }

    /// A polynomial with `n` uniformly random coefficients.
    pub fn random<R: rand::CryptoRng>(rng: &mut R, n: usize, q: Modulus) -> (r: Self)
        requires
            n >= 1,
        ensures
            r@.len() == n,
            forall|i: int| 0 <= i < n ==> (#[trigger] r@[i])@ < q@,
    {
        let mut coeffs: Vec<ZqElement> = Vec::with_capacity(n);
        let mut i: usize = 0;
        while i < n
            invariant
                i <= n,
                coeffs@.len() == i,
                forall|j: int| 0 <= j < i ==> (#[trigger] coeffs@[j])@ < q@,
            decreases n - i,
        {
            coeffs.push(ZqElement::random(rng, q));
            i = i + 1;
        }
        Self::new(coeffs)
    }

    /// The number of coefficients.
    pub fn n(&self) -> (r: usize)
        ensures
            r == self@.len(),
            r >= 1,
    {
        proof {
            use_type_invariant(self);
        }
        self.coeffs.len()
    }

    pub fn coeff(&self, i: usize) -> (r: ZqElement)
        requires
            i < self@.len(),
        ensures
            r == self@[i as int],
    {
        self.coeffs[i]
    }

    pub fn coeffs(&self) -> (r: &[ZqElement])
        ensures
            r@ == self@,
    {
        self.coeffs.as_slice()
    }

    /// The centered lift of every coefficient.
    pub fn to_centered(&self, q: Modulus) -> (r: Vec<i64>)
        ensures
            r@.len() == self@.len(),
            forall|i: int|
                0 <= i < self@.len() ==> #[trigger] r@[i] == centered(
                    self@[i]@ as int,
                    q@ as int,
                ) as i64,
    {
        let n = self.coeffs.len();
        let mut out: Vec<i64> = Vec::with_capacity(n);
        let mut i: usize = 0;
        while i < n
            invariant
                n == self.coeffs@.len(),
                i <= n,
                out@.len() == i,
                forall|j: int|
                    0 <= j < i ==> #[trigger] out@[j] == centered(
                        self.coeffs@[j]@ as int,
                        q@ as int,
                    ) as i64,
            decreases n - i,
        {
            out.push(self.coeffs[i].to_centered(q));
            i = i + 1;
        }
        out
    }

    pub fn add(&self, other: &Self, q: Modulus) -> (r: Self)
        requires
            self@.len() == other@.len(),
        ensures
            r@.len() == self@.len(),
            forall|i: int|
                0 <= i < self@.len() ==> (#[trigger] r@[i])@ == (self@[i]@ + other@[i]@) % (
                q@ as int),
    {
        proof {
            use_type_invariant(self);
        }
        let n = self.coeffs.len();
        let mut out: Vec<ZqElement> = Vec::with_capacity(n);
        let mut i: usize = 0;
        while i < n
            invariant
                n == self.coeffs@.len(),
                n == other.coeffs@.len(),
                i <= n,
                out@.len() == i,
                forall|j: int|
                    0 <= j < i ==> (#[trigger] out@[j])@ == (self.coeffs@[j]@
                        + other.coeffs@[j]@) % (q@ as int),
            decreases n - i,
        {
            out.push(add_mod(self.coeffs[i], other.coeffs[i], q));
            i = i + 1;
        }
        Self::new(out)
    }

    pub fn add_assign(&mut self, other: &Self, q: Modulus)
        requires
            old(self)@.len() == other@.len(),
        ensures
            final(self)@.len() == old(self)@.len(),
            forall|i: int|
                0 <= i < old(self)@.len() ==> (#[trigger] final(self)@[i])@ == (old(self)@[i]@
                    + other@[i]@) % (q@ as int),
    {
        proof {
            use_type_invariant(&*self);
        }
        let mut coeffs: Vec<ZqElement> = Vec::new();
        coeffs.push(ZqElement::zero());
        std::mem::swap(&mut coeffs, &mut self.coeffs);
        let n = coeffs.len();
        let mut i: usize = 0;
        while i < n
            invariant
                n == coeffs@.len(),
                n == other.coeffs@.len(),
                n == old(self).coeffs@.len(),
                n >= 1,
                i <= n,
                forall|j: int|
                    0 <= j < i ==> (#[trigger] coeffs@[j])@ == (old(self).coeffs@[j]@
                        + other.coeffs@[j]@) % (q@ as int),
                forall|j: int| i <= j < n ==> #[trigger] coeffs@[j] == old(self).coeffs@[j],
            decreases n - i,
        {
            let v = add_mod(coeffs[i], other.coeffs[i], q);
            coeffs.set(i, v);
            i = i + 1;
        }
        self.coeffs = coeffs;
    }

    pub fn sub(&self, other: &Self, q: Modulus) -> (r: Self)
        requires
            self@.len() == other@.len(),
        ensures
            r@.len() == self@.len(),
            forall|i: int|
                0 <= i < self@.len() ==> (#[trigger] r@[i])@ == (self@[i]@ - other@[i]@) % (
                q@ as int),
    {
        proof {
            use_type_invariant(self);
        }
        let n = self.coeffs.len();
        let mut out: Vec<ZqElement> = Vec::with_capacity(n);
        let mut i: usize = 0;
        while i < n
            invariant
                n == self.coeffs@.len(),
                n == other.coeffs@.len(),
                i <= n,
                out@.len() == i,
                forall|j: int|
                    0 <= j < i ==> (#[trigger] out@[j])@ == (self.coeffs@[j]@
                        - other.coeffs@[j]@) % (q@ as int),
            decreases n - i,
        {
            out.push(sub_mod(self.coeffs[i], other.coeffs[i], q));
            i = i + 1;
        }
        Self::new(out)
    }

    pub fn neg(&self, q: Modulus) -> (r: Self)
        ensures
            r@.len() == self@.len(),
            forall|i: int|
                0 <= i < self@.len() ==> (#[trigger] r@[i])@ == (-self@[i]@) % (q@ as int),
    {
        proof {
            use_type_invariant(self);
        }
        let n = self.coeffs.len();
        let mut out: Vec<ZqElement> = Vec::with_capacity(n);
        let mut i: usize = 0;
        while i < n
            invariant
                n == self.coeffs@.len(),
                i <= n,
                out@.len() == i,
                forall|j: int|
                    0 <= j < i ==> (#[trigger] out@[j])@ == (-self.coeffs@[j]@) % (q@ as int),
            decreases n - i,
        {
            out.push(neg_mod(self.coeffs[i], q));
            i = i + 1;
        }
        Self::new(out)
    }

    pub fn scalar_mul(&self, c: ZqElement, q: Modulus) -> (r: Self)
        ensures
            r@.len() == self@.len(),
            forall|i: int|
                0 <= i < self@.len() ==> (#[trigger] r@[i])@ == (self@[i]@ * c@) % (q@ as int),
    {
        proof {
            use_type_invariant(self);
        }
        let n = self.coeffs.len();
        let mut out: Vec<ZqElement> = Vec::with_capacity(n);
        let mut i: usize = 0;
        while i < n
            invariant
                n == self.coeffs@.len(),
                i <= n,
                out@.len() == i,
                forall|j: int|
                    0 <= j < i ==> (#[trigger] out@[j])@ == (self.coeffs@[j]@ * c@) % (q@ as int),
            decreases n - i,
        {
            out.push(mul_mod(self.coeffs[i], c, q));
            i = i + 1;
        }
        Self::new(out)
    }

    /// Schoolbook product in `Z_q[X]/(X^N + 1)`: terms that overflow degree
    /// `N - 1` wrap around negated, since `X^N = -1`.
    pub fn mul(&self, other: &Self, q: Modulus) -> (r: Self)
        requires
            self@.len() == other@.len(),
        ensures
            r@.len() == self@.len(),
            forall|k: int|
                0 <= k < self@.len() ==> (#[trigger] r@[k])@ == negacyclic_coeff(self@, other@, k)
                    % (q@ as int),
    {
        proof {
            use_type_invariant(self);
            q.lemma_view();
        }
        let n = self.coeffs.len();
        let ghost a = self.coeffs@;
        let ghost b = other.coeffs@;
        let ghost qi = q@ as int;
        let mut out: Vec<ZqElement> = Vec::with_capacity(n);
        let mut z: usize = 0;
        while z < n
            invariant
                z <= n,
                out@.len() == z,
                forall|k: int| 0 <= k < z ==> (#[trigger] out@[k])@ == 0,
            decreases n - z,
        {
            out.push(ZqElement::zero());
            z = z + 1;
        }
        proof {
            assert forall|k: int| 0 <= k < n implies (#[trigger] out@[k])@ == negacyclic_partial(
                a,
                b,
                n as int,
                k,
                0,
            ) % qi by {
                lemma_small_mod(0, qi as nat);
            }
        }
        let mut i: usize = 0;
        while i < n
            invariant
                n == a.len(),
                n == b.len(),
                a == self.coeffs@,
                b == other.coeffs@,
                qi == q@ as int,
                qi > 0,
                i <= n,
                out@.len() == n,
                forall|k: int|
                    0 <= k < n ==> (#[trigger] out@[k])@ == negacyclic_partial(a, b, n as int, k, i as int)
                        % qi,
            decreases n - i,
        {
            let mut j: usize = 0;
            while j < n
                invariant
                    n == a.len(),
                    n == b.len(),
                    a == self.coeffs@,
                    b == other.coeffs@,
                    qi == q@ as int,
                    qi > 0,
                    i < n,
                    j <= n,
                    out@.len() == n,
                    forall|k: int|
                        0 <= k < n ==> (#[trigger] out@[k])@ == (negacyclic_partial(
                            a,
                            b,
                            n as int,
                            k,
                            i as int,
                        ) + negacyclic_row(a, b, n as int, i as int, k, j as int)) % qi,
                decreases n - j,
            {
                let p = mul_mod(self.coeffs[i], other.coeffs[j], q);
                let ghost prod = a[i as int]@ * b[j as int]@;
                let ghost out_before = out@;
                if j < n - i {
                    let t = i + j;
                    let v = add_mod(out[t], p, q);
                    out.set(t, v);
                    proof {
                        assert forall|k: int| 0 <= k < n implies (#[trigger] out@[k])@ == (
                        negacyclic_partial(a, b, n as int, k, i as int) + negacyclic_row(
                            a,
                            b,
                            n as int,
                            i as int,
                            k,
                            j + 1,
                        )) % qi by {
                            let base = negacyclic_partial(a, b, n as int, k, i as int)
                                + negacyclic_row(a, b, n as int, i as int, k, j as int);
                            assert(negacyclic_row(a, b, n as int, i as int, k, j + 1)
                                == negacyclic_row(a, b, n as int, i as int, k, j as int)
                                + negacyclic_term(a, b, n as int, i as int, j as int, k));
                            if k == t {
                                lemma_add_mod_noop(base, prod, qi);
                                lemma_mod_twice(base, qi);
                                lemma_mod_twice(prod, qi);
                            }
                        }
                    }
                } else {
                    let t = j - (n - i);
                    let v = sub_mod(out[t], p, q);
                    out.set(t, v);
                    proof {
                        assert forall|k: int| 0 <= k < n implies (#[trigger] out@[k])@ == (
                        negacyclic_partial(a, b, n as int, k, i as int) + negacyclic_row(
                            a,
                            b,
                            n as int,
                            i as int,
                            k,
                            j + 1,
                        )) % qi by {
                            let base = negacyclic_partial(a, b, n as int, k, i as int)
                                + negacyclic_row(a, b, n as int, i as int, k, j as int);
                            assert(negacyclic_row(a, b, n as int, i as int, k, j + 1)
                                == negacyclic_row(a, b, n as int, i as int, k, j as int)
                                + negacyclic_term(a, b, n as int, i as int, j as int, k));
                            if k == t {
                                lemma_sub_mod_noop(base, prod, qi);
                                lemma_mod_twice(base, qi);
                                lemma_mod_twice(prod, qi);
                            }
                        }
                    }
                }
                j = j + 1;
            }
            proof {
                assert forall|k: int| 0 <= k < n implies (#[trigger] out@[k])@ == negacyclic_partial(
                    a,
                    b,
                    n as int,
                    k,
                    i + 1,
                ) % qi by {
                    assert(negacyclic_partial(a, b, n as int, k, i + 1) == negacyclic_partial(
                        a,
                        b,
                        n as int,
                        k,
                        i as int,
                    ) + negacyclic_row(a, b, n as int, i as int, k, n as int));
                }
            }
            i = i + 1;
        }
        Self::new(out)
    }
}

} // verus!
