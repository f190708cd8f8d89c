//! Modular arithmetic primitives for `Z_q`.
use subtle::{Choice, ConditionallySelectable, ConstantTimeLess};
use vstd::arithmetic::div_mod::*;
use vstd::prelude::*;
use crate::finite_sum::{lemma_sum_ext, lemma_sum_single, sum};

verus! {

/// `Modulus` wraps a `u32` in `[2, 2^32)` together with a precomputed
/// Barrett constant `mu = floor(2^64 / q)`.
#[derive(Clone, Copy, Debug, PartialEq, Eq, Structural)]
pub struct Modulus {
    q: u32,
    mu: u64,
}

/// `2^64`, the Barrett radix.
pub open spec fn radix() -> nat {
    0x1_0000_0000_0000_0000
}

impl View for Modulus {
    type V = u32;

    closed spec fn view(&self) -> u32 {
        self.q
    }
}

impl Modulus {
    #[verifier::type_invariant]
    closed spec fn inv(self) -> bool {
        &&& self.q >= 2
        &&& self.mu as nat == radix() / (self.q as nat)
    }

    pub fn new(q: u32) -> (m: Self)
        requires
            q >= 2,
        ensures
            m@ == q,
    {
        let two_64: u128 = 1u128 << 64u32;
        assert(two_64 == 0x1_0000_0000_0000_0000u128) by (bit_vector)
            requires
                two_64 == 1u128 << 64u32,
        ;
        proof {
            lemma_div_is_ordered_by_denominator(radix() as int, 2, q as int);
        }
        let mu = (two_64 / q as u128) as u64;
        Self { q, mu }
    }

    pub fn raw(self) -> (r: u32)
        ensures
            r == self@,
            r >= 2,
    {
        proof {
            use_type_invariant(&self);
        }
        self.q
    }
}

impl TryFrom<u32> for Modulus {
    type Error = &'static str;

    fn try_from(q: u32) -> (r: Result<Self, Self::Error>) {
        if q < 2 {
            return Err("modulus must be at least 2");
        }
        let m = Self::new(q);
        proof {
            use_type_invariant(&m);
        }
        Ok(m)
    }
}

impl vstd::std_specs::convert::TryFromSpecImpl<u32> for Modulus {
    open spec fn obeys_try_from_spec() -> bool {
        true
    }

    closed spec fn try_from_spec(q: u32) -> Result<Self, Self::Error> {
        if q < 2 {
            Err("modulus must be at least 2")
        } else {
            Ok(Modulus { q, mu: (radix() / (q as nat)) as u64 })
        }
    }
}

impl From<Modulus> for u32 {
    fn from(m: Modulus) -> (r: u32) {
        m.q
    }
}

impl vstd::std_specs::convert::FromSpecImpl<Modulus> for u32 {
    open spec fn obeys_from_spec() -> bool {
        true
    }

    open spec fn from_spec(m: Modulus) -> u32 {
        m@
    }
}

/// `Modulus::try_from(q)` succeeds exactly when `q >= 2`, with modulus `q`.
pub proof fn lemma_modulus_try_from(q: u32)
    ensures
        <Modulus as vstd::std_specs::convert::TryFromSpec<u32>>::try_from_spec(q) is Ok == (q
            >= 2),
        q >= 2 ==> <Modulus as vstd::std_specs::convert::TryFromSpec<u32>>::try_from_spec(
            q,
        )->Ok_0@ == q,
        q < 2 ==> <Modulus as vstd::std_specs::convert::TryFromSpec<u32>>::try_from_spec(q)
            == Err::<Modulus, &'static str>("modulus must be at least 2"),
{
}

/// An element of `Z_q`, held as its representative in `[0, q)` for whichever
/// modulus the caller pairs it with.
#[derive(Clone, Copy, Debug, PartialEq, Eq, Structural)]
pub struct ZqElement(u32);

impl View for ZqElement {
    type V = u32;

    closed spec fn view(&self) -> u32 {
        self.0
    }
}

/// Every element of `v` is a representative in `[0, q)`.
pub open spec fn all_below(v: Seq<ZqElement>, q: u32) -> bool {
    forall|i: int| 0 <= i < v.len() ==> (#[trigger] v[i])@ < q
}

/// Distance from `x` to `0` in `Z_q`: `min(x, q - x)`.
pub open spec fn centered_distance(x: int, q: int) -> int {
    if q - x < x {
        q - x
    } else {
        x
    }
}

/// `sum_{i < n} a[i] * b[i]` over the integers.
pub open spec fn dot_prefix(a: Seq<ZqElement>, b: Seq<ZqElement>, n: int) -> int {
    sum(|j: int| a[j]@ * b[j]@, n)
}

/// Inner product of two sequences over the integers (no reduction).
pub open spec fn dot(a: Seq<ZqElement>, b: Seq<ZqElement>) -> int {
    dot_prefix(a, b, a.len() as int)
}

/// The inner product picks out coordinates: if `a` is the unit vector with
/// a `1` at `t`, then `<a, b> = b[t]`.
pub proof fn lemma_dot_unit(a: Seq<ZqElement>, b: Seq<ZqElement>, t: int)
    requires
        a.len() == b.len(),
        0 <= t < a.len(),
        forall|i: int| 0 <= i < a.len() ==> (#[trigger] a[i])@ == (if i == t {
            1int
        } else {
            0int
        }),
    ensures
        dot(a, b) == b[t]@,
{
    let f = |j: int| a[j]@ * b[j]@;
    assert forall|i: int| 0 <= i < a.len() && i != t implies #[trigger] f(i) == 0 by {}
    lemma_sum_single(f, a.len() as int, t);
}

/// The inner product is symmetric: `<a, b> = <b, a>`.
pub proof fn lemma_dot_symmetric(a: Seq<ZqElement>, b: Seq<ZqElement>)
    requires
        a.len() == b.len(),
    ensures
        dot(a, b) == dot(b, a),
{
    assert forall|j: int| 0 <= j < a.len() implies #[trigger] (a[j]@ * b[j]@) == b[j]@ * a[j]@ by {
        vstd::arithmetic::mul::lemma_mul_is_commutative(a[j]@ as int, b[j]@ as int);
    }
    lemma_sum_ext(|j: int| a[j]@ * b[j]@, |j: int| b[j]@ * a[j]@, a.len() as int);
}

impl ZqElement {
    /// The element `0`.
    pub fn zero() -> (r: Self)
        ensures
            r@ == 0,
    {
        Self(0)
    }

    /// Two elements are equal exactly when their representatives are.
    pub proof fn lemma_view_eq(a: ZqElement, b: ZqElement)
        ensures
            (a@ == b@) == (a == b),
    {
    }

    /// Wraps a `u32` already in `[0, q)`.
    pub fn new(x: u32, q: Modulus) -> (r: Self)
        requires
            x < q@,
        ensures
            r@ == x,
    {
        Self(x)
    }

    /// The element with representative `x`, whichever modulus it is meant
    /// for (as deserialization produces it).
    pub fn from_raw(x: u32) -> (r: Self)
        ensures
            r@ == x,
    {
        Self(x)
    }

    /// Reduces a signed integer into `[0, q)`.
    pub fn from_i64(x: i64, q: Modulus) -> (r: Self)
        ensures
            r@ == (x as int) % (q@ as int),
    {
        let m = q.raw() as i64;
        Self(x.rem_euclid(m) as u32)
    }

    pub fn raw(self) -> (r: u32)
        ensures
            r == self@,
    {
        self.0
    }

    /// Constant-time choice between `a` (when `choice` is false) and `b`.
    pub fn conditional_select(a: &Self, b: &Self, choice: bool) -> (r: Self)
        ensures
            r == (if choice {
                *b
            } else {
                *a
            }),
    {
        Self(ct_select_u32(a.0, b.0, choice))
    }
}

impl Default for ZqElement {
    fn default() -> (r: Self)
        ensures
            r@ == 0,
    {
        Self::zero()
    }
}

/// `i64::rem_euclid`: the least nonnegative remainder of `x` modulo `m`.
/// Its documentation says it panics when `m` is zero and overflows (panics in
/// debug builds) for `i64::MIN` and `-1`; both are excluded.
pub assume_specification[ <i64>::rem_euclid ](x: i64, m: i64) -> (r: i64)
    requires
        m != 0,
        !(x == i64::MIN && m == -1),
    ensures
        r == (x as int) % (m as int),
;

/// `subtle::ConstantTimeLess::ct_lt` on `u64`, with the returned `Choice`
/// read as a `bool`: true exactly when `a < b`.
#[verifier::external_body]
fn ct_lt_u64(a: u64, b: u64) -> (r: bool)
    ensures
        r == (a < b),
{
    bool::from(a.ct_lt(&b))
}

/// `subtle::ConstantTimeLess::ct_lt` on `u32`, with the returned `Choice`
/// read as a `bool`: true exactly when `a < b`.
#[verifier::external_body]
fn ct_lt_u32(a: u32, b: u32) -> (r: bool)
    ensures
        r == (a < b),
{
    bool::from(a.ct_lt(&b))
}

/// `subtle::ConditionallySelectable::conditional_select` on `u64`: `a` when
/// the choice is clear, `b` when it is set.
#[verifier::external_body]
fn ct_select_u64(a: u64, b: u64, choice: bool) -> (r: u64)
    ensures
        r == (if choice {
            b
        } else {
            a
        }),
{
    u64::conditional_select(&a, &b, Choice::from(choice as u8))
}

/// `subtle::ConditionallySelectable::conditional_select` on `u32`: `a` when
/// the choice is clear, `b` when it is set.
#[verifier::external_body]
fn ct_select_u32(a: u32, b: u32, choice: bool) -> (r: u32)
    ensures
        r == (if choice {
            b
        } else {
            a
        }),
{
    u32::conditional_select(&a, &b, Choice::from(choice as u8))
}

/// `(a + b) mod q`, with a constant-time final subtraction.
pub fn add_mod(a: ZqElement, b: ZqElement, q: Modulus) -> (r: ZqElement)
    requires
        a@ < q@,
        b@ < q@,
    ensures
        r@ == (a@ + b@) % (q@ as int),
        r@ < q@,
{
    let qq = q.raw() as u64;
    let sum = a.0 as u64 + b.0 as u64;
    let reduced = sum.wrapping_sub(qq);
    let needs_reduce = !ct_lt_u64(sum, qq);
    let out = ct_select_u64(sum, reduced, needs_reduce);
    proof {
        if needs_reduce {
            lemma_fundamental_div_mod_converse(sum as int, qq as int, 1, sum - qq);
        } else {
            lemma_small_mod(sum as nat, qq as nat);
        }
    }
    ZqElement(out as u32)
}

/// `(a - b) mod q`, with a constant-time correction on underflow.
pub fn sub_mod(a: ZqElement, b: ZqElement, q: Modulus) -> (r: ZqElement)
    requires
        a@ < q@,
        b@ < q@,
    ensures
        r@ == (a@ - b@) % (q@ as int),
        r@ < q@,
{
    let qq = q.raw();
    let diff = a.0.wrapping_sub(b.0);
    let corrected = diff.wrapping_add(qq);
    let underflow = ct_lt_u32(a.0, b.0);
    let out = ct_select_u32(diff, corrected, underflow);
    proof {
        if underflow {
            lemma_fundamental_div_mod_converse(a.0 - b.0, qq as int, -1, a.0 - b.0 + qq);
        } else {
            lemma_small_mod((a.0 - b.0) as nat, qq as nat);
        }
    }
    ZqElement(out)
}

/// The Barrett estimate `floor(p * mu / 2^64)`, with `mu = floor(2^64 / q)`,
/// undershoots `floor(p / q)` by at most one when `p < 2^64`, so
/// `p - estimate * q` lies in `[0, 2q)`.
pub proof fn lemma_barrett_estimate(p: int, q: int, mu: int, est: int)
    requires
        2 <= q,
        0 <= p < radix(),
        mu == radix() as int / q,
        est == (p * mu) / (radix() as int),
    ensures
        0 <= est,
        est * q <= p,
        p - est * q < 2 * q,
{
    let r = radix() as int;
    lemma_fundamental_div_mod(r, q);
    lemma_mod_bound(r, q);
    assert(q * mu <= r && r < q * mu + q);
    assert(0 <= mu) by {
        lemma_div_pos_is_pos(r, q);
    }
    assert(0 <= p * mu) by (nonlinear_arith)
        requires
            0 <= p,
            0 <= mu,
    ;
    lemma_fundamental_div_mod(p * mu, r);
    lemma_mod_bound(p * mu, r);
    lemma_div_pos_is_pos(p * mu, r);
    assert(est * r <= p * mu && p * mu < est * r + r);
    assert(est * q <= p) by (nonlinear_arith)
        requires
            est * r <= p * mu,
            q * mu <= r,
            0 < q,
            0 <= p,
            0 <= est,
            0 <= mu,
            0 < r,
    {
        assert((est * r) * q <= (p * mu) * q);
        assert((p * mu) * q == p * (q * mu));
        assert(p * (q * mu) <= p * r);
        assert((est * q) * r <= p * r);
    }
    assert(p - est * q < 2 * q) by (nonlinear_arith)
        requires
            p * mu < est * r + r,
            r < q * mu + q,
            0 < q,
            0 <= p < r,
            0 <= est,
            0 <= mu,
    {
        if p >= est * q + 2 * q {
            assert(p * (q * mu) > p * (r - q) || p == 0);
            assert((p * mu) * q < (est + 1) * r * q);
            assert((est + 1) * q * r <= (p - q) * r);
            assert(p * (r - q) < (p - q) * r);
            assert(q * r < p * q);
            assert(r < p);
        }
    }
}

/// `(a * b) mod q` via Barrett reduction: the estimate
/// `floor(product * mu / 2^64)` of `floor(product / q)` is at most one short,
/// so one constant-time conditional subtraction finishes the reduction.
pub fn mul_mod(a: ZqElement, b: ZqElement, q: Modulus) -> (r: ZqElement)
    requires
        a@ < q@,
        b@ < q@,
    ensures
        r@ == (a@ * b@) % (q@ as int),
        r@ < q@,
{
    proof {
        use_type_invariant(&q);
    }
    let qq = q.raw() as u64;
    assert(a.0 as int * b.0 as int <= u32::MAX as int * u32::MAX as int) by (nonlinear_arith)
        requires
            a.0 <= u32::MAX,
            b.0 <= u32::MAX,
    ;
    let product = a.0 as u64 * b.0 as u64;
    assert(product as int * q.mu as int <= u64::MAX as int * u64::MAX as int) by (nonlinear_arith)
        requires
            product <= u64::MAX,
            q.mu <= u64::MAX,
    ;
    let wide = product as u128 * q.mu as u128;
    let shifted = wide >> 64u32;
    assert(shifted == wide / 0x1_0000_0000_0000_0000u128) by (bit_vector)
        requires
            shifted == wide >> 64u32,
    ;
    let quotient_est = shifted as u64;
    proof {
        lemma_barrett_estimate(product as int, qq as int, q.mu as int, quotient_est as int);
    }
    let pre_reduced = product.wrapping_sub(quotient_est.wrapping_mul(qq));
    assert(pre_reduced == product - quotient_est * qq);
    let reduced = pre_reduced.wrapping_sub(qq);
    let needs_reduce = !ct_lt_u64(pre_reduced, qq);
    let out = ct_select_u64(pre_reduced, reduced, needs_reduce);
    proof {
        if needs_reduce {
            assert((quotient_est + 1) * qq == quotient_est * qq + qq) by (nonlinear_arith);
            lemma_fundamental_div_mod_converse(
                product as int,
                qq as int,
                quotient_est + 1,
                pre_reduced - qq,
            );
        } else {
            lemma_fundamental_div_mod_converse(
                product as int,
                qq as int,
                quotient_est as int,
                pre_reduced as int,
            );
        }
    }
    ZqElement(out as u32)
}

/// `<a, b> mod q`.
pub fn inner_product_mod(a: &[ZqElement], b: &[ZqElement], q: Modulus) -> (r: ZqElement)
    requires
        a@.len() == b@.len(),
        all_below(a@, q@),
        all_below(b@, q@),
    ensures
        r@ == dot(a@, b@) % (q@ as int),
        r@ < q@,
{
    let qq = q.raw();
    let n = a.len();
    let mut acc = ZqElement::zero();
    let mut i: usize = 0;
    proof {
        lemma_small_mod(0nat, qq as nat);
    }
    while i < n
        invariant
            n == a@.len(),
            n == b@.len(),
            i <= n,
            qq == q@,
            qq >= 2,
            all_below(a@, q@),
            all_below(b@, q@),
            acc@ == dot_prefix(a@, b@, i as int) % (qq as int),
            acc@ < qq,
        decreases n - i,
    {
        let prod = mul_mod(a[i], b[i], q);
        let ghost before = dot_prefix(a@, b@, i as int);
        acc = add_mod(acc, prod, q);
        proof {
            lemma_add_mod_noop(before, a@[i as int]@ * b@[i as int]@, qq as int);
            lemma_mod_twice(before, qq as int);
            lemma_mod_twice(a@[i as int]@ * b@[i as int]@, qq as int);
        }
        i = i + 1;
    }
    acc
}

/// `out[i] = (out[i] + rhs[i]) mod q` for every `i`.
pub fn add_assign_vec_mod(out: &mut [ZqElement], rhs: &[ZqElement], q: Modulus)
    requires
        old(out)@.len() == rhs@.len(),
        all_below(old(out)@, q@),
        all_below(rhs@, q@),
    ensures
        final(out)@.len() == old(out)@.len(),
        forall|i: int|
            0 <= i < rhs@.len() ==> (#[trigger] final(out)@[i])@ == (old(out)@[i]@ + rhs@[i]@) % (
            q@ as int),
        all_below(final(out)@, q@),
{
    let n = out.len();
    let mut i: usize = 0;
    while i < n
        invariant
            n == out@.len(),
            n == rhs@.len(),
            i <= n,
            all_below(out@, q@),
            all_below(rhs@, q@),
            forall|j: int|
                0 <= j < i ==> (#[trigger] out@[j])@ == (old(out)@[j]@ + rhs@[j]@) % (q@ as int),
            forall|j: int| i <= j < n ==> (#[trigger] out@[j]) == old(out)@[j],
        decreases n - i,
    {
        out[i] = add_mod(out[i], rhs[i], q);
        i = i + 1;
    }
}

/// Distance from `x` to `0` in `Z_q`, i.e. `min(x, q - x)`, in `[0, floor(q/2)]`.
pub fn distance_to_zero(x: ZqElement, q: Modulus) -> (r: u32)
    requires
        x@ < q@,
    ensures
        r == centered_distance(x@ as int, q@ as int),
        r <= q@ / 2,
{
    let other_way = q.raw() - x.0;
    let take_other_way = ct_lt_u32(other_way, x.0);
    ct_select_u32(x.0, other_way, take_other_way)
}


/// Subtraction undoes addition in `Z_q`:
/// `sub_mod(add_mod(a, b, q), b, q) == a` for representatives `a, b < q`.
pub proof fn lemma_sub_undoes_add(a: int, b: int, q: int)
    requires
        q > 0,
        0 <= a < q,
        0 <= b < q,
    ensures
        ((a + b) % q - b) % q == a,
{
    lemma_sub_mod_noop(a + b, b, q);
    lemma_mod_twice(a + b, q);
    lemma_small_mod(b as nat, q as nat);
    lemma_small_mod(a as nat, q as nat);
    lemma_sub_mod_noop(a + b, b, q);
    assert((a + b) - b == a);
}

} // verus!
