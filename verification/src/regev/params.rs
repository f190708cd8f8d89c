//! Parameter set for the Regev '05 LWE cryptosystem.
//!
//! Section 4 of Regev's LWE survey gives a parameter choice that guarantees
//! both security and correctness:
//!
//! ```text
//! modulus is a prime between dimension^2 and 2 * dimension^2
//! sample_count = 1.1 * dimension * log modulus
//! alpha = 1 / (sqrt(dimension) * (log dimension)^2)
//! ```
//!
//! This module checks the integer side of that choice and finds the modulus;
//! the real-valued formulas for `sample_count` and `alpha` are evaluated by the
//! caller, and `alpha` is carried here as the bit pattern of an IEEE-754
//! binary64 value.
use crate::regev::arith::{Modulus, ZqElement};
use vstd::arithmetic::div_mod::*;
use vstd::arithmetic::mul::*;
use vstd::prelude::*;

verus! {

#[derive(Clone, Copy, Debug)]
pub struct Dimension(pub usize);

#[derive(Clone, Copy, Debug)]
pub struct SampleCount(pub usize);

/// Gaussian noise parameter (the error has standard deviation
/// `alpha * modulus`), held as the bit pattern of its IEEE-754 binary64
/// encoding.
#[derive(Clone, Copy, Debug, PartialEq, Eq, Structural)]
pub struct Alpha(pub u64);

/// Why a parameter set was refused.
#[derive(Clone, Copy, Debug, PartialEq, Eq, Structural)]
pub enum ParamIssue {
    DimensionTooSmall,
    TooFewSamples,
    DimensionSquaredTooLarge,
    DoubleDimensionSquaredTooLarge,
    ModulusOutOfRange,
    ModulusNotPrime,
    AlphaNotPositiveFinite,
    DimensionTooLarge,
    NoPrimeAboveDimensionSquared,
}

/// The human-readable reason for each issue.
pub open spec fn issue_message(issue: ParamIssue) -> Seq<char> {
    match issue {
        ParamIssue::DimensionTooSmall => "dimension must be at least 2"@,
        ParamIssue::TooFewSamples => "sample_count must be at least dimension"@,
        ParamIssue::DimensionSquaredTooLarge => "dimension^2 does not fit in u32"@,
        ParamIssue::DoubleDimensionSquaredTooLarge => "2 * dimension^2 does not fit in u32"@,
        ParamIssue::ModulusOutOfRange => "modulus must lie in (dimension^2, 2 * dimension^2)"@,
        ParamIssue::ModulusNotPrime => "modulus must be prime"@,
        ParamIssue::AlphaNotPositiveFinite => "alpha must be finite and > 0"@,
        ParamIssue::DimensionTooLarge => "dimension does not fit in u32"@,
        ParamIssue::NoPrimeAboveDimensionSquared => "no prime above dimension^2 fits in u32"@,
    }
}

#[derive(Clone, Copy, Debug, PartialEq, Eq, Structural)]
pub struct ParamError {
    issue: ParamIssue,
}

impl ParamError {
    pub closed spec fn spec_issue(self) -> ParamIssue {
        self.issue
    }

    pub fn new(issue: ParamIssue) -> (e: Self)
        ensures
            e.spec_issue() == issue,
    {
        Self { issue }
    }

    pub fn issue(&self) -> (r: ParamIssue)
        ensures
            r == self.spec_issue(),
    {
        self.issue
    }

    /// The human-readable reason.
    pub fn message(&self) -> (r: &'static str)
        ensures
            r@ == issue_message(self.spec_issue()),
    {
        match self.issue {
            ParamIssue::DimensionTooSmall => "dimension must be at least 2",
            ParamIssue::TooFewSamples => "sample_count must be at least dimension",
            ParamIssue::DimensionSquaredTooLarge => "dimension^2 does not fit in u32",
            ParamIssue::DoubleDimensionSquaredTooLarge => "2 * dimension^2 does not fit in u32",
            ParamIssue::ModulusOutOfRange => "modulus must lie in (dimension^2, 2 * dimension^2)",
            ParamIssue::ModulusNotPrime => "modulus must be prime",
            ParamIssue::AlphaNotPositiveFinite => "alpha must be finite and > 0",
            ParamIssue::DimensionTooLarge => "dimension does not fit in u32",
            ParamIssue::NoPrimeAboveDimensionSquared => "no prime above dimension^2 fits in u32",
        }
    }
}

/// `n` is a prime number.
pub open spec fn is_prime_spec(n: int) -> bool {
    &&& n >= 2
    &&& forall|d: int| 2 <= d < n ==> #[trigger] (n % d) != 0
}

/// The binary64 value with bit pattern `bits` is finite and strictly positive:
/// sign bit clear, exponent field not all ones, and not `+0.0`.
pub open spec fn is_positive_finite_f64_bits(bits: u64) -> bool {
    0 < bits < 0x7ff0_0000_0000_0000
}

/// The first check of `LweParams::new` that the inputs fail, if any.
pub open spec fn params_issue(d: int, m: int, q: int, alpha: u64) -> Option<ParamIssue> {
    if d < 2 {
        Some(ParamIssue::DimensionTooSmall)
    } else if m < d {
        Some(ParamIssue::TooFewSamples)
    } else if d * d > u32::MAX {
        Some(ParamIssue::DimensionSquaredTooLarge)
    } else if 2 * (d * d) > u32::MAX {
        Some(ParamIssue::DoubleDimensionSquaredTooLarge)
    } else if q <= d * d || q >= 2 * (d * d) {
        Some(ParamIssue::ModulusOutOfRange)
    } else if !is_prime_spec(q) {
        Some(ParamIssue::ModulusNotPrime)
    } else if !is_positive_finite_f64_bits(alpha) {
        Some(ParamIssue::AlphaNotPositiveFinite)
    } else {
        None
    }
}

/// `saturating_mul` on `u32`: the product, or `u32::MAX` when it does not fit
/// (as std's documentation states).
pub assume_specification[ <u32>::saturating_mul ](x: u32, y: u32) -> (r: u32)
    ensures
        r == (if x * y > u32::MAX {
            u32::MAX as int
        } else {
            x * y
        }),
;

/// An odd number has no even divisor.
proof fn lemma_odd_has_no_even_divisor(n: int, m: int)
    requires
        n > 0,
        n % 2 == 1,
        m >= 2,
        m % 2 == 0,
    ensures
        n % m != 0,
{
    lemma_fundamental_div_mod(m, 2);
    lemma_mod_mod(n, 2, m / 2);
}

/// A composite `n` has a divisor `e` with `2 <= e` and `e * e <= n`.
proof fn lemma_small_divisor(n: int, m: int) -> (e: int)
    requires
        2 <= m < n,
        n % m == 0,
    ensures
        2 <= e,
        e * e <= n,
        n % e == 0,
{
    lemma_fundamental_div_mod(n, m);
    let k = n / m;
    assert(n == m * k);
    assert(k >= 2) by (nonlinear_arith)
        requires
            n == m * k,
            2 <= m < n,
    ;
    assert(n % k == 0) by {
        lemma_mod_multiples_basic(m, k);
        lemma_mul_is_commutative(m, k);
    }
    if m <= k {
        assert(m * m <= m * k) by (nonlinear_arith)
            requires
                2 <= m <= k,
        ;
        m
    } else {
        assert(k * k <= m * k) by (nonlinear_arith)
            requires
                2 <= k < m,
        ;
        k
    }
}

/// Primality is the absence of a factorization: `n` is prime exactly when
/// `n >= 2` and no product `x * y` of factors `x, y >= 2` equals `n`.
pub proof fn lemma_prime_iff_no_factorization(n: int)
    ensures
        is_prime_spec(n) <==> (n >= 2 && forall|x: int, y: int|
            2 <= x && 2 <= y ==> #[trigger] (x * y) != n),
{
    if is_prime_spec(n) {
        assert forall|x: int, y: int| 2 <= x && 2 <= y implies #[trigger] (x * y) != n by {
            if x * y == n {
                assert(x < n) by (nonlinear_arith)
                    requires
                        x * y == n,
                        2 <= x,
                        2 <= y,
                ;
                lemma_mod_multiples_basic(y, x);
                lemma_mul_is_commutative(x, y);
                assert(n % x == 0);
            }
        }
    }
    if n >= 2 && forall|x: int, y: int| 2 <= x && 2 <= y ==> #[trigger] (x * y) != n {
        assert forall|d: int| 2 <= d < n implies #[trigger] (n % d) != 0 by {
            if n % d == 0 {
                let e = lemma_small_divisor(n, d);
                lemma_fundamental_div_mod(n, e);
                let k = n / e;
                assert(n == e * k);
                assert(k >= 2) by (nonlinear_arith)
                    requires
                        n == e * k,
                        e * e <= n,
                        2 <= e,
                ;
                assert((e * k) != n);
            }
        }
    }
}

/// Trial division by 2 and then by odd numbers up to `sqrt(n)`.
pub fn is_prime(n: u32) -> (r: bool)
    ensures
        r == is_prime_spec(n as int),
{
    if n < 2 {
        return false;
    }
    if n.is_multiple_of(2) {
        if n != 2 {
            assert(n % 2 == 0 && 2 < n);
        }
        return n == 2;
    }
    let mut d = 3u32;
    while d.saturating_mul(d) <= n
        invariant
            n >= 3,
            n % 2 == 1,
            3 <= d <= 65537,
            d % 2 == 1,
            forall|m: int| 2 <= m < d ==> #[trigger] (n as int % m) != 0,
        decreases 65537 - d,
    {
        if d >= 65536 {
            assert(d * d > u32::MAX) by (nonlinear_arith)
                requires
                    d >= 65536,
            ;
            assert(u32::MAX as int % 3 == 0);
            assert(n as int % 3 != 0);
        }
        if n.is_multiple_of(d) {
            assert(2 <= d < n) by {
                if d >= n {
                    assert(d * d > n as int) by (nonlinear_arith)
                        requires
                            d >= n,
                            n >= 3,
                    ;
                }
            }
            return false;
        }
        proof {
            lemma_odd_has_no_even_divisor(n as int, d + 1);
        }
        d = d + 2;
    }
    proof {
        assert(d * d > n as int);
        assert forall|m: int| 2 <= m < n implies #[trigger] (n as int % m) != 0 by {
            if n as int % m == 0 {
                let e = lemma_small_divisor(n as int, m);
                if e >= d {
                    assert(e * e >= d * d) by (nonlinear_arith)
                        requires
                            e >= d,
                            d >= 3,
                    ;
                }
                assert(n as int % e != 0);
            }
        }
    }
    true
}


/// The least prime above `lo` that fits in a `u32`, if there is one.
fn next_prime_above(lo: u32) -> (r: Option<u32>)
    ensures
        match r {
            Some(p) => {
                &&& lo < p
                &&& is_prime_spec(p as int)
                &&& forall|k: int| lo < k < p ==> !#[trigger] is_prime_spec(k)
            },
            None => forall|k: int| lo < k <= u32::MAX ==> !#[trigger] is_prime_spec(k),
        },
{
    if lo == u32::MAX {
        return None;
    }
    let mut k = lo + 1;
    while !is_prime(k)
        invariant
            lo < k,
            forall|j: int| lo < j < k ==> !#[trigger] is_prime_spec(j),
        decreases u32::MAX - k,
    {
        if k == u32::MAX {
            return None;
        }
        k = k + 1;
    }
    Some(k)
}

/// The modulus of the survey's parameter set for `dimension`: the least prime
/// above `dimension^2`.
pub open spec fn default_modulus_spec(dimension: int) -> Result<int, ParamIssue> {
    if dimension > u32::MAX {
        Err(ParamIssue::DimensionTooLarge)
    } else if dimension * dimension > u32::MAX {
        Err(ParamIssue::DimensionSquaredTooLarge)
    } else if exists|p: int| dimension * dimension < p <= u32::MAX && is_prime_spec(p) {
        Ok(
            choose|p: int|
                {
                    &&& dimension * dimension < p <= u32::MAX
                    &&& is_prime_spec(p)
                    &&& forall|k: int| dimension * dimension < k < p ==> !is_prime_spec(k)
                },
        )
    } else {
        Err(ParamIssue::NoPrimeAboveDimensionSquared)
    }
}

/// A valid parameter set: the dimension, sample count and prime modulus of
/// an LWE instance together with its noise parameter.
#[derive(Clone, Copy, Debug)]
pub struct LweParams {
    dimension: Dimension,
    sample_count: SampleCount,
    modulus: Modulus,
    alpha: Alpha,
}

impl LweParams {
    #[verifier::type_invariant]
    closed spec fn inv(self) -> bool {
        params_issue(
            self.dimension.0 as int,
            self.sample_count.0 as int,
            self.modulus@ as int,
            self.alpha.0,
        ) is None
    }

    pub closed spec fn spec_dimension(self) -> nat {
        self.dimension.0 as nat
    }

    pub closed spec fn spec_sample_count(self) -> nat {
        self.sample_count.0 as nat
    }

    pub closed spec fn spec_modulus(self) -> Modulus {
        self.modulus
    }

    pub closed spec fn spec_alpha(self) -> u64 {
        self.alpha.0
    }

    /// This checks correct construction, not security: it is up to callers to
    /// choose secure parameters.
    pub fn new(
        dimension: Dimension,
        sample_count: SampleCount,
        modulus: Modulus,
        alpha: Alpha,
    ) -> (r: Result<Self, ParamError>)
        ensures
            match params_issue(dimension.0 as int, sample_count.0 as int, modulus@ as int, alpha.0) {
                Some(issue) => r is Err && r->Err_0.spec_issue() == issue,
                None => r is Ok && r->Ok_0.spec_dimension() == dimension.0 && r->Ok_0.spec_sample_count()
                    == sample_count.0 && r->Ok_0.spec_modulus() == modulus && r->Ok_0.spec_alpha()
                    == alpha.0,
            },
            r is Ok <==> {
                &&& dimension.0 >= 2
                &&& sample_count.0 >= dimension.0
                &&& 2 * (dimension.0 * dimension.0) <= u32::MAX
                &&& dimension.0 * dimension.0 < modulus@
                &&& modulus@ < 2 * (dimension.0 * dimension.0)
                &&& is_prime_spec(modulus@ as int)
                &&& 0 < alpha.0 < 0x7ff0_0000_0000_0000
            },
            dimension.0 < 2 ==> r is Err && r->Err_0.spec_issue() == ParamIssue::DimensionTooSmall,
    {
        if dimension.0 < 2 {
            return Err(ParamError::new(ParamIssue::DimensionTooSmall));
        }
        if sample_count.0 < dimension.0 {
            return Err(ParamError::new(ParamIssue::TooFewSamples));
        }
        let dim_sq = match u32::try_from(dimension.0) {
            Ok(d) => match d.checked_mul(d) {
                Some(sq) => sq,
                None => {
                    return Err(ParamError::new(ParamIssue::DimensionSquaredTooLarge));
                },
            },
            Err(_) => {
                proof {
                    assert(dimension.0 * dimension.0 > u32::MAX) by (nonlinear_arith)
                        requires
                            dimension.0 > u32::MAX,
                    ;
                }
                return Err(ParamError::new(ParamIssue::DimensionSquaredTooLarge));
            },
        };
        let two_dim_sq = match dim_sq.checked_mul(2) {
            Some(x) => x,
            None => {
                return Err(ParamError::new(ParamIssue::DoubleDimensionSquaredTooLarge));
            },
        };
        let q = modulus.raw();
        if q <= dim_sq || q >= two_dim_sq {
            return Err(ParamError::new(ParamIssue::ModulusOutOfRange));
        }
        if !is_prime(q) {
            return Err(ParamError::new(ParamIssue::ModulusNotPrime));
        }
        if !(0 < alpha.0 && alpha.0 < 0x7ff0_0000_0000_0000u64) {
            return Err(ParamError::new(ParamIssue::AlphaNotPositiveFinite));
        }
        Ok(Self { dimension, sample_count, modulus, alpha })
    }

    /// The modulus of the parameter set from section 4 of the survey for
    /// `dimension`: the least prime above `dimension^2`. The sample count
    /// `ceil(1.1 * dimension * log2(modulus))` and the noise parameter
    /// `1 / (sqrt(dimension) * log2(dimension)^2)` are real-valued and are
    /// computed from it by the caller, which then calls `LweParams::new`.
    pub fn default_modulus(dimension: usize) -> (r: Result<Modulus, ParamError>)
        ensures
            match default_modulus_spec(dimension as int) {
                Ok(q) => r is Ok && r->Ok_0@ == q,
                Err(issue) => r is Err && r->Err_0.spec_issue() == issue,
            },
    {
        let dim_u32 = match u32::try_from(dimension) {
            Ok(d) => d,
            Err(_) => {
                return Err(ParamError::new(ParamIssue::DimensionTooLarge));
            },
        };
        let dim_sq = match dim_u32.checked_mul(dim_u32) {
            Some(sq) => sq,
            None => {
                return Err(ParamError::new(ParamIssue::DimensionSquaredTooLarge));
            },
        };
        match next_prime_above(dim_sq) {
            Some(p) => {
                proof {
                    let ghost d = dimension as int;
                    assert(d * d < p <= u32::MAX && is_prime_spec(p as int));
                    let c = choose|c: int|
                        {
                            &&& d * d < c <= u32::MAX
                            &&& is_prime_spec(c)
                            &&& forall|k: int| d * d < k < c ==> !is_prime_spec(k)
                        };
                    assert(d * d < p as int && is_prime_spec(p as int) && forall|k: int|
                        d * d < k < p ==> !is_prime_spec(k));
                    if c < p {
                        assert(!is_prime_spec(c));
                    }
                    if c > p {
                        assert(!is_prime_spec(p as int));
                    }
                }
                Ok(Modulus::new(p))
            },
            None => Err(ParamError::new(ParamIssue::NoPrimeAboveDimensionSquared)),
        }
    }

    pub fn dimension(&self) -> (r: Dimension)
        ensures
            r.0 == self.spec_dimension(),
            r.0 >= 2,
    {
        proof {
            use_type_invariant(self);
        }
        self.dimension
    }

    pub fn sample_count(&self) -> (r: SampleCount)
        ensures
            r.0 == self.spec_sample_count(),
            r.0 >= self.spec_dimension(),
    {
        proof {
            use_type_invariant(self);
        }
        self.sample_count
    }

    pub fn modulus(&self) -> (r: Modulus)
        ensures
            r == self.spec_modulus(),
            self.spec_dimension() * self.spec_dimension() < r@,
            r@ < 2 * (self.spec_dimension() * self.spec_dimension()),
            is_prime_spec(r@ as int),
    {
        proof {
            use_type_invariant(self);
        }
        self.modulus
    }

    pub fn alpha(&self) -> (r: Alpha)
        ensures
            r.0 == self.spec_alpha(),
            is_positive_finite_f64_bits(r.0),
    {
        proof {
            use_type_invariant(self);
        }
        self.alpha
    }
}

} // verus!
