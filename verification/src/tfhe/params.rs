//! GLWE parameter sets.
//!
//! The Gaussian standard deviation `sigma` is real-valued; it is carried here
//! as the bit pattern of its IEEE-754 binary64 encoding.
use crate::tfhe::modq::Modulus;
use vstd::arithmetic::power2::*;
use vstd::bits::*;
use vstd::prelude::*;

verus! {

/// `n` is a power of two.
pub open spec fn is_power_of_two(n: nat) -> bool {
    exists|e: nat| n == pow2(e)
}

/// The binary64 value with bit pattern `bits` is finite and `>= 0.0`:
/// either the sign bit is clear and the exponent field is not all ones, or it
/// is `-0.0`.
pub open spec fn is_finite_nonnegative_f64_bits(bits: u64) -> bool {
    bits < 0x7ff0_0000_0000_0000 || bits == 0x8000_0000_0000_0000
}

/// The conditions `GlweParams::new` asks of its arguments.
pub open spec fn glwe_params_valid(
    k: nat,
    n: nat,
    q: Modulus,
    plaintext_bits: nat,
    sigma_bits: u64,
) -> bool {
    &&& k >= 1
    &&& is_power_of_two(n)
    &&& 1 <= plaintext_bits < q.spec_bits()
    &&& is_finite_nonnegative_f64_bits(sigma_bits)
}

/// Parameters for GLWE over `Z_q[X]/(X^N + 1)`.
///
/// Plaintexts live in `Z_p` with `p = 2^plaintext_bits`, encoded into the top
/// bits of `Z_q` by scaling with `delta = q/p`.
#[derive(Clone, Copy, Debug)]
pub struct GlweParams {
    k: usize,
    n: usize,
    q: Modulus,
    plaintext_bits: u32,
    sigma_bits: u64,
}

impl GlweParams {
    #[verifier::type_invariant]
    closed spec fn inv(self) -> bool {
        glwe_params_valid(
            self.k as nat,
            self.n as nat,
            self.q,
            self.plaintext_bits as nat,
            self.sigma_bits,
        )
    }

    pub closed spec fn spec_k(self) -> nat {
        self.k as nat
    }

    pub closed spec fn spec_n(self) -> nat {
        self.n as nat
    }

    pub closed spec fn spec_q(self) -> Modulus {
        self.q
    }

    pub closed spec fn spec_plaintext_bits(self) -> nat {
        self.plaintext_bits as nat
    }

    pub closed spec fn spec_sigma_bits(self) -> u64 {
        self.sigma_bits
    }

    /// `sigma_bits` is the binary64 bit pattern of the noise standard deviation.
    pub fn new(k: usize, n: usize, q: Modulus, plaintext_bits: u32, sigma_bits: u64) -> (r: Self)
        requires
            glwe_params_valid(k as nat, n as nat, q, plaintext_bits as nat, sigma_bits),
        ensures
            r.spec_k() == k,
            r.spec_n() == n,
            r.spec_q() == q,
            r.spec_plaintext_bits() == plaintext_bits,
            r.spec_sigma_bits() == sigma_bits,
    {
        Self { k, n, q, plaintext_bits, sigma_bits }
    }

    /// Number of secret polynomials.
    pub fn k(&self) -> (r: usize)
        ensures
            r == self.spec_k(),
            r >= 1,
    {
        proof {
            use_type_invariant(self);
        }
        self.k
    }

    /// Ring degree `N`.
    pub fn n(&self) -> (r: usize)
        ensures
            r == self.spec_n(),
            is_power_of_two(r as nat),
    {
        proof {
            use_type_invariant(self);
        }
        self.n
    }

    pub fn q(&self) -> (r: Modulus)
        ensures
            r == self.spec_q(),
            1 <= self.spec_plaintext_bits() < r.spec_bits(),
    {
        proof {
            use_type_invariant(self);
        }
        self.q
    }

    /// The bit pattern of the noise standard deviation.
    pub fn sigma(&self) -> (r: u64)
        ensures
            r == self.spec_sigma_bits(),
            is_finite_nonnegative_f64_bits(r),
    {
        proof {
            use_type_invariant(self);
        }
        self.sigma_bits
    }

    /// Plaintext modulus `p = 2^plaintext_bits`.
    pub fn p(&self) -> (r: u64)
        ensures
            r == pow2(self.spec_plaintext_bits()),
    {
        proof {
            use_type_invariant(self);
        }
        let bits = self.q.bits();
        proof {
            assert(self.plaintext_bits < bits);
            lemma_u64_pow2_no_overflow(self.plaintext_bits as nat);
            lemma_u64_shl_is_mul(1u64, self.plaintext_bits as u64);
        }
        1u64 << self.plaintext_bits
    }

    /// `delta = q/p`, the scaling factor between plaintext and ciphertext space.
    pub fn delta(&self) -> (r: u64)
        ensures
            r == pow2((self.spec_q().spec_bits() - self.spec_plaintext_bits()) as nat),
            r * pow2(self.spec_plaintext_bits()) == self.spec_q()@,
    {
        proof {
            use_type_invariant(self);
        }
        let bits = self.q.bits();
        let shift = bits - self.plaintext_bits;
        proof {
            lemma_u64_pow2_no_overflow(shift as nat);
            lemma_u64_shl_is_mul(1u64, shift as u64);
            lemma_pow2_adds(shift as nat, self.plaintext_bits as nat);
            self.q.lemma_view();
        }
        1u64 << shift
    }
}

/// Toy size: `q = 2^6`, `p = 2^2`, `N = 4`, `k = 2`, no noise, so results can
/// be traced by hand.
pub fn toy() -> (r: GlweParams)
    ensures
        r.spec_k() == 2,
        r.spec_n() == 4,
        r.spec_q().spec_bits() == 6,
        r.spec_plaintext_bits() == 2,
        r.spec_sigma_bits() == 0,
{
    let q = Modulus::new(6).unwrap();
    proof {
        lemma2_to64();
        assert(4 == pow2(2));
    }
    GlweParams::new(2, 4, q, 2, 0)
}

/// Realistically shaped and, most probably, insecure parameters:
/// `q = 2^64`, `p = 2^8`, `N = 256`, `k = 2`, `sigma = 2^36`.
pub fn test_default() -> (r: GlweParams)
    ensures
        r.spec_k() == 2,
        r.spec_n() == 256,
        r.spec_q().spec_bits() == 64,
        r.spec_plaintext_bits() == 8,
        r.spec_sigma_bits() == 0x4230_0000_0000_0000,
{
    let q = Modulus::new(64).unwrap();
    proof {
        lemma2_to64();
        assert(256 == pow2(8));
    }
    GlweParams::new(2, 256, q, 8, 0x4230_0000_0000_0000)
}

} // verus!
