//! Arithmetic in `Z_q` for a power-of-two modulus `q = 2^bits`.
use vstd::arithmetic::div_mod::*;
use vstd::arithmetic::power2::*;
use vstd::bits::*;
use rand::RngExt;
use vstd::prelude::*;

verus! {

/// `q = 2^bits` with `bits` in `[2, 64]`, together with the mask `q - 1`.
#[derive(Clone, Copy, Debug, PartialEq, Eq, Structural)]
pub struct Modulus {
    bits: u32,
    mask: u64,
}

/// Why a modulus was refused.
#[derive(Clone, Copy, Debug, PartialEq, Eq, Structural)]
pub struct ModulusError {
    bits: u32,
}

impl ModulusError {
    pub closed spec fn spec_bits(self) -> u32 {
        self.bits
    }

    /// The refused exponent.
    pub fn bits(&self) -> (r: u32)
        ensures
            r == self.spec_bits(),
    {
        self.bits
    }

    /// The human-readable reason.
    pub fn message(&self) -> (r: &'static str)
        ensures
            r@ == "bits must be in [2, 64]"@,
    {
        "bits must be in [2, 64]"
    }
}

impl View for Modulus {
    type V = nat;

    closed spec fn view(&self) -> nat {
        pow2(self.bits as nat)
    }
}

/// `(x + k * 2^64) mod 2^b == x mod 2^b` for `b <= 64`: reducing mod `2^64`
/// first does not change a residue mod `2^b`.
proof fn lemma_wrap_invisible(x: int, k: int, b: nat)
    requires
        b <= 64,
    ensures
        (x + k * pow2(64)) % (pow2(b) as int) == x % (pow2(b) as int),
{
    lemma_pow2_adds(b, (64 - b) as nat);
    lemma_pow2_pos(b);
    let q = pow2(b) as int;
    let r = pow2((64 - b) as nat) as int;
    assert(k * pow2(64) == q * (k * r)) by {
        vstd::arithmetic::mul::lemma_mul_is_associative(k, r, q);
        vstd::arithmetic::mul::lemma_mul_is_commutative(k * r, q);
        vstd::arithmetic::mul::lemma_mul_is_commutative(r, q);
        vstd::arithmetic::mul::lemma_mul_is_associative(k, q, r);
    }
    lemma_mod_multiples_vanish(k * r, x, q);
}

impl Modulus {
    #[verifier::type_invariant]
    closed spec fn inv(self) -> bool {
        &&& 2 <= self.bits <= 64
        &&& self.mask as nat == low_bits_mask(self.bits as nat)
    }

    /// The exponent `bits` of `q = 2^bits`.
    pub closed spec fn spec_bits(self) -> nat {
        self.bits as nat
    }

    /// `q` is `2^bits`.
    pub proof fn lemma_view(self)
        ensures
            self@ == pow2(self.spec_bits()),
            self@ > 0,
    {
        lemma_pow2_pos(self.bits as nat);
    }

    pub fn new(bits: u32) -> (r: Result<Self, ModulusError>)
        ensures
            r is Ok == (2 <= bits <= 64),
            r is Ok ==> r->Ok_0.spec_bits() == bits,
            r is Err ==> r->Err_0.spec_bits() == bits,
    {
        if bits < 2 || bits > 64 {
            return Err(ModulusError { bits });
        }
        let mask = u64::MAX >> (64 - bits);
        proof {
            let b = bits as nat;
            lemma2_to64_rest();
            if bits < 64 {
                let s = (64 - bits) as u64;
                lemma_u64_shr_is_div(u64::MAX, s);
                lemma_pow2_adds(b, s as nat);
                lemma_pow2_pos(b);
                lemma_pow2_pos(s as nat);
                let d = pow2(s as nat) as int;
                let qb = pow2(b) as int;
                assert(u64::MAX as int == qb * d - 1);
                assert(u64::MAX as int == (qb - 1) * d + (d - 1)) by (nonlinear_arith)
                    requires
                        u64::MAX as int == qb * d - 1,
                ;
                lemma_fundamental_div_mod_converse(u64::MAX as int, d, qb - 1, d - 1);
            } else {
                assert(u64::MAX >> 0u32 == u64::MAX) by (bit_vector);
            }
            lemma_low_bits_mask_unfold(b);
        }
        Ok(Self { bits, mask })
    }

    pub fn bits(self) -> (r: u32)
        ensures
            r == self.spec_bits(),
            2 <= r <= 64,
    {
        proof {
            use_type_invariant(&self);
        }
        self.bits
    }

    pub fn q(self) -> (r: u128)
        ensures
            r == self@,
    {
        proof {
            use_type_invariant(&self);
        }
        let r = 1u128 << self.bits;
        proof {
            let b = self.bits;
            if b < 64 {
                lemma_u64_pow2_no_overflow(b as nat);
                lemma_u64_shl_is_mul(1u64, b as u64);
                assert((1u128 << b) == (1u64 << (b as u64)) as u128) by (bit_vector)
                    requires
                        b < 64,
                ;
            } else {
                lemma2_to64_rest();
                assert((1u128 << 64u32) == 0x1_0000_0000_0000_0000u128) by (bit_vector);
            }
        }
        r
    }
}

impl TryFrom<u32> for Modulus {
    type Error = ModulusError;

    fn try_from(bits: u32) -> (r: Result<Self, Self::Error>) {
        let r = Self::new(bits);
        proof {
            if let Ok(m) = r {
                use_type_invariant(&m);
            }
        }
        r
    }
}

impl vstd::std_specs::convert::TryFromSpecImpl<u32> for Modulus {
    open spec fn obeys_try_from_spec() -> bool {
        true
    }

    closed spec fn try_from_spec(bits: u32) -> Result<Self, Self::Error> {
        if 2 <= bits <= 64 {
            Ok(Modulus { bits, mask: low_bits_mask(bits as nat) as u64 })
        } else {
            Err(ModulusError { bits })
        }
    }
}

/// `Modulus::try_from(bits)` is `Modulus::new(bits)`: it succeeds exactly
/// for `bits` in `[2, 64]`.
pub proof fn lemma_modulus_try_from(bits: u32)
    ensures
        <Modulus as vstd::std_specs::convert::TryFromSpec<u32>>::try_from_spec(bits) is Ok == (2
            <= bits <= 64),
        2 <= bits <= 64 ==> <Modulus as vstd::std_specs::convert::TryFromSpec<
            u32,
        >>::try_from_spec(bits)->Ok_0.spec_bits() == bits,
        !(2 <= bits <= 64) ==> <Modulus as vstd::std_specs::convert::TryFromSpec<
            u32,
        >>::try_from_spec(bits)->Err_0.spec_bits() == bits,
{
}

impl From<Modulus> for u32 {
    fn from(m: Modulus) -> (r: u32) {
        m.bits
    }
}

impl vstd::std_specs::convert::FromSpecImpl<Modulus> for u32 {
    open spec fn obeys_from_spec() -> bool {
        true
    }

    open spec fn from_spec(m: Modulus) -> u32 {
        m.spec_bits() as u32
    }
}

pub trait Modulo {
    /// `self mod q`.
    fn modulo(self, q: Modulus) -> u64;
}

impl Modulo for u64 {
    fn modulo(self, q: Modulus) -> (r: u64)
        ensures
            r == self as int % (q@ as int),
    {
        proof {
            use_type_invariant(&q);
            lemma_low_bits_mask_unfold(q.bits as nat);
            if q.bits < 64 {
                lemma_u64_low_bits_mask_is_mod(self, q.bits as nat);
                lemma_u64_pow2_no_overflow(q.bits as nat);
            } else {
                lemma2_to64_rest();
                assert(self & 0xffff_ffff_ffff_ffffu64 == self) by (bit_vector);
                lemma_small_mod(self as nat, pow2(64));
            }
        }
        self & q.mask
    }
}

/// An element of `Z_q`, held as a `u64` representative.
#[derive(Clone, Copy, Debug, PartialEq, Eq, Structural)]
pub struct ZqElement(u64);

impl View for ZqElement {
    type V = u64;

    closed spec fn view(&self) -> u64 {
        self.0
    }
}

/// `u64::wrapping_neg`: `-x` modulo `2^64`, as std's documentation states.
pub assume_specification[ <u64>::wrapping_neg ](x: u64) -> (r: u64)
    ensures
        r == (if x == 0 {
            0
        } else {
            0x1_0000_0000_0000_0000 - x
        }),
;

/// `rand::RngExt::random::<u64>`: a uniformly distributed `u64`. Nothing is
/// stated of the value, which depends on the generator's state.
#[verifier::external_body]
fn random_u64<R: rand::CryptoRng>(rng: &mut R) -> u64 {
    rng.random::<u64>()
}

impl Default for ZqElement {
    fn default() -> (r: Self)
        ensures
            r@ == 0,
    {
        Self::zero()
    }
}

/// The centered representative of `x` in `[-q/2, q/2)`, for `0 <= x < q`.
pub open spec fn centered(x: int, q: int) -> int {
    if x < q / 2 {
        x
    } else {
        x - q
    }
}

/// The centered lift of an element below an even modulus `q` lies in
/// `[-q/2, q/2)` and reduces back to the element:
/// `from_i64(x.to_centered(q), q) == x`.
pub proof fn lemma_centered_round_trip(x: int, q: int)
    requires
        q >= 2,
        q % 2 == 0,
        0 <= x < q,
    ensures
        -(q / 2) <= centered(x, q) < q / 2,
        centered(x, q) % q == x,
{
    if x < q / 2 {
        lemma_small_mod(x as nat, q as nat);
    } else {
        lemma_fundamental_div_mod_converse(x - q, q, -1, x);
    }
}

impl ZqElement {
    /// Two elements are equal exactly when their representatives are.
    pub proof fn lemma_view_eq(a: ZqElement, b: ZqElement)
        ensures
            (a@ == b@) == (a == b),
    {
    }

    /// The element `0`.
    pub fn zero() -> (r: Self)
        ensures
            r@ == 0,
    {
        Self(0)
    }

    /// The element with representative `x`, whichever modulus it is meant
    /// for (as deserialization produces it).
    pub fn from_raw(x: u64) -> (r: Self)
        ensures
            r@ == x,
    {
        Self(x)
    }

    pub fn from_u64(x: u64, q: Modulus) -> (r: Self)
        ensures
            r@ == x as int % (q@ as int),
    {
        Self(x.modulo(q))
    }

    pub fn from_i64(x: i64, q: Modulus) -> (r: Self)
        ensures
            r@ == x as int % (q@ as int),
    {
        let w = x as u64;
        proof {
            assert(w as int == if x >= 0 {
                x as int
            } else {
                x + 0x1_0000_0000_0000_0000
            }) by (bit_vector)
                requires
                    w == x as u64,
            ;
            use_type_invariant(&q);
            lemma2_to64_rest();
            if x < 0 {
                lemma_wrap_invisible(x as int, 1, q.bits as nat);
            }
        }
        Self(w.modulo(q))
    }

    /// A uniformly random element.
    pub fn random<R: rand::CryptoRng>(rng: &mut R, q: Modulus) -> (r: Self)
        ensures
            r@ < q@,
    {
        let x = random_u64(rng);
        proof {
            q.lemma_view();
        }
        Self::from_u64(x, q)
    }

    pub fn raw(self) -> (r: u64)
        ensures
            r == self@,
    {
        self.0
    }

    /// Centered lift: the representative of this element in `[-q/2, q/2)`
    /// (for an element below `q`; larger ones are wrapped to `i64`).
    pub fn to_centered(self, q: Modulus) -> (r: i64)
        ensures
            r == centered(self@ as int, q@ as int) as i64,
            self@ < q@ ==> r as int == centered(self@ as int, q@ as int),
            self@ < q@ ==> -((q@ as int) / 2) <= r < (q@ as int) / 2,
    {
        let x = self.0 as i128;
        let qq = q.q() as i128;
        proof {
            use_type_invariant(&q);
            lemma_pow2_pos(q.bits as nat);
            lemma2_to64_rest();
            if q.bits < 64 {
                lemma_pow2_strictly_increases(q.bits as nat, 64);
            }
            assert(pow2(q.bits as nat) <= pow2(64)) by {
                if q.bits < 64 {
                    lemma_pow2_strictly_increases(q.bits as nat, 64);
                }
            }
            lemma_pow2_unfold(q.bits as nat);
            if self@ < q@ {
                if (self@ as int) < (q@ as int) / 2 {
                    assert(self@ < pow2(63)) by {
                        lemma_pow2_unfold(64);
                    }
                } else {
                    assert(self@ - q@ >= -(pow2(63) as int)) by {
                        lemma_pow2_unfold(64);
                    }
                }
            }
        }
        if x < qq / 2 {
            x as i64
        } else {
            (x - qq) as i64
        }
    }
}

/// `(a + b) mod q`.
pub fn add_mod(a: ZqElement, b: ZqElement, q: Modulus) -> (r: ZqElement)
    ensures
        r@ == (a@ + b@) % (q@ as int),
{
    let w = a.0.wrapping_add(b.0);
    proof {
        use_type_invariant(&q);
        lemma2_to64_rest();
        if a.0 + b.0 > u64::MAX {
            lemma_wrap_invisible(a.0 + b.0, -1, q.bits as nat);
        }
    }
    ZqElement(w.modulo(q))
}

/// `(a - b) mod q`.
pub fn sub_mod(a: ZqElement, b: ZqElement, q: Modulus) -> (r: ZqElement)
    ensures
        r@ == (a@ - b@) % (q@ as int),
{
    let w = a.0.wrapping_sub(b.0);
    proof {
        use_type_invariant(&q);
        lemma2_to64_rest();
        if a.0 - b.0 < 0 {
            lemma_wrap_invisible(a.0 - b.0, 1, q.bits as nat);
        }
    }
    ZqElement(w.modulo(q))
}

/// `-a mod q`.
pub fn neg_mod(a: ZqElement, q: Modulus) -> (r: ZqElement)
    ensures
        r@ == (-a@) % (q@ as int),
{
    let w = a.0.wrapping_neg();
    proof {
        use_type_invariant(&q);
        lemma2_to64_rest();
        if a.0 != 0 {
            lemma_wrap_invisible(-a.0, 1, q.bits as nat);
        }
    }
    ZqElement(w.modulo(q))
}

/// `(a * b) mod q`.
pub fn mul_mod(a: ZqElement, b: ZqElement, q: Modulus) -> (r: ZqElement)
    ensures
        r@ == (a@ * b@) % (q@ as int),
{
    let w = a.0.wrapping_mul(b.0);
    proof {
        use_type_invariant(&q);
        lemma2_to64_rest();
        let p = a.0 as int * b.0 as int;
        lemma_fundamental_div_mod(p, pow2(64) as int);
        lemma_wrap_invisible(p % pow2(64) as int, p / pow2(64) as int, q.bits as nat);
    }
    ZqElement(w.modulo(q))
}

} // verus!
