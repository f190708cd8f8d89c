//! Regev's public-key encryption of single bits, with homomorphic addition
//! and subtraction.
//!
//! Uniform elements and the coins of encryption are drawn here through
//! `rand`. The noise of key generation is a rounded real-valued Gaussian, so
//! key generation takes the secret, the uniform rows and the noise values the
//! caller drew, and builds the keys from them.
use crate::finite_sum::sum;
use crate::regev::arith::{
    add_mod,
    all_below,
    centered_distance,
    distance_to_zero,
    dot,
    inner_product_mod,
    sub_mod,
    Modulus,
    ZqElement,
};
use crate::regev::params::LweParams;
use vstd::arithmetic::div_mod::*;
use vstd::arithmetic::mul::*;
use vstd::layout::size_of;
use rand::RngExt;
use vstd::prelude::*;

verus! {

/// An LWE sample `(a, b)`; a ciphertext has the same shape.
#[derive(Debug, PartialEq, Eq)]
pub struct LweSample {
    a: Vec<ZqElement>,
    b: ZqElement,
}

pub type Ciphertext = LweSample;

impl LweSample {
    /// The vector part `a`.
    pub closed spec fn mask(self) -> Seq<ZqElement> {
        self.a@
    }

    /// The scalar part `b`.
    pub closed spec fn body(self) -> ZqElement {
        self.b
    }

    /// The sample `(a, b)`.
    pub fn from_parts(a: Vec<ZqElement>, b: ZqElement) -> (r: Self)
        ensures
            r.mask() == a@,
            r.body() == b,
    {
        LweSample { a, b }
    }

    /// The vector part `a`.
    pub fn mask_elems(&self) -> (r: &[ZqElement])
        ensures
            r@ == self.mask(),
    {
        self.a.as_slice()
    }

    /// The scalar part `b`.
    pub fn body_elem(&self) -> (r: ZqElement)
        ensures
            r == self.body(),
    {
        self.b
    }

    /// Bytes in the ciphertext data, not counting Vec/struct overhead.
    pub fn data_bytes(&self) -> (r: usize)
        requires
            (self.mask().len() + 1) * size_of::<ZqElement>() <= usize::MAX,
        ensures
            r == (self.mask().len() + 1) * size_of::<ZqElement>(),
    {
        let elem = std::mem::size_of::<ZqElement>();
        assert((self.a@.len() + 1) * elem == self.a@.len() * elem + elem) by (nonlinear_arith);
        assert(self.a@.len() * elem <= (self.a@.len() + 1) * elem) by (nonlinear_arith);
        self.a.len() * elem + elem
    }
}

/// A copy of `v`, element by element.
pub fn copy_elems(v: &[ZqElement]) -> (r: Vec<ZqElement>)
    ensures
        r@ == v@,
{
    let mut out: Vec<ZqElement> = Vec::with_capacity(v.len());
    let mut i: usize = 0;
    while i < v.len()
        invariant
            i <= v@.len(),
            out@ == v@.subrange(0, i as int),
        decreases v@.len() - i,
    {
        out.push(v[i]);
        i = i + 1;
    }
    out
}

impl Clone for LweSample {
    fn clone(&self) -> (r: Self)
        ensures
            r.mask() == self.mask(),
            r.body() == self.body(),
    {
        LweSample { a: copy_elems(self.a.as_slice()), b: self.b }
    }
}

/// `ct` has dimension `n` and all its entries are representatives mod `q`.
pub open spec fn sample_fits(ct: LweSample, n: nat, q: u32) -> bool {
    &&& ct.mask().len() == n
    &&& all_below(ct.mask(), q)
    &&& ct.body()@ < q
}

/// `sum_{i < k, takes[i]} samples[i].a[j]` over the integers.
pub open spec fn selected_mask_sum(samples: Seq<LweSample>, takes: Seq<bool>, k: int, j: int) -> int {
    sum(
        |i: int|
            if takes[i] {
                samples[i].mask()[j]@ as int
            } else {
                0
            },
        k,
    )
}

/// `sum_{i < k, takes[i]} samples[i].b` over the integers.
pub open spec fn selected_body_sum(samples: Seq<LweSample>, takes: Seq<bool>, k: int) -> int {
    sum(
        |i: int|
            if takes[i] {
                samples[i].body()@ as int
            } else {
                0
            },
        k,
    )
}

/// `floor(q / 2)`, the encoding of the bit `1`.
pub open spec fn half(q: int) -> int {
    q / 2
}

/// The encoding of a bit in `Z_q`.
pub open spec fn encode_bit(bit: bool, q: int) -> int {
    if bit {
        half(q)
    } else {
        0
    }
}

/// The phase `b - <a, s> mod q` of a sample under the secret `s`.
pub open spec fn phase(ct: LweSample, s: Seq<ZqElement>, q: int) -> int {
    (ct.body()@ - dot(ct.mask(), s)) % q
}

/// What decryption returns: whether the phase is farther than `floor(q/4)`
/// from `0`, i.e. closer to `floor(q/2)`.
pub open spec fn decrypt_spec(ct: LweSample, s: Seq<ZqElement>, q: int) -> bool {
    centered_distance(phase(ct, s, q), q) > q / 4
}

/// A secret key: a vector in `Z_q^n`.
#[derive(Debug)]
pub struct SecretKey {
    params: LweParams,
    s: Vec<ZqElement>,
}

/// A public key: `sample_count` LWE samples under the secret.
#[derive(Debug)]
pub struct PublicKey {
    params: LweParams,
    samples: Vec<LweSample>,
}

impl SecretKey {
    #[verifier::type_invariant]
    closed spec fn inv(self) -> bool {
        &&& self.s@.len() == self.params.spec_dimension()
        &&& all_below(self.s@, self.params.spec_modulus()@)
    }

    pub closed spec fn spec_params(self) -> LweParams {
        self.params
    }

    /// The secret vector.
    pub closed spec fn secret(self) -> Seq<ZqElement> {
        self.s@
    }

    /// A secret key for `params` holding `s`, if `s` has the dimension of
    /// `params` and entries below its modulus.
    pub fn from_parts(params: LweParams, s: Vec<ZqElement>) -> (r: Option<Self>)
        ensures
            r is Some == (s@.len() == params.spec_dimension() && all_below(
                s@,
                params.spec_modulus()@,
            )),
            r is Some ==> r->Some_0.spec_params() == params && r->Some_0.secret() == s@,
    {
        let n = params.dimension().0;
        let q = params.modulus().raw();
        if s.len() != n {
            return None;
        }
        let mut i: usize = 0;
        while i < n
            invariant
                n == s@.len(),
                q == params.spec_modulus()@,
                i <= n,
                forall|j: int| 0 <= j < i ==> (#[trigger] s@[j])@ < q,
            decreases n - i,
        {
            if s[i].raw() >= q {
                return None;
            }
            i = i + 1;
        }
        Some(SecretKey { params, s })
    }

    /// The secret vector's entries.
    pub fn secret_elems(&self) -> (r: &[ZqElement])
        ensures
            r@ == self.secret(),
    {
        self.s.as_slice()
    }

    pub fn params(&self) -> (r: &LweParams)
        ensures
            *r == self.spec_params(),
            self.secret().len() == r.spec_dimension(),
            all_below(self.secret(), r.spec_modulus()@),
    {
        proof {
            use_type_invariant(self);
        }
        &self.params
    }

    /// Bytes in the secret data, not counting Vec/struct overhead or params.
    pub fn data_bytes(&self) -> (r: usize)
        requires
            self.secret().len() * size_of::<ZqElement>() <= usize::MAX,
        ensures
            r == self.secret().len() * size_of::<ZqElement>(),
    {
        self.s.len() * std::mem::size_of::<ZqElement>()
    }
}

impl PublicKey {
    #[verifier::type_invariant]
    closed spec fn inv(self) -> bool {
        &&& self.samples@.len() == self.params.spec_sample_count()
        &&& forall|i: int|
            0 <= i < self.samples@.len() ==> sample_fits(
                #[trigger] self.samples@[i],
                self.params.spec_dimension(),
                self.params.spec_modulus()@,
            )
    }

    pub closed spec fn spec_params(self) -> LweParams {
        self.params
    }

    /// The public LWE samples.
    pub closed spec fn samples(self) -> Seq<LweSample> {
        self.samples@
    }

    /// A public key for `params` holding `samples`, if there are
    /// `sample_count` of them and each has the dimension of `params` and
    /// entries below its modulus.
    pub fn from_parts(params: LweParams, samples: Vec<LweSample>) -> (r: Option<Self>)
        ensures
            r is Some == (samples@.len() == params.spec_sample_count() && forall|i: int|
                0 <= i < samples@.len() ==> sample_fits(
                    #[trigger] samples@[i],
                    params.spec_dimension(),
                    params.spec_modulus()@,
                )),
            r is Some ==> r->Some_0.spec_params() == params && r->Some_0.samples() == samples@,
    {
        let n = params.dimension().0;
        let m = params.sample_count().0;
        let q = params.modulus().raw();
        if samples.len() != m {
            return None;
        }
        let mut i: usize = 0;
        while i < m
            invariant
                m == samples@.len(),
                n == params.spec_dimension(),
                q == params.spec_modulus()@,
                i <= m,
                forall|k: int|
                    0 <= k < i ==> sample_fits(#[trigger] samples@[k], n as nat, q),
            decreases m - i,
        {
            let sample = &samples[i];
            if sample.a.len() != n || sample.b.raw() >= q {
                assert(!sample_fits(samples@[i as int], n as nat, q));
                return None;
            }
            let mut j: usize = 0;
            while j < n
                invariant
                    n == sample.a@.len(),
                    q == params.spec_modulus()@,
                    i < m,
                    m == samples@.len(),
                    *sample == samples@[i as int],
                    sample.b@ < q,
                    j <= n,
                    forall|l: int| 0 <= l < j ==> (#[trigger] sample.a@[l])@ < q,
                decreases n - j,
            {
                if sample.a[j].raw() >= q {
                    assert(!all_below(sample.a@, q));
                    assert(!sample_fits(samples@[i as int], n as nat, q));
                    return None;
                }
                j = j + 1;
            }
            assert(sample_fits(samples@[i as int], n as nat, q));
            i = i + 1;
        }
        Some(PublicKey { params, samples })
    }

    /// The public samples.
    pub fn sample_list(&self) -> (r: &[LweSample])
        ensures
            r@ == self.samples(),
    {
        self.samples.as_slice()
    }

    pub fn params(&self) -> (r: &LweParams)
        ensures
            *r == self.spec_params(),
            self.samples().len() == r.spec_sample_count(),
            forall|i: int|
                0 <= i < self.samples().len() ==> sample_fits(
                    #[trigger] self.samples()[i],
                    r.spec_dimension(),
                    r.spec_modulus()@,
                ),
    {
        proof {
            use_type_invariant(self);
        }
        &self.params
    }

    /// Bytes in the LWE samples, not counting Vec/struct overhead or params.
    pub fn data_bytes(&self) -> (r: usize)
        requires
            self.samples().len() * ((self.spec_params().spec_dimension() + 1) * size_of::<
                ZqElement,
            >()) <= usize::MAX,
        ensures
            r == self.samples().len() * ((self.spec_params().spec_dimension() + 1) * size_of::<
                ZqElement,
            >()),
    {
        proof {
            use_type_invariant(self);
        }
        let n = self.params.dimension().0;
        let ghost per = (n + 1) * size_of::<ZqElement>();
        let m = self.samples.len();
        let mut total: usize = 0;
        let mut i: usize = 0;
        while i < m
            invariant
                m == self.samples@.len(),
                n == self.params.spec_dimension(),
                per == (n + 1) * size_of::<ZqElement>(),
                m * per <= usize::MAX,
                i <= m,
                total == i * per,
                forall|k: int|
                    0 <= k < m ==> sample_fits(
                        #[trigger] self.samples@[k],
                        self.params.spec_dimension(),
                        self.params.spec_modulus()@,
                    ),
            decreases m - i,
        {
            assert((i + 1) * per <= m * per) by (nonlinear_arith)
                requires
                    i < m,
                    per >= 0,
            ;
            assert((i + 1) * per == i * per + per) by (nonlinear_arith);
            total = total + self.samples[i].data_bytes();
            i = i + 1;
        }
        total
    }
}

impl Clone for SecretKey {
    fn clone(&self) -> (r: Self)
        ensures
            r.spec_params() == self.spec_params(),
            r.secret() == self.secret(),
    {
        proof {
            use_type_invariant(self);
        }
        SecretKey { params: self.params, s: copy_elems(self.s.as_slice()) }
    }
}

impl Clone for PublicKey {
    fn clone(&self) -> (r: Self)
        ensures
            r.spec_params() == self.spec_params(),
            r.samples().len() == self.samples().len(),
            forall|i: int|
                0 <= i < self.samples().len() ==> (#[trigger] r.samples()[i]).mask()
                    == self.samples()[i].mask() && r.samples()[i].body()
                    == self.samples()[i].body(),
    {
        proof {
            use_type_invariant(self);
        }
        let m = self.samples.len();
        let mut samples: Vec<LweSample> = Vec::with_capacity(m);
        let mut i: usize = 0;
        while i < m
            invariant
                m == self.samples@.len(),
                i <= m,
                samples@.len() == i,
                forall|k: int|
                    0 <= k < i ==> (#[trigger] samples@[k]).mask() == self.samples@[k].mask()
                        && samples@[k].body() == self.samples@[k].body(),
            decreases m - i,
        {
            samples.push(self.samples[i].clone());
            i = i + 1;
        }
        proof {
            assert forall|k: int| 0 <= k < samples@.len() implies sample_fits(
                #[trigger] samples@[k],
                self.params.spec_dimension(),
                self.params.spec_modulus()@,
            ) by {
                assert(sample_fits(
                    self.samples@[k],
                    self.params.spec_dimension(),
                    self.params.spec_modulus()@,
                ));
            }
        }
        PublicKey { params: self.params, samples }
    }
}

/// Decrypts a bit: `b - <a, s>` lands near `0` for a `0` and near
/// `floor(q/2)` for a `1`; `floor(q/4)` is the midpoint between those.
pub fn decrypt(sk: &SecretKey, ct: &Ciphertext) -> (r: bool)
    requires
        sample_fits(*ct, sk.spec_params().spec_dimension(), sk.spec_params().spec_modulus()@),
    ensures
        r == decrypt_spec(*ct, sk.secret(), sk.spec_params().spec_modulus()@ as int),
{
    proof {
        use_type_invariant(sk);
    }
    let q = sk.params.modulus();
    let inner = inner_product_mod(ct.a.as_slice(), sk.s.as_slice(), q);
    let diff = sub_mod(ct.b, inner, q);
    proof {
        let qi = q@ as int;
        lemma_sub_mod_noop(ct.b@ as int, dot(ct.a@, sk.s@), qi);
        lemma_mod_twice(ct.b@ as int, qi);
        lemma_small_mod(ct.b@ as nat, q@ as nat);
    }
    distance_to_zero(diff, q) > q.raw() / 4
}


/// `n` copies of `0`.
fn zeros(n: usize) -> (r: Vec<ZqElement>)
    ensures
        r@.len() == n,
        forall|j: int| 0 <= j < n ==> (#[trigger] r@[j])@ == 0,
{
    let mut out: Vec<ZqElement> = Vec::with_capacity(n);
    let mut i: usize = 0;
    while i < n
        invariant
            i <= n,
            out@.len() == i,
            forall|j: int| 0 <= j < i ==> (#[trigger] out@[j])@ == 0,
        decreases n - i,
    {
        out.push(ZqElement::zero());
        i = i + 1;
    }
    out
}

/// `rand::RngExt::random_range(0..bound)`: a value in `[0, bound)`, as the
/// crate documents (it panics on an empty range, which `bound > 0` excludes).
/// Which value comes out depends on the generator's state.
#[verifier::external_body]
fn random_below<R: rand::CryptoRng>(rng: &mut R, bound: u32) -> (r: u32)
    requires
        bound > 0,
    ensures
        r < bound,
{
    rng.random_range(0..bound)
}

/// `rand::RngExt::random::<bool>`: a fair coin. Nothing is stated of the
/// value, which depends on the generator's state.
#[verifier::external_body]
fn random_bool<R: rand::CryptoRng>(rng: &mut R) -> bool {
    rng.random::<bool>()
}

/// A uniformly random element of `Z_q`.
pub fn uniform_zq<R: rand::CryptoRng>(rng: &mut R, q: Modulus) -> (r: ZqElement)
    ensures
        r@ < q@,
{
    let x = random_below(rng, q.raw());
    ZqElement::new(x, q)
}

/// `n` uniformly random elements of `Z_q`.
pub fn uniform_zq_vec<R: rand::CryptoRng>(rng: &mut R, n: usize, q: Modulus) -> (r: Vec<
    ZqElement,
>)
    ensures
        r@.len() == n,
        all_below(r@, q@),
{
    let mut out: Vec<ZqElement> = Vec::with_capacity(n);
    let mut i: usize = 0;
    while i < n
        invariant
            i <= n,
            out@.len() == i,
            all_below(out@, q@),
        decreases n - i,
    {
        out.push(uniform_zq(rng, q));
        i = i + 1;
    }
    out
}

/// The sample `(a, <a, s> + e mod q)`.
pub fn noisy_sample(a: Vec<ZqElement>, s: &[ZqElement], e: ZqElement, q: Modulus) -> (r:
    LweSample)
    requires
        a@.len() == s@.len(),
        all_below(a@, q@),
        all_below(s@, q@),
        e@ < q@,
    ensures
        r.mask() == a@,
        r.body()@ == (dot(a@, s@) + e@) % (q@ as int),
        r.body()@ < q@,
{
    let inner = inner_product_mod(a.as_slice(), s, q);
    let b = add_mod(inner, e, q);
    proof {
        let qi = q@ as int;
        lemma_add_mod_noop(dot(a@, s@), e@ as int, qi);
        lemma_small_mod(e@ as nat, q@ as nat);
    }
    LweSample { a, b }
}

/// Key generation from the values the caller drew: the secret `s`, and for
/// each of the `sample_count` public samples a uniform row `a_rows[i]` and a
/// noise value `errors[i]`. The public key holds the samples
/// `(a_rows[i], <a_rows[i], s> + errors[i] mod q)`.
pub fn keygen_from(
    params: &LweParams,
    s: Vec<ZqElement>,
    a_rows: &[Vec<ZqElement>],
    errors: &[ZqElement],
) -> (r: (SecretKey, PublicKey))
    requires
        s@.len() == params.spec_dimension(),
        all_below(s@, params.spec_modulus()@),
        a_rows@.len() == params.spec_sample_count(),
        errors@.len() == params.spec_sample_count(),
        all_below(errors@, params.spec_modulus()@),
        forall|i: int|
            0 <= i < a_rows@.len() ==> (#[trigger] a_rows@[i])@.len() == params.spec_dimension()
                && all_below(a_rows@[i]@, params.spec_modulus()@),
    ensures
        r.0.spec_params() == *params,
        r.0.secret() == s@,
        r.1.spec_params() == *params,
        r.1.samples().len() == params.spec_sample_count(),
        forall|i: int|
            0 <= i < a_rows@.len() ==> (#[trigger] r.1.samples()[i]).mask() == a_rows@[i]@
                && r.1.samples()[i].body()@ == (dot(a_rows@[i]@, s@) + errors@[i]@) % (
                params.spec_modulus()@ as int),
{
    let q = params.modulus();
    let n = params.dimension().0;
    let m = a_rows.len();
    let mut samples: Vec<LweSample> = Vec::with_capacity(m);
    let mut i: usize = 0;
    while i < m
        invariant
            m == a_rows@.len(),
            m == errors@.len(),
            n == params.spec_dimension(),
            q == params.spec_modulus(),
            s@.len() == n,
            all_below(s@, q@),
            all_below(errors@, q@),
            forall|k: int|
                0 <= k < a_rows@.len() ==> (#[trigger] a_rows@[k])@.len() == n && all_below(
                    a_rows@[k]@,
                    q@,
                ),
            i <= m,
            samples@.len() == i,
            forall|k: int|
                0 <= k < i ==> (#[trigger] samples@[k]).mask() == a_rows@[k]@
                    && samples@[k].body()@ == (dot(a_rows@[k]@, s@) + errors@[k]@) % (q@ as int)
                    && sample_fits(samples@[k], n as nat, q@),
        decreases m - i,
    {
        let row = copy_elems(a_rows[i].as_slice());
        assert(all_below(errors@, q@));
        assert(errors@[i as int]@ < q@);
        let sample = noisy_sample(row, s.as_slice(), errors[i], q);
        samples.push(sample);
        i = i + 1;
    }
    let sk = SecretKey { params: *params, s };
    let pk = PublicKey { params: *params, samples };
    (sk, pk)
}

/// `ct` is what encryption of `bit` under `pk` gives with the selection
/// `takes`: entrywise, the sum mod `q` of the selected samples, plus
/// `floor(q/2)` in `b` when `bit` is set.
pub open spec fn is_encryption_with(ct: LweSample, pk: PublicKey, bit: bool, takes: Seq<bool>) -> bool {
    let n = pk.spec_params().spec_dimension();
    let q = pk.spec_params().spec_modulus()@ as int;
    let m = pk.samples().len() as int;
    &&& takes.len() == m
    &&& ct.mask().len() == n
    &&& forall|j: int|
        0 <= j < n ==> (#[trigger] ct.mask()[j])@ == selected_mask_sum(pk.samples(), takes, m, j)
            % q
    &&& ct.body()@ == (selected_body_sum(pk.samples(), takes, m) + encode_bit(bit, q)) % q
}

/// Encrypts a bit: each public sample is selected by a fair coin drawn from
/// `rng`, and the result is `encrypt_with_choices` for those coins.
pub fn encrypt<R: rand::CryptoRng>(pk: &PublicKey, bit: bool, rng: &mut R) -> (r: Ciphertext)
    ensures
        exists|takes: Seq<bool>| is_encryption_with(r, *pk, bit, takes),
        sample_fits(r, pk.spec_params().spec_dimension(), pk.spec_params().spec_modulus()@),
{
    proof {
        use_type_invariant(pk);
    }
    let m = pk.samples.len();
    let mut takes: Vec<bool> = Vec::with_capacity(m);
    let mut i: usize = 0;
    while i < m
        invariant
            i <= m,
            takes@.len() == i,
        decreases m - i,
    {
        takes.push(random_bool(rng));
        i = i + 1;
    }
    encrypt_with_choices(pk, bit, takes.as_slice())
}

/// Encryption with the sample-selection bits the caller drew: the sum of the
/// public samples `i` with `takes[i]` set, plus `floor(q/2)` in `b` when
/// `bit` is set. Additions and selections are constant-time.
pub fn encrypt_with_choices(pk: &PublicKey, bit: bool, takes: &[bool]) -> (r: Ciphertext)
    requires
        takes@.len() == pk.samples().len(),
    ensures
        is_encryption_with(r, *pk, bit, takes@),
        sample_fits(r, pk.spec_params().spec_dimension(), pk.spec_params().spec_modulus()@),
{
    proof {
        use_type_invariant(pk);
    }
    let n = pk.params.dimension().0;
    let q = pk.params.modulus();
    let m = pk.samples.len();
    let zero = ZqElement::zero();
    let ghost qi = q@ as int;
    let ghost samples = pk.samples@;
    let mut a = zeros(n);
    let mut b = ZqElement::zero();
    proof {
        lemma_small_mod(0nat, q@ as nat);
    }
    let mut i: usize = 0;
    while i < m
        invariant
            m == samples.len(),
            samples == pk.samples@,
            takes@.len() == m,
            n == pk.params.spec_dimension(),
            q == pk.params.spec_modulus(),
            qi == q@ as int,
            qi >= 2,
            zero@ == 0,
            forall|k: int| 0 <= k < m ==> sample_fits(#[trigger] samples[k], n as nat, q@),
            i <= m,
            a@.len() == n,
            all_below(a@, q@),
            forall|j: int|
                0 <= j < n ==> (#[trigger] a@[j])@ == selected_mask_sum(samples, takes@, i as int, j)
                    % qi,
            b@ == selected_body_sum(samples, takes@, i as int) % qi,
            b@ < q@,
        decreases m - i,
    {
        let take = takes[i];
        let sample = &pk.samples[i];
        assert(sample_fits(samples[i as int], n as nat, q@));
        let mut j: usize = 0;
        while j < n
            invariant
                m == samples.len(),
                takes@.len() == m,
                i < m,
                take == takes@[i as int],
                *sample == samples[i as int],
                sample_fits(*sample, n as nat, q@),
                qi == q@ as int,
                qi >= 2,
                zero@ == 0,
                j <= n,
                a@.len() == n,
                all_below(a@, q@),
                forall|k: int|
                    0 <= k < j ==> (#[trigger] a@[k])@ == selected_mask_sum(
                        samples,
                        takes@,
                        i + 1,
                        k,
                    ) % qi,
                forall|k: int|
                    j <= k < n ==> (#[trigger] a@[k])@ == selected_mask_sum(samples, takes@, i as int, k)
                        % qi,
            decreases n - j,
        {
            let masked = ZqElement::conditional_select(&zero, &sample.a[j], take);
            assert(masked@ < q@);
            let ghost before = selected_mask_sum(samples, takes@, i as int, j as int);
            let ghost term = if take {
                sample.a@[j as int]@ as int
            } else {
                0
            };
            let updated = add_mod(a[j], masked, q);
            proof {
                lemma_add_mod_noop(before, term, qi);
                lemma_mod_twice(before, qi);
                lemma_small_mod(masked@ as nat, q@ as nat);
                assert(selected_mask_sum(samples, takes@, i + 1, j as int) == before + term);
            }
            a.set(j, updated);
            j = j + 1;
        }
        let masked_b = ZqElement::conditional_select(&zero, &sample.b, take);
        let ghost before_b = selected_body_sum(samples, takes@, i as int);
        let ghost term_b = if take {
            sample.b@ as int
        } else {
            0
        };
        b = add_mod(b, masked_b, q);
        proof {
            lemma_add_mod_noop(before_b, term_b, qi);
            lemma_mod_twice(before_b, qi);
            lemma_small_mod(masked_b@ as nat, q@ as nat);
            assert(selected_body_sum(samples, takes@, i + 1) == before_b + term_b);
        }
        i = i + 1;
    }
    let qr = q.raw();
    let half_elem = ZqElement::new(qr / 2, q);
    let to_add = ZqElement::conditional_select(&zero, &half_elem, bit);
    let ghost before_final = selected_body_sum(samples, takes@, m as int);
    let out_b = add_mod(b, to_add, q);
    proof {
        lemma_add_mod_noop(before_final, encode_bit(bit, qi), qi);
        lemma_mod_twice(before_final, qi);
        lemma_small_mod(to_add@ as nat, q@ as nat);
    }
    LweSample { a, b: out_b }
}

/// "Encrypts" a known bit as `(0, bit * floor(q/2))`. Not secret: anyone can
/// decrypt it without the secret key.
pub fn trivial_encrypt(params: &LweParams, bit: bool) -> (r: Ciphertext)
    ensures
        r.mask().len() == params.spec_dimension(),
        forall|j: int| 0 <= j < params.spec_dimension() ==> (#[trigger] r.mask()[j])@ == 0,
        r.body()@ == encode_bit(bit, params.spec_modulus()@ as int),
        sample_fits(r, params.spec_dimension(), params.spec_modulus()@),
{
    let n = params.dimension().0;
    let q = params.modulus();
    let b = if bit {
        ZqElement::new(q.raw() / 2, q)
    } else {
        ZqElement::zero()
    };
    let a = zeros(n);
    LweSample { a, b }
}

/// Homomorphic addition: the entrywise sum mod `q`. Decrypts to the XOR of
/// the two plaintexts while the noise stays small.
pub fn add(ct1: &Ciphertext, ct2: &Ciphertext, q: Modulus) -> (r: Ciphertext)
    requires
        ct1.mask().len() == ct2.mask().len(),
        sample_fits(*ct1, ct1.mask().len(), q@),
        sample_fits(*ct2, ct2.mask().len(), q@),
    ensures
        r.mask().len() == ct1.mask().len(),
        forall|j: int|
            0 <= j < ct1.mask().len() ==> (#[trigger] r.mask()[j])@ == (ct1.mask()[j]@
                + ct2.mask()[j]@) % (q@ as int),
        r.body()@ == (ct1.body()@ + ct2.body()@) % (q@ as int),
        sample_fits(r, ct1.mask().len(), q@),
{
    let n = ct1.a.len();
    let mut a: Vec<ZqElement> = Vec::with_capacity(n);
    let mut j: usize = 0;
    while j < n
        invariant
            n == ct1.a@.len(),
            n == ct2.a@.len(),
            all_below(ct1.a@, q@),
            all_below(ct2.a@, q@),
            j <= n,
            a@.len() == j,
            forall|k: int|
                0 <= k < j ==> (#[trigger] a@[k])@ == (ct1.a@[k]@ + ct2.a@[k]@) % (q@ as int)
                    && a@[k]@ < q@,
        decreases n - j,
    {
        a.push(add_mod(ct1.a[j], ct2.a[j], q));
        j = j + 1;
    }
    let b = add_mod(ct1.b, ct2.b, q);
    LweSample { a, b }
}

/// Homomorphic subtraction: the entrywise difference mod `q`. Decrypts to the
/// XOR of the two plaintexts while the noise stays small.
pub fn sub(ct1: &Ciphertext, ct2: &Ciphertext, q: Modulus) -> (r: Ciphertext)
    requires
        ct1.mask().len() == ct2.mask().len(),
        sample_fits(*ct1, ct1.mask().len(), q@),
        sample_fits(*ct2, ct2.mask().len(), q@),
    ensures
        r.mask().len() == ct1.mask().len(),
        forall|j: int|
            0 <= j < ct1.mask().len() ==> (#[trigger] r.mask()[j])@ == (ct1.mask()[j]@
                - ct2.mask()[j]@) % (q@ as int),
        r.body()@ == (ct1.body()@ - ct2.body()@) % (q@ as int),
        sample_fits(r, ct1.mask().len(), q@),
{
    let n = ct1.a.len();
    let mut a: Vec<ZqElement> = Vec::with_capacity(n);
    let mut j: usize = 0;
    while j < n
        invariant
            n == ct1.a@.len(),
            n == ct2.a@.len(),
            all_below(ct1.a@, q@),
            all_below(ct2.a@, q@),
            j <= n,
            a@.len() == j,
            forall|k: int|
                0 <= k < j ==> (#[trigger] a@[k])@ == (ct1.a@[k]@ - ct2.a@[k]@) % (q@ as int)
                    && a@[k]@ < q@,
        decreases n - j,
    {
        a.push(sub_mod(ct1.a[j], ct2.a[j], q));
        j = j + 1;
    }
    let b = sub_mod(ct1.b, ct2.b, q);
    LweSample { a, b }
}

} // verus!
