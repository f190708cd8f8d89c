//! Why decryption works: the phase of a ciphertext is its noise plus the
//! encoded bit, encryption and the homomorphic operations act on phases as
//! the plaintext XOR does on bits, and a phase whose noise is below
//! `floor(q/2) - floor(q/4)` in absolute value decrypts to its bit.
use crate::finite_sum::{
    lemma_sum_add,
    lemma_sum_ext,
    lemma_sum_mod,
    lemma_sum_scale,
    lemma_sum_sub,
    lemma_sum_swap,
    lemma_sum_zero,
    sum,
};
use crate::regev::arith::{centered_distance, dot, ZqElement};
use crate::regev::lwe::{
    decrypt_spec,
    encode_bit,
    half,
    is_encryption_with,
    phase,
    selected_body_sum,
    selected_mask_sum,
    LweSample,
    PublicKey,
};
use vstd::arithmetic::div_mod::*;
use vstd::arithmetic::mul::*;
use vstd::prelude::*;

verus! {

/// The largest noise magnitude (exclusive) that decryption tolerates.
pub open spec fn noise_bound(q: int) -> int {
    half(q) - q / 4
}

/// `sum_{i < k, takes[i]} errs[i]`: the noise that encryption accumulates.
pub open spec fn selected_noise_sum(errs: Seq<int>, takes: Seq<bool>, k: int) -> int {
    sum(
        |i: int|
            if takes[i] {
                errs[i]
            } else {
                0
            },
        k,
    )
}

/// What adding the encodings of two set bits leaves over beyond the
/// encoding of their XOR: `2 * floor(q/2) - q`, i.e. `-1` for odd `q`.
pub open spec fn add_carry(b1: bool, b2: bool, q: int) -> int {
    if b1 && b2 {
        2 * half(q) - q
    } else {
        0
    }
}

/// What subtracting the encoding of a set bit from that of a clear one
/// leaves over beyond the encoding of their XOR: `q - 2 * floor(q/2)`.
pub open spec fn sub_carry(b1: bool, b2: bool, q: int) -> int {
    if !b1 && b2 {
        q - 2 * half(q)
    } else {
        0
    }
}

/// Decryption is correct for small noise: a ciphertext whose phase is
/// `e + encode(bit)` with `|e| < floor(q/2) - floor(q/4)` decrypts to `bit`.
pub proof fn lemma_decrypt_recovers_bit(
    ct: LweSample,
    s: Seq<ZqElement>,
    q: int,
    bit: bool,
    e: int,
)
    requires
        q >= 2,
        phase(ct, s, q) == (e + encode_bit(bit, q)) % q,
        -noise_bound(q) < e < noise_bound(q),
    ensures
        decrypt_spec(ct, s, q) == bit,
{
    let x = phase(ct, s, q);
    let h = half(q);
    if !bit {
        if e >= 0 {
            lemma_small_mod(e as nat, q as nat);
        } else {
            lemma_fundamental_div_mod_converse(e, q, -1, e + q);
        }
        assert(centered_distance(x, q) <= q / 4);
    } else {
        lemma_small_mod((e + h) as nat, q as nat);
        assert(x == e + h);
        assert(centered_distance(x, q) > q / 4);
    }
}

/// A sample made by key generation, `(a, <a, s> + e mod q)`, has phase `e`.
pub proof fn lemma_noisy_sample_phase(sample: LweSample, s: Seq<ZqElement>, q: int, e: int)
    requires
        q >= 2,
        sample.body()@ == (dot(sample.mask(), s) + e) % q,
    ensures
        phase(sample, s, q) == e % q,
{
    let d = dot(sample.mask(), s);
    lemma_sub_mod_noop(d + e, d, q);
    lemma_mod_twice(d, q);
    lemma_sub_mod_noop(d + e, d, q);
    lemma_mod_sub_multiples_vanish(0, q);
    assert((d + e) - d == e);
    lemma_sub_mod_noop((d + e) % q, d, q);
    lemma_mod_twice(d + e, q);
}

/// Key generation stores noise as a representative `e = c mod q` of an
/// integer noise value `c` (as `ZqElement::from_i64(c, q)` gives it); the
/// sample is then `<a, s> + c mod q`, which is the form the encryption laws
/// take.
pub proof fn lemma_noise_representative(d: int, e: int, c: int, q: int)
    requires
        q > 0,
        e == c % q,
    ensures
        (d + e) % q == (d + c) % q,
{
    lemma_add_mod_noop(d, c, q);
    lemma_mod_twice(c, q);
    lemma_add_mod_noop(d, e, q);
    lemma_mod_twice(d, q);
}

/// Congruence mod `q` is preserved by subtracting congruent values.
proof fn lemma_sub_congruent(x: int, x2: int, y: int, y2: int, q: int)
    requires
        q > 0,
        x % q == x2 % q,
        y % q == y2 % q,
    ensures
        (x - y) % q == (x2 - y2) % q,
{
    lemma_sub_mod_noop(x, y, q);
    lemma_sub_mod_noop(x2, y2, q);
}

/// Congruence mod `q` is preserved by adding congruent values.
proof fn lemma_add_congruent(x: int, x2: int, y: int, y2: int, q: int)
    requires
        q > 0,
        x % q == x2 % q,
        y % q == y2 % q,
    ensures
        (x + y) % q == (x2 + y2) % q,
{
    lemma_add_mod_noop(x, y, q);
    lemma_add_mod_noop(x2, y2, q);
}

/// The inner product of the selected sum of masks with `s` is congruent to
/// the selected sum of the samples' inner products with `s`.
proof fn lemma_dot_of_selected_sum(
    samples: Seq<LweSample>,
    takes: Seq<bool>,
    s: Seq<ZqElement>,
    q: int,
    mask: Seq<ZqElement>,
)
    requires
        q >= 2,
        samples.len() == takes.len(),
        mask.len() == s.len(),
        forall|i: int| 0 <= i < samples.len() ==> (#[trigger] samples[i]).mask().len() == s.len(),
        forall|j: int|
            0 <= j < s.len() ==> (#[trigger] mask[j])@ == selected_mask_sum(
                samples,
                takes,
                samples.len() as int,
                j,
            ) % q,
    ensures
        dot(mask, s) % q == sum(
            |i: int|
                if takes[i] {
                    dot(samples[i].mask(), s)
                } else {
                    0
                },
            samples.len() as int,
        ) % q,
{
    let m = samples.len() as int;
    let n = s.len() as int;
    let f = |i: int, j: int|
        if takes[i] {
            samples[i].mask()[j]@ * s[j]@
        } else {
            0
        };
    let col = |j: int| selected_mask_sum(samples, takes, m, j) * s[j]@;
    // Reduce each column sum mod q first.
    assert forall|j: int| 0 <= j < n implies #[trigger] (mask[j]@ * s[j]@) % q == col(j) % q by {
        lemma_mul_mod_noop_left(selected_mask_sum(samples, takes, m, j), s[j]@ as int, q);
        lemma_mod_twice(selected_mask_sum(samples, takes, m, j), q);
        lemma_mul_mod_noop_left(mask[j]@ as int, s[j]@ as int, q);
        lemma_small_mod(mask[j]@ as nat, q as nat);
    }
    lemma_sum_mod(|j: int| mask[j]@ * s[j]@, col, n, q);
    // Each column is the double sum's inner sum over samples.
    assert forall|j: int| 0 <= j < n implies #[trigger] col(j) == sum(|i: int| f(i, j), m) by {
        let g = |i: int|
            if takes[i] {
                samples[i].mask()[j]@ as int
            } else {
                0
            };
        lemma_sum_scale(g, s[j]@ as int, m);
        assert forall|i: int| 0 <= i < m implies #[trigger] (s[j]@ * g(i)) == f(i, j) by {
            lemma_mul_is_commutative(s[j]@ as int, samples[i].mask()[j]@ as int);
        }
        lemma_sum_ext(|i: int| s[j]@ * g(i), |i: int| f(i, j), m);
        lemma_mul_is_commutative(s[j]@ as int, sum(g, m));
    }
    lemma_sum_ext(col, |j: int| sum(|i: int| f(i, j), m), n);
    lemma_sum_swap(f, m, n);
    // Each row is a selected inner product.
    let row = |i: int| sum(|j: int| f(i, j), n);
    let sel = |i: int|
        if takes[i] {
            dot(samples[i].mask(), s)
        } else {
            0
        };
    assert forall|i: int| 0 <= i < m implies #[trigger] row(i) == sel(i) by {
        if takes[i] {
            lemma_sum_ext(|j: int| f(i, j), |j: int| samples[i].mask()[j]@ * s[j]@, n);
        } else {
            lemma_sum_zero(|j: int| f(i, j), n);
        }
    }
    lemma_sum_ext(row, sel, m);
}

/// Encryption accumulates the noise of the selected samples: if sample `i`
/// has phase `errs[i]`, a ciphertext built as `encrypt_with_choices` builds
/// it has phase `sum_{takes[i]} errs[i] + encode(bit)`.
pub proof fn lemma_encrypt_phase(
    samples: Seq<LweSample>,
    takes: Seq<bool>,
    errs: Seq<int>,
    s: Seq<ZqElement>,
    q: int,
    bit: bool,
    ct: LweSample,
)
    requires
        q >= 2,
        samples.len() == takes.len(),
        samples.len() == errs.len(),
        forall|i: int|
            0 <= i < samples.len() ==> (#[trigger] samples[i]).mask().len() == s.len() && phase(
                samples[i],
                s,
                q,
            ) == errs[i] % q,
        ct.mask().len() == s.len(),
        forall|j: int|
            0 <= j < s.len() ==> (#[trigger] ct.mask()[j])@ == selected_mask_sum(
                samples,
                takes,
                samples.len() as int,
                j,
            ) % q,
        ct.body()@ == (selected_body_sum(samples, takes, samples.len() as int) + encode_bit(bit, q))
            % q,
    ensures
        phase(ct, s, q) == (selected_noise_sum(errs, takes, samples.len() as int) + encode_bit(
            bit,
            q,
        )) % q,
{
    let m = samples.len() as int;
    let sel_dot = |i: int|
        if takes[i] {
            dot(samples[i].mask(), s)
        } else {
            0
        };
    let sel_body = |i: int|
        if takes[i] {
            samples[i].body()@ as int
        } else {
            0
        };
    let sel_err = |i: int|
        if takes[i] {
            errs[i]
        } else {
            0
        };
    lemma_dot_of_selected_sum(samples, takes, s, q, ct.mask());
    let bsum = selected_body_sum(samples, takes, m);
    let dsum = sum(sel_dot, m);
    let enc = encode_bit(bit, q);
    // b - <a, s> is congruent to (bsum + enc) - dsum.
    lemma_mod_twice(bsum + enc, q);
    lemma_sub_congruent(ct.body()@ as int, bsum + enc, dot(ct.mask(), s), dsum, q);
    // bsum - dsum is the selected sum of the samples' b - <a, s>.
    lemma_sum_sub(sel_body, sel_dot, m);
    let diff = |i: int| sel_body(i) - sel_dot(i);
    assert forall|i: int| 0 <= i < m implies #[trigger] diff(i) % q == sel_err(i) % q by {
        if takes[i] {
            assert(phase(samples[i], s, q) == errs[i] % q);
        }
    }
    lemma_sum_mod(diff, sel_err, m, q);
    assert((bsum + enc) - dsum == (bsum - dsum) + enc);
    lemma_add_congruent(bsum - dsum, selected_noise_sum(errs, takes, m), enc, enc, q);
}

/// Correctness of public-key encryption: if every public sample `i` is
/// `(a_i, <a_i, s> + errs[i] mod q)` (as `keygen_from` builds them, with the
/// noise taken as an integer), then an encryption of `bit` with the selection
/// `takes` decrypts to `bit` under `s` whenever the noise accumulated over
/// the selected samples is below the bound.
pub proof fn lemma_encrypt_then_decrypt(
    pk: PublicKey,
    s: Seq<ZqElement>,
    errs: Seq<int>,
    takes: Seq<bool>,
    bit: bool,
    ct: LweSample,
)
    requires
        pk.spec_params().spec_modulus()@ >= 2,
        s.len() == pk.spec_params().spec_dimension(),
        errs.len() == pk.samples().len(),
        forall|i: int|
            0 <= i < pk.samples().len() ==> (#[trigger] pk.samples()[i]).mask().len() == s.len()
                && pk.samples()[i].body()@ == (dot(pk.samples()[i].mask(), s) + errs[i]) % (
                pk.spec_params().spec_modulus()@ as int),
        is_encryption_with(ct, pk, bit, takes),
        -noise_bound(pk.spec_params().spec_modulus()@ as int) < selected_noise_sum(
            errs,
            takes,
            pk.samples().len() as int,
        ) < noise_bound(pk.spec_params().spec_modulus()@ as int),
    ensures
        decrypt_spec(ct, s, pk.spec_params().spec_modulus()@ as int) == bit,
{
    let q = pk.spec_params().spec_modulus()@ as int;
    let samples = pk.samples();
    assert forall|i: int| 0 <= i < samples.len() implies phase(#[trigger] samples[i], s, q) == errs[i]
        % q by {
        lemma_noisy_sample_phase(samples[i], s, q, errs[i]);
    }
    lemma_encrypt_phase(samples, takes, errs, s, q, bit, ct);
    lemma_decrypt_recovers_bit(ct, s, q, bit, selected_noise_sum(errs, takes, samples.len() as int));
}

/// A trivial encryption `(0, encode(bit))` has phase `encode(bit)` under any
/// secret, so it decrypts to `bit`.
pub proof fn lemma_trivial_decrypts(ct: LweSample, s: Seq<ZqElement>, q: int, bit: bool)
    requires
        q >= 2,
        ct.mask().len() == s.len(),
        forall|j: int| 0 <= j < s.len() ==> (#[trigger] ct.mask()[j])@ == 0,
        ct.body()@ == encode_bit(bit, q),
    ensures
        phase(ct, s, q) == encode_bit(bit, q) % q,
        decrypt_spec(ct, s, q) == bit,
{
    lemma_sum_zero(|j: int| ct.mask()[j]@ * s[j]@, s.len() as int);
    lemma_decrypt_recovers_bit(ct, s, q, bit, 0);
}

/// The inner product with `s` of an entrywise sum (or difference) mod `q`
/// is congruent to the sum (or difference) of the inner products.
proof fn lemma_dot_entrywise(
    m1: Seq<ZqElement>,
    m2: Seq<ZqElement>,
    m: Seq<ZqElement>,
    s: Seq<ZqElement>,
    q: int,
    plus: bool,
)
    requires
        q >= 2,
        m1.len() == s.len(),
        m2.len() == s.len(),
        m.len() == s.len(),
        forall|j: int|
            0 <= j < s.len() ==> (#[trigger] m[j])@ == (if plus {
                m1[j]@ + m2[j]@
            } else {
                m1[j]@ - m2[j]@
            }) % q,
    ensures
        dot(m, s) % q == (if plus {
            dot(m1, s) + dot(m2, s)
        } else {
            dot(m1, s) - dot(m2, s)
        }) % q,
{
    let n = s.len() as int;
    let f1 = |j: int| m1[j]@ * s[j]@;
    let f2 = |j: int| m2[j]@ * s[j]@;
    let g = |j: int|
        if plus {
            f1(j) + f2(j)
        } else {
            f1(j) - f2(j)
        };
    assert forall|j: int| 0 <= j < n implies #[trigger] (m[j]@ * s[j]@) % q == g(j) % q by {
        let c = if plus {
            m1[j]@ + m2[j]@
        } else {
            m1[j]@ - m2[j]@
        };
        lemma_mul_mod_noop_left(c, s[j]@ as int, q);
        lemma_mul_mod_noop_left(m[j]@ as int, s[j]@ as int, q);
        lemma_small_mod(m[j]@ as nat, q as nat);
        lemma_mod_twice(c, q);
        if plus {
            lemma_mul_is_distributive_add_other_way(s[j]@ as int, m1[j]@ as int, m2[j]@ as int);
        } else {
            lemma_mul_is_distributive_sub_other_way(s[j]@ as int, m1[j]@ as int, m2[j]@ as int);
        }
    }
    lemma_sum_mod(|j: int| m[j]@ * s[j]@, g, n, q);
    if plus {
        lemma_sum_add(f1, f2, n);
        lemma_sum_ext(g, |j: int| f1(j) + f2(j), n);
    } else {
        lemma_sum_sub(f1, f2, n);
        lemma_sum_ext(g, |j: int| f1(j) - f2(j), n);
    }
}

/// Homomorphic addition adds phases: `phase(ct1 + ct2) = phase(ct1) + phase(ct2)`.
pub proof fn lemma_add_phase(ct1: LweSample, ct2: LweSample, ct: LweSample, s: Seq<ZqElement>, q: int)
    requires
        q >= 2,
        ct1.mask().len() == s.len(),
        ct2.mask().len() == s.len(),
        ct.mask().len() == s.len(),
        forall|j: int|
            0 <= j < s.len() ==> (#[trigger] ct.mask()[j])@ == (ct1.mask()[j]@ + ct2.mask()[j]@) % q,
        ct.body()@ == (ct1.body()@ + ct2.body()@) % q,
    ensures
        phase(ct, s, q) == (phase(ct1, s, q) + phase(ct2, s, q)) % q,
{
    lemma_dot_entrywise(ct1.mask(), ct2.mask(), ct.mask(), s, q, true);
    let d1 = dot(ct1.mask(), s);
    let d2 = dot(ct2.mask(), s);
    let b1 = ct1.body()@ as int;
    let b2 = ct2.body()@ as int;
    lemma_mod_twice(b1 + b2, q);
    lemma_sub_congruent(ct.body()@ as int, b1 + b2, dot(ct.mask(), s), d1 + d2, q);
    assert((b1 + b2) - (d1 + d2) == (b1 - d1) + (b2 - d2));
    lemma_add_mod_noop(b1 - d1, b2 - d2, q);
}

/// Homomorphic subtraction subtracts phases: `phase(ct1 - ct2) = phase(ct1) - phase(ct2)`.
pub proof fn lemma_sub_phase(ct1: LweSample, ct2: LweSample, ct: LweSample, s: Seq<ZqElement>, q: int)
    requires
        q >= 2,
        ct1.mask().len() == s.len(),
        ct2.mask().len() == s.len(),
        ct.mask().len() == s.len(),
        forall|j: int|
            0 <= j < s.len() ==> (#[trigger] ct.mask()[j])@ == (ct1.mask()[j]@ - ct2.mask()[j]@) % q,
        ct.body()@ == (ct1.body()@ - ct2.body()@) % q,
    ensures
        phase(ct, s, q) == (phase(ct1, s, q) - phase(ct2, s, q)) % q,
{
    lemma_dot_entrywise(ct1.mask(), ct2.mask(), ct.mask(), s, q, false);
    let d1 = dot(ct1.mask(), s);
    let d2 = dot(ct2.mask(), s);
    let b1 = ct1.body()@ as int;
    let b2 = ct2.body()@ as int;
    lemma_mod_twice(b1 - b2, q);
    lemma_sub_congruent(ct.body()@ as int, b1 - b2, dot(ct.mask(), s), d1 - d2, q);
    assert((b1 - b2) - (d1 - d2) == (b1 - d1) - (b2 - d2));
    lemma_sub_mod_noop(b1 - d1, b2 - d2, q);
}

/// Homomorphic addition decrypts to XOR: the sum of encryptions of `b1` and
/// `b2` with noises `e1`, `e2` is an encryption of `b1 XOR b2` with noise
/// `e1 + e2 + add_carry(b1, b2, q)`, so it decrypts to `b1 XOR b2` while
/// that noise is below the bound.
pub proof fn lemma_add_is_xor(
    ct1: LweSample,
    ct2: LweSample,
    ct: LweSample,
    s: Seq<ZqElement>,
    q: int,
    b1: bool,
    b2: bool,
    e1: int,
    e2: int,
)
    requires
        q >= 2,
        ct1.mask().len() == s.len(),
        ct2.mask().len() == s.len(),
        ct.mask().len() == s.len(),
        forall|j: int|
            0 <= j < s.len() ==> (#[trigger] ct.mask()[j])@ == (ct1.mask()[j]@ + ct2.mask()[j]@) % q,
        ct.body()@ == (ct1.body()@ + ct2.body()@) % q,
        phase(ct1, s, q) == (e1 + encode_bit(b1, q)) % q,
        phase(ct2, s, q) == (e2 + encode_bit(b2, q)) % q,
    ensures
        phase(ct, s, q) == (e1 + e2 + add_carry(b1, b2, q) + encode_bit(b1 != b2, q)) % q,
        -noise_bound(q) < e1 + e2 + add_carry(b1, b2, q) < noise_bound(q) ==> decrypt_spec(ct, s, q)
            == (b1 != b2),
{
    lemma_add_phase(ct1, ct2, ct, s, q);
    let x1 = e1 + encode_bit(b1, q);
    let x2 = e2 + encode_bit(b2, q);
    lemma_add_mod_noop(x1, x2, q);
    let target = e1 + e2 + add_carry(b1, b2, q) + encode_bit(b1 != b2, q);
    if b1 && b2 {
        assert(x1 + x2 == target + q);
        lemma_mod_add_multiples_vanish(target, q);
    } else {
        assert(x1 + x2 == target);
    }
    if -noise_bound(q) < e1 + e2 + add_carry(b1, b2, q) < noise_bound(q) {
        lemma_decrypt_recovers_bit(ct, s, q, b1 != b2, e1 + e2 + add_carry(b1, b2, q));
    }
}

/// Homomorphic subtraction decrypts to XOR: the difference of encryptions
/// of `b1` and `b2` with noises `e1`, `e2` is an encryption of `b1 XOR b2`
/// with noise `e1 - e2 + sub_carry(b1, b2, q)`.
pub proof fn lemma_sub_is_xor(
    ct1: LweSample,
    ct2: LweSample,
    ct: LweSample,
    s: Seq<ZqElement>,
    q: int,
    b1: bool,
    b2: bool,
    e1: int,
    e2: int,
)
    requires
        q >= 2,
        ct1.mask().len() == s.len(),
        ct2.mask().len() == s.len(),
        ct.mask().len() == s.len(),
        forall|j: int|
            0 <= j < s.len() ==> (#[trigger] ct.mask()[j])@ == (ct1.mask()[j]@ - ct2.mask()[j]@) % q,
        ct.body()@ == (ct1.body()@ - ct2.body()@) % q,
        phase(ct1, s, q) == (e1 + encode_bit(b1, q)) % q,
        phase(ct2, s, q) == (e2 + encode_bit(b2, q)) % q,
    ensures
        phase(ct, s, q) == (e1 - e2 + sub_carry(b1, b2, q) + encode_bit(b1 != b2, q)) % q,
        -noise_bound(q) < e1 - e2 + sub_carry(b1, b2, q) < noise_bound(q) ==> decrypt_spec(ct, s, q)
            == (b1 != b2),
{
    lemma_sub_phase(ct1, ct2, ct, s, q);
    let x1 = e1 + encode_bit(b1, q);
    let x2 = e2 + encode_bit(b2, q);
    lemma_sub_mod_noop(x1, x2, q);
    let target = e1 - e2 + sub_carry(b1, b2, q) + encode_bit(b1 != b2, q);
    if !b1 && b2 {
        assert(x1 - x2 == target - q);
        lemma_mod_sub_multiples_vanish(target, q);
    } else {
        assert(x1 - x2 == target);
    }
    if -noise_bound(q) < e1 - e2 + sub_carry(b1, b2, q) < noise_bound(q) {
        lemma_decrypt_recovers_bit(ct, s, q, b1 != b2, e1 - e2 + sub_carry(b1, b2, q));
    }
}

} // verus!
