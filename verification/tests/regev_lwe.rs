use lwe::regev::arith::{Modulus, ZqElement};
use lwe::regev::lwe::{
    add, decrypt, encrypt, encrypt_with_choices, keygen_from, noisy_sample, sub, trivial_encrypt,
    uniform_zq, uniform_zq_vec, PublicKey, SecretKey,
};
use lwe::regev::params::{Alpha, Dimension, LweParams, SampleCount};
use rand::rngs::StdRng;
use rand::{RngExt, SeedableRng};

const N: usize = 16;
const M: usize = 100;
const Q: u32 = 257;

fn params() -> LweParams {
    LweParams::new(Dimension(N), SampleCount(M), Modulus::new(Q), Alpha(0.01f64.to_bits())).unwrap()
}


/// Keys whose noise values lie in `{-1, 0, 1}`.
fn keys(seed: u64) -> (SecretKey, PublicKey, StdRng) {
    let p = params();
    let q = p.modulus();
    let mut rng = StdRng::seed_from_u64(seed);
    let s = uniform_zq_vec(&mut rng, N, q);
    let mut rows = Vec::new();
    let mut errors = Vec::new();
    for _ in 0..M {
        rows.push(uniform_zq_vec(&mut rng, N, q));
        errors.push(ZqElement::from_i64(rng.random_range(-1i64..=1), q));
    }
    let (sk, pk) = keygen_from(&p, s, &rows, &errors);
    (sk, pk, rng)
}

/// Selects about a tenth of the samples, so the accumulated noise stays far
/// below the decryption bound.
fn choices(rng: &mut StdRng) -> Vec<bool> {
    (0..M).map(|_| rng.random_range(0..10) == 0).collect()
}

#[test]
fn keygen_from_builds_noisy_samples() {
    let p = params();
    let q = p.modulus();
    let s: Vec<ZqElement> = (0..N as u32).map(|i| ZqElement::new(i, q)).collect();
    let row: Vec<ZqElement> = (0..N as u32).map(|_| ZqElement::new(1, q)).collect();
    // <row, s> = 0 + 1 + ... + 15 = 120; plus noise 256 (i.e. -1) gives 119.
    let sample = noisy_sample(row, &s, ZqElement::from_i64(-1, q), q);
    assert_eq!(sample.data_bytes(), (N + 1) * 4);
    let sk_s = s.clone();
    let rows = vec![vec![ZqElement::new(1, q); N]; M];
    let errors = vec![ZqElement::from_i64(-1, q); M];
    let (sk, pk) = keygen_from(&p, sk_s, &rows, &errors);
    assert_eq!(sk.data_bytes(), N * 4);
    assert_eq!(pk.data_bytes(), M * (N + 1) * 4);
    // Selecting exactly the first sample with bit 0 gives that sample back.
    let mut takes = vec![false; M];
    takes[0] = true;
    let ct = encrypt_with_choices(&pk, false, &takes);
    assert_eq!(ct, sample);
    assert!(!decrypt(&sk, &ct));
}

#[test]
fn roundtrip_with_drawn_values() {
    let (sk, pk, mut rng) = keys(0);
    for bit in [true, false] {
        let takes = choices(&mut rng);
        let ct = encrypt_with_choices(&pk, bit, &takes);
        assert_eq!(decrypt(&sk, &ct), bit);
    }
}

#[test]
fn different_choices_give_different_ciphertexts() {
    let (_sk, pk, mut rng) = keys(1);
    let ct1 = encrypt_with_choices(&pk, true, &choices(&mut rng));
    let ct2 = encrypt_with_choices(&pk, true, &choices(&mut rng));
    assert_ne!(ct1, ct2);
}

#[test]
fn homomorphic_add_and_sub_are_xor() {
    let (sk, pk, mut rng) = keys(3);
    let q = sk.params().modulus();
    for b1 in [false, true] {
        for b2 in [false, true] {
            let ct1 = encrypt_with_choices(&pk, b1, &choices(&mut rng));
            let ct2 = encrypt_with_choices(&pk, b2, &choices(&mut rng));
            assert_eq!(decrypt(&sk, &add(&ct1, &ct2, q)), b1 ^ b2, "{b1} XOR {b2}");
            assert_eq!(decrypt(&sk, &sub(&ct1, &ct2, q)), b1 ^ b2, "{b1} - {b2}");
        }
    }
}

#[test]
fn trivial_encryption_decrypts_to_its_bit() {
    let (sk, pk, mut rng) = keys(5);
    let p = params();
    let q = p.modulus();
    for bit in [false, true] {
        let ct = trivial_encrypt(&p, bit);
        assert_eq!(decrypt(&sk, &ct), bit);
        for pt_bit in [false, true] {
            let enc = encrypt_with_choices(&pk, pt_bit, &choices(&mut rng));
            assert_eq!(decrypt(&sk, &add(&enc, &ct, q)), bit ^ pt_bit);
        }
    }
}

#[test]
fn trivial_encryption_shape() {
    let p = params();
    let ct = trivial_encrypt(&p, true);
    let zero = trivial_encrypt(&p, false);
    let q = p.modulus();
    // Adding an encryption of 1 to itself gives 2 * 128 = 256 = -1 mod 257.
    let twice = add(&ct, &ct, q);
    let back = sub(&twice, &ct, q);
    assert_eq!(back, ct);
    assert_eq!(sub(&ct, &ct, q), zero);
    assert_eq!(ct.data_bytes(), (N + 1) * 4);
}

#[test]
fn cloned_keys_decrypt_alike() {
    let (sk, pk, mut rng) = keys(7);
    let sk2 = sk.clone();
    let pk2 = pk.clone();
    let ct = encrypt_with_choices(&pk2, true, &choices(&mut rng));
    assert!(decrypt(&sk2, &ct));
    assert!(decrypt(&sk, &ct.clone()));
}

#[test]
fn repeated_encryptions_of_one_bit_differ() {
    let (_sk, pk, mut rng) = keys(11);
    let ct1 = encrypt(&pk, true, &mut rng);
    let ct2 = encrypt(&pk, true, &mut rng);
    assert_ne!(ct1, ct2);
}

#[test]
fn encrypt_output_has_key_shape() {
    let (_sk, pk, mut rng) = keys(12);
    let ct = encrypt(&pk, false, &mut rng);
    assert_eq!(ct.data_bytes(), (N + 1) * 4);
}

#[test]
fn uniform_samples_are_in_range() {
    let q = Modulus::new(101);
    let mut rng = StdRng::seed_from_u64(42);
    for _ in 0..1000 {
        assert!(uniform_zq(&mut rng, q).raw() < q.raw());
    }
    let v = uniform_zq_vec(&mut rng, 37, q);
    assert_eq!(v.len(), 37);
    assert!(v.iter().all(|x| x.raw() < 101));
}
