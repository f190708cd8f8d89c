//! The scheme end to end with the survey's default parameters. Parameter
//! formulas and the Gaussian noise are real-valued, so these helpers compute
//! them here, drawing in the same order as key generation does.
use lwe::regev::arith::ZqElement;
use lwe::regev::lwe::{
    add, decrypt, encrypt, keygen_from, sub, trivial_encrypt, uniform_zq_vec, PublicKey,
    SecretKey,
};
use lwe::regev::params::{Alpha, Dimension, LweParams, SampleCount};
use rand::rngs::StdRng;
use rand::SeedableRng;
use rand_distr::{Distribution, Normal};

fn regev_default(dimension: usize) -> LweParams {
    let modulus = LweParams::default_modulus(dimension).unwrap();
    let log_modulus = (modulus.raw() as f64).log2();
    let sample_count = (1.1 * dimension as f64 * log_modulus).ceil() as usize;
    let log_dimension = (dimension as f64).log2();
    let alpha = 1.0 / ((dimension as f64).sqrt() * log_dimension * log_dimension);
    LweParams::new(
        Dimension(dimension),
        SampleCount(sample_count),
        modulus,
        Alpha(alpha.to_bits()),
    )
    .unwrap()
}

fn keygen(params: &LweParams, rng: &mut StdRng) -> (SecretKey, PublicKey) {
    let n = params.dimension().0;
    let m = params.sample_count().0;
    let q = params.modulus();
    let sigma = f64::from_bits(params.alpha().0) * q.raw() as f64;
    let normal = Normal::new(0.0, sigma).unwrap();
    let s = uniform_zq_vec(rng, n, q);
    let mut rows = Vec::new();
    let mut errors = Vec::new();
    for _ in 0..m {
        rows.push(uniform_zq_vec(rng, n, q));
        let e = normal.sample(rng).round();
        assert!(e.abs() < q.raw() as f64);
        errors.push(ZqElement::from_i64(e as i64, q));
    }
    keygen_from(params, s, &rows, &errors)
}

#[test]
fn regev_default_512_matches_paper() {
    let p = regev_default(512);
    assert_eq!(p.dimension().0, 512);
    assert_eq!(p.modulus().raw(), 262147);
    let dim_sq = (p.dimension().0 as u32).pow(2);
    assert!(p.modulus().raw() > dim_sq && p.modulus().raw() < 2 * dim_sq);
    assert_eq!(p.sample_count().0, 10138);
}

#[test]
fn encrypt_decrypt_roundtrip() {
    let params = regev_default(256);
    let mut rng = StdRng::seed_from_u64(0);
    let (sk, pk) = keygen(&params, &mut rng);

    for bit in [true, false] {
        let ct = encrypt(&pk, bit, &mut rng);
        assert_eq!(decrypt(&sk, &ct), bit);
    }
}

#[test]
fn encryptions_of_same_bit_differ() {
    let params = regev_default(256);
    let mut rng = StdRng::seed_from_u64(1);
    let (_sk, pk) = keygen(&params, &mut rng);

    let ct1 = encrypt(&pk, true, &mut rng);
    let ct2 = encrypt(&pk, true, &mut rng);

    assert_ne!(ct1, ct2);
}

#[test]
fn homomorphic_add_is_xor() {
    let params = regev_default(256);
    let q = params.modulus();
    let mut rng = StdRng::seed_from_u64(3);
    let (sk, pk) = keygen(&params, &mut rng);

    for b1 in [false, true] {
        for b2 in [false, true] {
            let ct1 = encrypt(&pk, b1, &mut rng);
            let ct2 = encrypt(&pk, b2, &mut rng);
            let ct_sum = add(&ct1, &ct2, q);
            assert_eq!(decrypt(&sk, &ct_sum), b1 ^ b2, "{b1} XOR {b2}");
        }
    }
}

#[test]
fn homomorphic_sub_is_xor() {
    let params = regev_default(256);
    let q = params.modulus();
    let mut rng = StdRng::seed_from_u64(6);
    let (sk, pk) = keygen(&params, &mut rng);

    for b1 in [false, true] {
        for b2 in [false, true] {
            let ct1 = encrypt(&pk, b1, &mut rng);
            let ct2 = encrypt(&pk, b2, &mut rng);
            let ct_diff = sub(&ct1, &ct2, q);
            assert_eq!(decrypt(&sk, &ct_diff), b1 ^ b2, "{b1} - {b2}");
        }
    }
}

#[test]
fn trivial_encrypt_decrypts_to_input() {
    let params = regev_default(256);
    let mut rng = StdRng::seed_from_u64(5);
    let (sk, _pk) = keygen(&params, &mut rng);

    for bit in [false, true] {
        let ct = trivial_encrypt(&params, bit);
        assert_eq!(decrypt(&sk, &ct), bit);
    }
}

#[test]
fn add_with_trivial_is_plaintext_xor() {
    let params = regev_default(256);
    let q = params.modulus();
    let mut rng = StdRng::seed_from_u64(4);
    let (sk, pk) = keygen(&params, &mut rng);

    for ct_bit in [false, true] {
        for pt_bit in [false, true] {
            let ct = encrypt(&pk, ct_bit, &mut rng);
            let trivial = trivial_encrypt(&params, pt_bit);
            let combined = add(&ct, &trivial, q);
            assert_eq!(
                decrypt(&sk, &combined),
                ct_bit ^ pt_bit,
                "{ct_bit} XOR {pt_bit}"
            );
        }
    }
}
