use lwe::regev::arith::Modulus;
use lwe::regev::params::{is_prime, Alpha, Dimension, LweParams, ParamIssue, SampleCount};

fn alpha(x: f64) -> Alpha {
    Alpha(x.to_bits())
}

#[test]
fn primes_are_prime() {
    for &p in &[2u32, 3, 5, 7, 11, 65537, 262147] {
        assert!(is_prime(p), "{p} should be prime");
    }
    for &c in &[0u32, 1, 4, 9, 65536, 262144] {
        assert!(!is_prime(c), "{c} should be composite");
    }
}

#[test]
fn large_primes_and_composites() {
    assert!(is_prime(4_294_967_291));
    assert!(!is_prime(u32::MAX));
    assert!(!is_prime(65537 * 65521));
}

#[test]
fn new_rejects_invalid() {
    let cases = [
        // modulus composite (non-prime)
        (16usize, 100usize, 258u32, 0.01f64, ParamIssue::ModulusNotPrime),
        // modulus < dimension^2
        (16, 100, 251, 0.01, ParamIssue::ModulusOutOfRange),
        // modulus >= 2 * dimension^2
        (16, 100, 521, 0.01, ParamIssue::ModulusOutOfRange),
        // sample_count < dimension
        (16, 8, 257, 0.01, ParamIssue::TooFewSamples),
        // alpha = 0
        (16, 100, 257, 0.0, ParamIssue::AlphaNotPositiveFinite),
        // dimension too small
        (1, 100, 257, 0.01, ParamIssue::DimensionTooSmall),
    ];
    for (d, m, q, a, issue) in cases {
        let r = LweParams::new(Dimension(d), SampleCount(m), Modulus::new(q), alpha(a));
        assert!(r.is_err());
        assert_eq!(r.unwrap_err().issue(), issue);
    }
}

#[test]
fn new_rejects_bad_alpha_values() {
    for a in [-0.5f64, f64::INFINITY, f64::NAN, -0.0] {
        let r = LweParams::new(Dimension(16), SampleCount(100), Modulus::new(257), alpha(a));
        assert_eq!(r.unwrap_err().issue(), ParamIssue::AlphaNotPositiveFinite);
    }
}

#[test]
fn new_rejects_oversized_dimension() {
    let r = LweParams::new(Dimension(70_000), SampleCount(70_000), Modulus::new(257), alpha(0.01));
    assert_eq!(r.unwrap_err().issue(), ParamIssue::DimensionSquaredTooLarge);
    let r = LweParams::new(Dimension(50_000), SampleCount(50_000), Modulus::new(257), alpha(0.01));
    assert_eq!(r.unwrap_err().issue(), ParamIssue::DoubleDimensionSquaredTooLarge);
}

#[test]
fn new_accepts_valid_and_keeps_fields() {
    let p = LweParams::new(Dimension(16), SampleCount(100), Modulus::new(257), alpha(0.01)).unwrap();
    assert_eq!(p.dimension().0, 16);
    assert_eq!(p.sample_count().0, 100);
    assert_eq!(p.modulus().raw(), 257);
    assert_eq!(f64::from_bits(p.alpha().0), 0.01);
}

#[test]
fn default_modulus_512_matches_paper() {
    let q = LweParams::default_modulus(512).unwrap();
    assert_eq!(q.raw(), 262147);
    let dim_sq = 512u32 * 512;
    assert!(q.raw() > dim_sq && q.raw() < 2 * dim_sq);
}

#[test]
fn default_modulus_errors() {
    let e = LweParams::default_modulus(70_000).unwrap_err();
    assert_eq!(e.issue(), ParamIssue::DimensionSquaredTooLarge);
    assert_eq!(e.message(), "dimension^2 does not fit in u32");
    assert_eq!(LweParams::default_modulus(0).unwrap().raw(), 2);
    assert_eq!(LweParams::default_modulus(65_535).unwrap().raw(), 4_294_836_241);
}

#[test]
fn error_messages() {
    let r = LweParams::new(Dimension(1), SampleCount(100), Modulus::new(257), alpha(0.01));
    assert_eq!(r.unwrap_err().message(), "dimension must be at least 2");
}
