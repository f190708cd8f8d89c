use lwe::tfhe::modq::{add_mod, mul_mod, neg_mod, sub_mod, Modulo, Modulus, ZqElement};
use rand::rngs::StdRng;
use rand::SeedableRng;

fn q6() -> Modulus {
    Modulus::new(6).unwrap()
}

fn q64() -> Modulus {
    Modulus::new(64).unwrap()
}

fn z6(x: u64) -> ZqElement {
    ZqElement::from_u64(x, q6())
}

#[test]
fn modulus_bounds() {
    assert!(Modulus::new(1).is_err());
    assert!(Modulus::new(65).is_err());
    assert!(Modulus::new(64).is_ok());
    assert_eq!(q6().q(), 64);
    assert_eq!(q64().q(), 1u128 << 64);
}

#[test]
fn modulus_error_reports_bits() {
    let e = Modulus::new(70).unwrap_err();
    assert_eq!(e.bits(), 70);
    assert_eq!(e.message(), "bits must be in [2, 64]");
    assert_eq!(Modulus::new(2).unwrap().q(), 4);
    assert_eq!(q6().bits(), 6);
}

#[test]
fn modulo_matches_rem() {
    for x in [0u64, 1, 63, 64, 65, 200, u64::MAX] {
        assert_eq!(x.modulo(q6()), x % 64);
    }
    assert_eq!(u64::MAX.modulo(q64()), u64::MAX);
}

#[test]
fn ops_match_naive_small_q() {
    let q = q6();
    for a in 0..64 {
        for b in 0..64 {
            assert_eq!(add_mod(z6(a), z6(b), q).raw(), (a + b) % 64);
            assert_eq!(sub_mod(z6(a), z6(b), q).raw(), (64 + a - b) % 64);
            assert_eq!(mul_mod(z6(a), z6(b), q).raw(), (a * b) % 64);
        }
    }
}

#[test]
fn neg_matches_naive() {
    let q = q6();
    for a in 0..64 {
        assert_eq!(neg_mod(z6(a), q).raw(), (64 - a) % 64);
    }
    assert_eq!(neg_mod(ZqElement::from_u64(1, q64()), q64()).raw(), u64::MAX);
}

#[test]
fn ops_wrap_at_native_width() {
    let q = q64();
    let a = ZqElement::from_u64(u64::MAX, q);
    let b = ZqElement::from_u64(1, q);
    assert_eq!(add_mod(a, b, q), ZqElement::zero());
    assert_eq!(sub_mod(ZqElement::zero(), b, q).raw(), u64::MAX);
    let c = ZqElement::from_u64(1u64 << 63, q);
    assert_eq!(mul_mod(c, ZqElement::from_u64(2, q), q), ZqElement::zero());
}

#[test]
fn modq_from_i64_handles_negatives() {
    assert_eq!(ZqElement::from_i64(-1, q6()).raw(), 63);
    assert_eq!(ZqElement::from_i64(-64, q6()).raw(), 0);
    assert_eq!(ZqElement::from_i64(5, q6()).raw(), 5);
    assert_eq!(ZqElement::from_i64(-1, q64()).raw(), u64::MAX);
}

#[test]
fn to_centered_basics() {
    let q = q6();
    assert_eq!(z6(0).to_centered(q), 0);
    assert_eq!(z6(31).to_centered(q), 31);
    assert_eq!(z6(32).to_centered(q), -32);
    assert_eq!(z6(63).to_centered(q), -1);
    assert_eq!(ZqElement::from_u64(u64::MAX, q64()).to_centered(q64()), -1);
    assert_eq!(ZqElement::from_u64(1u64 << 63, q64()).to_centered(q64()), i64::MIN);
}

#[test]
fn centered_round_trip() {
    for x in 0..64 {
        let e = z6(x);
        assert_eq!(ZqElement::from_i64(e.to_centered(q6()), q6()), e);
    }
}

#[test]
fn modq_default_is_zero() {
    assert_eq!(ZqElement::default(), ZqElement::zero());
}

#[test]
fn random_is_in_range() {
    let mut rng = StdRng::seed_from_u64(0);
    for _ in 0..1000 {
        assert!(ZqElement::random(&mut rng, q6()).raw() < 64);
    }
}
