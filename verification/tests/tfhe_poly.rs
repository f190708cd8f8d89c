use lwe::tfhe::modq::{Modulus, ZqElement};
use lwe::tfhe::params::{test_default, toy, GlweParams};
use lwe::tfhe::poly::Poly;
use rand::rngs::StdRng;
use rand::SeedableRng;

fn q6() -> Modulus {
    Modulus::new(6).unwrap()
}

fn p(coeffs: &[i64]) -> Poly {
    Poly::from_signed(coeffs, q6())
}


#[test]
fn signed_round_trip() {
    let a = p(&[28, -5, -30, 17]);
    assert_eq!(a.to_centered(q6()), vec![28, -5, -30, 17]);
}

#[test]
fn add_sub_neg_match_naive() {
    let q = q6();
    let a = p(&[1, 2, 3, 4]);
    let b = p(&[5, -6, 7, -8]);
    assert_eq!(a.add(&b, q), p(&[6, -4, 10, -4]));
    assert_eq!(a.sub(&b, q), p(&[-4, 8, -4, 12]));
    assert_eq!(b.neg(q), p(&[-5, 6, -7, 8]));
}

#[test]
fn add_assign_matches_add() {
    let q = q6();
    let a = p(&[1, 2, 3, 4]);
    let b = p(&[5, -6, 7, -8]);
    let mut c = a.clone();
    c.add_assign(&b, q);
    assert_eq!(c, a.add(&b, q));
}

#[test]
fn scalar_mul_matches_naive() {
    let a = p(&[1, -2, 0, 31]);
    let c = ZqElement::from_i64(3, q6());
    assert_eq!(a.scalar_mul(c, q6()), p(&[3, -6, 0, 93]));
}

#[test]
fn x_times_x_cubed_wraps_to_minus_one() {
    let x = p(&[0, 1, 0, 0]);
    let x3 = p(&[0, 0, 0, 1]);
    assert_eq!(x.mul(&x3, q6()), p(&[-1, 0, 0, 0]));
}

#[test]
fn poly_mul_matches_naive() {
    let q = q6();
    let mut rng = StdRng::seed_from_u64(1);
    let n = 8;
    for _ in 0..20 {
        let a = Poly::random(&mut rng, n, q);
        let b = Poly::random(&mut rng, n, q);

        let mut full = vec![0i64; 2 * n - 1];
        for i in 0..n {
            for j in 0..n {
                full[i + j] += (a.coeff(i).raw() * b.coeff(j).raw()) as i64;
            }
        }
        let mut folded = vec![0i64; n];
        for (k, &c) in full.iter().enumerate() {
            if k < n {
                folded[k] += c;
            } else {
                folded[k - n] -= c;
            }
        }

        assert_eq!(a.mul(&b, q), Poly::from_signed(&folded, q));
        assert_eq!(a.mul(&b, q), b.mul(&a, q));
    }
}

#[test]
fn poly_accessors() {
    let a = p(&[1, 2, 3]);
    assert_eq!(a.n(), 3);
    assert_eq!(a.coeff(2).raw(), 3);
    assert_eq!(a.coeffs().len(), 3);
    let z = Poly::zero(5);
    assert_eq!(z.n(), 5);
    assert!(z.coeffs().iter().all(|c| c.raw() == 0));
    assert_eq!(Poly::new(vec![ZqElement::zero()]).n(), 1);
}

#[test]
fn mul_by_one_is_identity() {
    let q = q6();
    let a = p(&[7, -3, 12, 30]);
    let one = p(&[1, 0, 0, 0]);
    assert_eq!(a.mul(&one, q), a);
    assert_eq!(one.mul(&a, q), a);
}

#[test]
fn glwe_param_sets() {
    let t: GlweParams = toy();
    assert_eq!((t.k(), t.n(), t.q().bits()), (2, 4, 6));
    assert_eq!(t.p(), 4);
    assert_eq!(t.delta(), 16);
    assert_eq!(f64::from_bits(t.sigma()), 0.0);
    let d = test_default();
    assert_eq!((d.k(), d.n(), d.q().bits()), (2, 256, 64));
    assert_eq!(d.p(), 256);
    assert_eq!(d.delta(), 1u64 << 56);
    assert_eq!(f64::from_bits(d.sigma()), (1u64 << 36) as f64);
}
