use lwe::regev::arith::{
    add_assign_vec_mod, add_mod, distance_to_zero, inner_product_mod, mul_mod, sub_mod, Modulus,
    ZqElement,
};
use rand::rngs::StdRng;
use rand::{RngExt, SeedableRng};

fn q17() -> Modulus {
    Modulus::new(17)
}

fn z(x: u32) -> ZqElement {
    ZqElement::new(x, q17())
}

#[test]
fn arith_from_i64_handles_negatives() {
    let q = q17();
    assert_eq!(ZqElement::from_i64(0, q).raw(), 0);
    assert_eq!(ZqElement::from_i64(5, q).raw(), 5);
    assert_eq!(ZqElement::from_i64(17, q).raw(), 0);
    assert_eq!(ZqElement::from_i64(18, q).raw(), 1);
    assert_eq!(ZqElement::from_i64(-1, q).raw(), 16);
    assert_eq!(ZqElement::from_i64(-17, q).raw(), 0);
    assert_eq!(ZqElement::from_i64(-18, q).raw(), 16);
}

#[test]
fn add_sub_round_trip() {
    let q = q17();
    for a in 0..q.raw() {
        for b in 0..q.raw() {
            let s = add_mod(z(a), z(b), q);
            assert!(s.raw() < q.raw());
            assert_eq!(sub_mod(s, z(b), q), z(a));
        }
    }
}

#[test]
fn arith_mul_matches_naive() {
    let q = q17();
    for a in 0..q.raw() {
        for b in 0..q.raw() {
            assert_eq!(mul_mod(z(a), z(b), q).raw(), (a * b) % q.raw());
        }
    }
}

#[test]
fn mul_near_invariant_boundary() {
    // q just under 2^32: the Barrett path at the worst case, where (q-1)^2 is
    // just under 2^64.
    let q = Modulus::new(u32::MAX - 4);
    let a = q.raw() - 1;
    let b = q.raw() - 1;
    let expected = ((a as u64 * b as u64) % q.raw() as u64) as u32;
    let result = mul_mod(ZqElement::new(a, q), ZqElement::new(b, q), q);
    assert_eq!(result.raw(), expected);
}

#[test]
fn mul_mod_matches_naive_random() {
    const TEST_PRIMES: [u32; 8] = [
        7,
        17,
        257,
        1_009,
        65_537,
        1_000_003,
        2_147_483_647,
        4_294_967_291,
    ];
    let mut rng = StdRng::seed_from_u64(42);
    for &q_raw in &TEST_PRIMES {
        let q = Modulus::new(q_raw);
        for _ in 0..5000 {
            let a = rng.random_range(0..q_raw);
            let b = rng.random_range(0..q_raw);
            let got = mul_mod(ZqElement::new(a, q), ZqElement::new(b, q), q).raw();
            let want = ((a as u64 * b as u64) % q_raw as u64) as u32;
            assert_eq!(got, want, "q={q_raw} a={a} b={b}");
        }
    }
}

#[test]
fn mul_mod_smallest_modulus() {
    let q = Modulus::new(2);
    let one = ZqElement::new(1, q);
    assert_eq!(mul_mod(one, one, q).raw(), 1);
    assert_eq!(mul_mod(one, ZqElement::new(0, q), q).raw(), 0);
}

#[test]
fn inner_product_simple() {
    let a = [z(1), z(2), z(3)];
    let b = [z(4), z(5), z(6)];
    // 1*4 + 2*5 + 3*6 = 32 = 17 + 15
    assert_eq!(inner_product_mod(&a, &b, q17()).raw(), 15);
}

#[test]
fn inner_product_empty_is_zero() {
    let a: [ZqElement; 0] = [];
    let b: [ZqElement; 0] = [];
    assert_eq!(inner_product_mod(&a, &b, q17()), ZqElement::zero());
}

#[test]
fn add_assign_vec_works() {
    let mut a = [z(1), z(2), z(3)];
    let b = [z(10), z(15), z(16)];
    add_assign_vec_mod(&mut a, &b, q17());
    assert_eq!(a, [z(11), z(0), z(2)]);
}

#[test]
fn distance_to_zero_basics() {
    let q = q17();
    assert_eq!(distance_to_zero(z(0), q), 0);
    assert_eq!(distance_to_zero(z(1), q), 1);
    assert_eq!(distance_to_zero(z(8), q), 8);
    assert_eq!(distance_to_zero(z(9), q), 8);
    assert_eq!(distance_to_zero(z(16), q), 1);
}

#[test]
fn conditional_select_works() {
    let a = z(3);
    let b = z(7);
    assert_eq!(ZqElement::conditional_select(&a, &b, false), a);
    assert_eq!(ZqElement::conditional_select(&a, &b, true), b);
}

#[test]
fn add_and_sub_wrap_at_the_modulus() {
    let q = q17();
    assert_eq!(add_mod(z(16), z(1), q).raw(), 0);
    assert_eq!(add_mod(z(16), z(16), q).raw(), 15);
    assert_eq!(sub_mod(z(0), z(1), q).raw(), 16);
    assert_eq!(sub_mod(z(5), z(5), q).raw(), 0);
}

#[test]
fn regev_default_is_zero() {
    assert_eq!(ZqElement::default().raw(), 0);
}
