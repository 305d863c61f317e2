use ecc_and_pairings::prime_field::{inverse_mod, FieldError, Fq};

fn fq(n: i64, q: u64) -> Fq {
    Fq::new(n, q)
}

#[test]
fn new_reduces_negative_and_large_inputs() {
    assert_eq!(Fq::new(-2, 11).value, 9);
    assert_eq!(Fq::new(-11, 11).value, 0);
    assert_eq!(Fq::new(-23, 11).value, 10);
    assert_eq!(Fq::new(25, 11).value, 3);
    assert_eq!(Fq::new(i64::MIN, 7).value, (i64::MIN).rem_euclid(7) as u64);
    assert_eq!(Fq::from_u64(u64::MAX, 1021).value, u64::MAX % 1021);
}

#[test]
fn arithmetic_stays_canonical() {
    let q = 23;
    let a = fq(20, q);
    let b = fq(7, q);
    assert_eq!(a.add(&b).value, 4);
    assert_eq!(b.sub(&a).value, 10);
    assert_eq!(a.mul(&b).value, 140 % 23);
    assert_eq!(b.neg().value, 16);
    assert_eq!(Fq::zero(q).neg().value, 0);
    assert_eq!(a.pow(0).value, 1);
    assert_eq!(a.pow(5).value, 3_200_000 % 23);
    assert_eq!(fq(3, 1021).pow(1019).value, 681);
}

#[test]
fn large_modulus_multiplication_does_not_overflow() {
    let q: u64 = 18_446_744_073_709_551_557; // largest 64-bit prime
    let a = Fq::from_u64(q - 1, q);
    assert_eq!(a.mul(&a).value, 1);
    assert_eq!(a.add(&a).value, q - 2);
    assert_eq!(a.inv().unwrap().value, q - 1);
}

#[test]
fn inverse_of_nonzero_elements() {
    assert_eq!(inverse_mod(3, 11).unwrap().value, 4);
    assert_eq!(fq(2, 23).inv().unwrap().value, 12);
    for v in 1..67 {
        let a = fq(v, 67);
        let i = a.inv().unwrap();
        assert_eq!(a.mul(&i).value, 1);
    }
}

#[test]
fn zero_and_non_units_have_no_inverse() {
    assert_eq!(fq(0, 11).inv(), Err(FieldError::NonInvertible));
    assert_eq!(inverse_mod(0, 11), Err(FieldError::NonInvertible));
    assert_eq!(inverse_mod(6, 9), Err(FieldError::NonInvertible));
    assert_eq!(inverse_mod(4, 9).unwrap().value, 7);
    assert_eq!(inverse_mod(22, 11), Err(FieldError::NonInvertible));
    assert_eq!(inverse_mod(14, 11).unwrap().value, 4);
}

#[test]
fn field_axioms_on_small_field() {
    let q = 13;
    for x in 0..13 {
        for y in 0..13 {
            for z in [0, 1, 5, 12] {
                let (a, b, c) = (fq(x, q), fq(y, q), fq(z, q));
                assert_eq!(a.add(&b).add(&c), a.add(&b.add(&c)));
                assert_eq!(a.mul(&b.add(&c)), a.mul(&b).add(&a.mul(&c)));
                assert_eq!(a.mul(&b).mul(&c), a.mul(&b.mul(&c)));
            }
            let a = fq(x, q);
            assert_eq!(a.add(&a.neg()), Fq::zero(q));
            if x != 0 {
                assert_eq!(a.mul(&a.inv().unwrap()), Fq::one(q));
            }
        }
    }
}

#[test]
fn division_by_units_and_by_zero() {
    let q = 23;
    let a = fq(5, q);
    let b = fq(7, q);
    let r = a.div(&b).unwrap();
    assert_eq!(r.mul(&b), a);
    assert_eq!(r.value, 5 * 10 % 23); // 7 * 10 = 70 = 1 mod 23
    assert_eq!(a.div(&Fq::zero(q)), Err(FieldError::NonInvertible));
    assert_eq!(fq(3, 9).div(&fq(3, 9)), Err(FieldError::NonInvertible));
}
