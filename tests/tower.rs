use ecc_and_pairings::prime_field::FieldError;
use ecc_and_pairings::tower::{ExtElem, Tower};

fn elem(t: &Tower, c: &[i64]) -> ExtElem {
    t.element(c.to_vec()).unwrap()
}

#[test]
fn tower_construction_errors() {
    assert_eq!(Tower::new(1, vec![0]).unwrap_err(), FieldError::InvalidConstruction);
    assert_eq!(Tower::new(0, vec![0]).unwrap_err(), FieldError::InvalidConstruction);
    assert_eq!(Tower::new(7, vec![]).unwrap_err(), FieldError::InvalidConstruction);
    // 103^10 does not fit in 64 bits
    assert_eq!(Tower::new(103, vec![1; 10]).unwrap_err(), FieldError::InvalidConstruction);
    let t = Tower::new(103, vec![-2, 0, 0, 0, 0, 0]).unwrap();
    assert_eq!(t.degree_of(), 6);
    assert_eq!(t.rule, vec![101, 0, 0, 0, 0, 0]);
    assert_eq!(t.order, 103u64.pow(6));
}

#[test]
fn element_construction_checks_degree() {
    let t = Tower::new(67, vec![-1, 0]).unwrap();
    assert_eq!(t.element(vec![1, 2, 3]).unwrap_err(), FieldError::InvalidConstruction);
    assert_eq!(t.element(vec![1]).unwrap_err(), FieldError::InvalidConstruction);
    assert_eq!(t.element(vec![-1, 70]).unwrap().coeffs, vec![66, 3]);
    assert!(t.contains(&elem(&t, &[5, 6])));
    assert!(!t.contains(&ExtElem { coeffs: vec![67, 0] }));
    assert!(!t.contains(&ExtElem { coeffs: vec![1] }));
}

#[test]
fn quadratic_multiplication() {
    let t = Tower::new(67, vec![-1, 0]).unwrap();
    let a = elem(&t, &[1, 2]);
    let b = elem(&t, &[3, 4]);
    assert_eq!(t.mul(&a, &b).coeffs, vec![62, 10]);
    assert_eq!(t.add(&a, &b).coeffs, vec![4, 6]);
    assert_eq!(t.sub(&a, &b).coeffs, vec![65, 65]);
    assert_eq!(t.neg(&a).coeffs, vec![66, 65]);
    let u = elem(&t, &[0, 1]);
    assert_eq!(t.mul(&u, &u).coeffs, vec![66, 0]);
}

#[test]
fn cubic_multiplication() {
    let t = Tower::new(67, vec![-2, 0, 0]).unwrap();
    let a = elem(&t, &[1, 2, 3]);
    let b = elem(&t, &[4, 5, 6]);
    assert_eq!(t.mul(&a, &b).coeffs, vec![17, 44, 28]);
}

#[test]
fn sextic_reduction_substitutes_x6() {
    let t = Tower::new(103, vec![-2, 0, 0, 0, 0, 0]).unwrap();
    let x = elem(&t, &[0, 1, 0, 0, 0, 0]);
    let x5 = t.pow(&x, 5);
    assert_eq!(x5.coeffs, vec![0, 0, 0, 0, 0, 1]);
    assert_eq!(t.mul(&x5, &x).coeffs, vec![101, 0, 0, 0, 0, 0]);
    assert_eq!(t.pow(&x, 7).coeffs, vec![0, 101, 0, 0, 0, 0]);
    assert_eq!(t.pow(&x, 12).coeffs, vec![4, 0, 0, 0, 0, 0]);
}

#[test]
fn general_rule_reduction() {
    // t^2 = 3 + 2t over F_7: t^3 = 3t + 2t^2 = 3t + 2(3 + 2t) = 6 + 7t = 6
    let t = Tower::new(7, vec![3, 2]).unwrap();
    let g = elem(&t, &[0, 1]);
    assert_eq!(t.pow(&g, 2).coeffs, vec![3, 2]);
    assert_eq!(t.pow(&g, 3).coeffs, vec![6, 0]);
}

#[test]
fn products_have_d_canonical_coefficients() {
    let t = Tower::new(103, vec![-2, 0, 0, 0, 0, 0]).unwrap();
    let a = elem(&t, &[102, 101, 100, 99, 98, 97]);
    let b = elem(&t, &[102, 102, 102, 102, 102, 102]);
    let p = t.mul(&a, &b);
    assert_eq!(p.coeffs.len(), 6);
    assert!(p.coeffs.iter().all(|c| *c < 103));
    assert!(t.contains(&p));
}

#[test]
fn tower_pow_and_inverse() {
    let t = Tower::new(67, vec![-1, 0]).unwrap();
    let a = elem(&t, &[1, 2]);
    let inv = t.inverse(&a).unwrap();
    assert_eq!(inv.coeffs, vec![27, 13]);
    assert_eq!(t.mul(&a, &inv), t.one());
    assert_eq!(t.pow(&a, 0), t.one());
    assert_eq!(t.pow(&a, 1), a);
    assert_eq!(t.pow(&a, 67 * 67 - 1), t.one());
    assert_eq!(t.inverse(&t.zero()).unwrap_err(), FieldError::NonInvertible);
    let q = t.div(&t.one(), &a).unwrap();
    assert_eq!(q, inv);
    assert_eq!(t.div(&a, &t.zero()).unwrap_err(), FieldError::NonInvertible);
}

#[test]
fn sextic_inverse() {
    let t = Tower::new(103, vec![-2, 0, 0, 0, 0, 0]).unwrap();
    let x = elem(&t, &[0, 1, 0, 0, 0, 0]);
    assert_eq!(t.inverse(&x).unwrap().coeffs, vec![0, 0, 0, 0, 0, 51]);
    let a = elem(&t, &[3, 1, 4, 1, 5, 9]);
    let ai = t.inverse(&a).unwrap();
    assert_eq!(t.mul(&a, &ai), t.one());
}

#[test]
fn inverse_fails_in_a_ring_that_is_not_a_field() {
    // t^2 = 1 over F_5 is not irreducible: (1 + t)(1 - t) = 0
    let t = Tower::new(5, vec![1, 0]).unwrap();
    let a = elem(&t, &[1, 1]);
    assert_eq!(t.inverse(&a).unwrap_err(), FieldError::NonInvertible);
}

#[test]
fn frobenius_on_elements() {
    let t = Tower::new(67, vec![-1, 0]).unwrap();
    let a = elem(&t, &[16, 2]);
    let f = t.frobenius(&a, 66);
    assert_eq!(f.coeffs, vec![16, 65]);
    assert_eq!(f, t.pow(&a, 67));
    assert_eq!(t.frobenius(&f, 66), a);
}

#[test]
fn tower_field_axioms_on_samples() {
    let t = Tower::new(67, vec![-2, 0, 0]).unwrap();
    let a = elem(&t, &[8, 49, 19]);
    let b = elem(&t, &[21, 66, 20]);
    let c = elem(&t, &[4, 0, 60]);
    assert_eq!(t.add(&t.add(&a, &b), &c), t.add(&a, &t.add(&b, &c)));
    assert_eq!(t.mul(&a, &t.add(&b, &c)), t.add(&t.mul(&a, &b), &t.mul(&a, &c)));
    assert_eq!(t.mul(&t.mul(&a, &b), &c), t.mul(&a, &t.mul(&b, &c)));
    assert_eq!(t.mul(&a, &b), t.mul(&b, &a));
    assert_eq!(t.mul(&a, &t.one()), a);
    assert_eq!(t.add(&a, &t.neg(&a)), t.zero());
    assert_eq!(t.mul(&a, &t.inverse(&a).unwrap()), t.one());
}

#[test]
fn quadratic_inverse_with_general_rule() {
    // t^2 = 3 + t over F_7 is irreducible: its discriminant 1 + 12 = 6 is not a square mod 7
    let t = Tower::new(7, vec![3, 1]).unwrap();
    for a0 in 0..7 {
        for a1 in 0..7 {
            let a = elem(&t, &[a0, a1]);
            if a0 == 0 && a1 == 0 {
                assert_eq!(t.inverse(&a).unwrap_err(), FieldError::NonInvertible);
            } else {
                let i = t.inverse(&a).unwrap();
                assert_eq!(t.mul(&a, &i), t.one(), "a = {} + {} t", a0, a1);
                assert_eq!(t.mul(&i, &a), t.one());
            }
        }
    }
}

#[test]
fn prime_field_as_degree_one_tower() {
    assert_eq!(Tower::prime_field(1).unwrap_err(), FieldError::InvalidConstruction);
    let f = Tower::prime_field(11).unwrap();
    assert_eq!(f.degree_of(), 1);
    assert_eq!(f.order, 11);
    let a = elem(&f, &[-2]);
    assert_eq!(a.coeffs, vec![9]);
    assert_eq!(t_mul(&f, 9, 5), 1);
    assert_eq!(f.inverse(&a).unwrap().coeffs, vec![5]);
    assert_eq!(f.pow(&a, 10), f.one());
}

fn t_mul(f: &Tower, x: i64, y: i64) -> u64 {
    f.mul(&elem(f, &[x]), &elem(f, &[y])).coeffs[0]
}
