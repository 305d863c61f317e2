use ecc_and_pairings::curve::{EllipticCurve, Point};
use ecc_and_pairings::prime_field::FieldError;
use ecc_and_pairings::projective::is_elliptic_curve;
use ecc_and_pairings::tower::{ExtElem, Tower};

/// The curve `y^2 = x^3 + a x + b` over the prime field `F_q`.
fn prime_curve(q: u64, a: i64, b: i64) -> EllipticCurve {
    let f = Tower::new(q, vec![0]).unwrap();
    let a = f.element(vec![a]).unwrap();
    let b = f.element(vec![b]).unwrap();
    EllipticCurve::new(f, a, b).unwrap()
}

fn pt(c: &EllipticCurve, x: i64, y: i64) -> Point {
    let x = c.field.element(vec![x]).unwrap();
    let y = c.field.element(vec![y]).unwrap();
    c.point(x, y).unwrap()
}

fn ext_pt(c: &EllipticCurve, x: &[i64], y: &[i64]) -> Point {
    let x = c.field.element(x.to_vec()).unwrap();
    let y = c.field.element(y.to_vec()).unwrap();
    c.point(x, y).unwrap()
}

fn repeat_add(c: &EllipticCurve, k: u64, p: &Point) -> Point {
    let mut r = Point::identity();
    for _ in 0..k {
        r = c.add(&r, p).unwrap();
    }
    r
}

#[test]
fn chord_addition_over_f11() {
    let c = prime_curve(11, -2, 0);
    let p = pt(&c, 5, 7);
    let q = pt(&c, 8, 10);
    assert!(c.is_on_curve(&p) && c.is_on_curve(&q));
    assert_eq!(c.add(&p, &q).unwrap(), pt(&c, 10, 10));
}

#[test]
fn addition_and_doubling_over_f23() {
    let c = prime_curve(23, 5, 7);
    let p = pt(&c, 2, 5);
    let q = pt(&c, 12, 1);
    assert_eq!(c.add(&p, &q).unwrap(), pt(&c, 11, 17));
    assert_eq!(c.double(&p).unwrap(), pt(&c, 12, 1));
    assert_eq!(c.add(&p, &p).unwrap(), pt(&c, 12, 1));
}

#[test]
fn scalar_multiplication_over_f1021() {
    let c = prime_curve(1021, -3, -3);
    let p = pt(&c, 379, 1011);
    assert!(c.is_on_curve(&p));
    assert_eq!(c.scalar_mul(655, &p).unwrap(), pt(&c, 388, 60));
}

#[test]
fn group_law_closure() {
    let c = prime_curve(23, 5, 7);
    let mut points = vec![Point::identity()];
    for x in 0..23 {
        for y in 0..23 {
            let p = pt(&c, x, y);
            if c.is_on_curve(&p) {
                points.push(p);
            }
        }
    }
    assert!(points.len() > 10);
    for p in &points {
        assert!(c.is_on_curve(&c.double(p).unwrap()));
        for q in &points {
            assert!(c.is_on_curve(&c.add(p, q).unwrap()));
        }
    }
}

#[test]
fn closure_over_quadratic_tower() {
    let f = Tower::new(67, vec![-1, 0]).unwrap();
    let a = f.element(vec![4, 0]).unwrap();
    let b = f.element(vec![3, 0]).unwrap();
    let c = EllipticCurve::new(f, a, b).unwrap();
    let p = ext_pt(&c, &[16, 2], &[39, 30]);
    let q = ext_pt(&c, &[15, 0], &[50, 0]);
    assert!(c.is_on_curve(&p) && c.is_on_curve(&q));
    let s = c.add(&p, &q).unwrap();
    assert!(c.is_on_curve(&s));
    assert!(c.is_on_curve(&c.double(&p).unwrap()));
    assert!(c.is_on_curve(&c.scalar_mul(12345, &p).unwrap()));
}

#[test]
fn scalar_mul_matches_repeated_addition() {
    let c = prime_curve(1021, -3, -3);
    let p = pt(&c, 379, 1011);
    for k in 0..32 {
        assert_eq!(c.scalar_mul(k, &p).unwrap(), repeat_add(&c, k, &p), "k = {}", k);
    }
    assert_eq!(c.scalar_mul(0, &p).unwrap(), Point::Identity);
    let e = prime_curve(19, 0, 5);
    let r = pt(&e, 18, 2);
    for k in 0..32 {
        assert_eq!(e.scalar_mul(k, &r).unwrap(), repeat_add(&e, k, &r));
    }
    assert_eq!(e.scalar_mul(7, &r).unwrap(), r);
}

#[test]
fn frobenius_order_two_over_f67() {
    let f = Tower::new(67, vec![-1, 0]).unwrap();
    let a = f.element(vec![4, 0]).unwrap();
    let b = f.element(vec![3, 0]).unwrap();
    let c = EllipticCurve::new(f, a, b).unwrap();
    let p = ext_pt(&c, &[15, 0], &[50, 0]);
    assert_eq!(c.frobenius(&p, 66), p);
    assert_eq!(c.frobenius(&c.frobenius(&p, 66), 66), p);
    let pq = ext_pt(&c, &[16, 2], &[39, 30]);
    let once = c.frobenius(&pq, 66);
    assert_ne!(once, pq);
    assert!(c.is_on_curve(&once));
    assert_eq!(c.frobenius(&once, 66), pq);
    assert_eq!(c.frobenius(&Point::Identity, 66), Point::Identity);
}

#[test]
fn frobenius_order_three_over_f67() {
    // v^3 = -2; the twist factor is (-2)^((67 - 1) / 3) = 37
    let f = Tower::new(67, vec![-2, 0, 0]).unwrap();
    let a = f.element(vec![4, 0, 0]).unwrap();
    let b = f.element(vec![3, 0, 0]).unwrap();
    let c = EllipticCurve::new(f, a, b).unwrap();
    let pc = ext_pt(&c, &[8, 49, 19], &[21, 66, 20]);
    assert!(c.is_on_curve(&pc));
    let mut r = pc.duplicate();
    for _ in 0..3 {
        r = c.frobenius(&r, 37);
        assert!(c.is_on_curve(&r));
    }
    assert_eq!(r, pc);
    assert_ne!(c.frobenius(&pc, 37), pc);
}

#[test]
fn frobenius_order_six_over_f103() {
    let f = Tower::new(103, vec![-2, 0, 0, 0, 0, 0]).unwrap();
    let gamma = {
        let mut g: u64 = 1;
        for _ in 0..17 {
            g = g * 101 % 103;
        }
        g
    };
    let x = f.element(vec![3, 1, 4, 1, 5, 9]).unwrap();
    let y = f.element(vec![2, 7, 1, 8, 2, 8]).unwrap();
    let a = f.zero();
    let b = f.constant(72);
    let c = EllipticCurve::new(f, a, b).unwrap();
    let p = Point::Affine { x, y };
    let mut r = p.duplicate();
    for _ in 0..6 {
        r = c.frobenius(&r, gamma);
    }
    assert_eq!(r, p);
}

#[test]
fn twist_round_trip_over_sextic_tower() {
    let f = Tower::new(103, vec![-2, 0, 0, 0, 0, 0]).unwrap();
    let u = f.element(vec![0, 1, 0, 0, 0, 0]).unwrap();
    let a = f.zero();
    let b = f.constant(72);
    let c = EllipticCurve::new(f, a, b).unwrap();
    let samples: [(&[i64], &[i64]); 3] = [
        (&[3, 1, 4, 1, 5, 9], &[2, 7, 1, 8, 2, 8]),
        (&[0, 0, 0, 0, 0, 0], &[1, 0, 0, 0, 0, 0]),
        (&[102, 0, 51, 0, 7, 0], &[0, 0, 0, 0, 0, 99]),
    ];
    for (x, y) in samples {
        let p = ext_pt(&c, x, y);
        let t = c.twist(&p, &u);
        assert_ne!(t, p);
        assert_eq!(c.untwist(&t, &u).unwrap(), p);
    }
    let tw = c.twist(&Point::Identity, &u);
    assert_eq!(tw, Point::Identity);
    assert_eq!(c.untwist(&tw, &u).unwrap(), Point::Identity);
}

#[test]
fn untwist_reports_non_invertible_parameter() {
    let f = Tower::new(103, vec![-2, 0, 0, 0, 0, 0]).unwrap();
    let zero = f.zero();
    let a = f.zero();
    let b = f.constant(72);
    let c = EllipticCurve::new(f, a, b).unwrap();
    let p = ext_pt(&c, &[1, 0, 0, 0, 0, 0], &[2, 0, 0, 0, 0, 0]);
    assert_eq!(c.untwist(&p, &zero).unwrap_err(), FieldError::NonInvertible);
}

#[test]
fn identity_negation_and_two_torsion() {
    let c = prime_curve(11, -2, 0);
    let p = pt(&c, 5, 7);
    assert_eq!(c.add(&Point::Identity, &p).unwrap(), p);
    assert_eq!(c.add(&p, &Point::Identity).unwrap(), p);
    assert_eq!(c.add(&Point::Identity, &Point::Identity).unwrap(), Point::Identity);
    let n = c.negate(&p);
    assert_eq!(n, pt(&c, 5, 4));
    assert_eq!(c.add(&p, &n).unwrap(), Point::Identity);
    assert_eq!(c.negate(&Point::Identity), Point::Identity);
    // (0, 0) lies on y^2 = x^3 - 2x and has order two
    let t = pt(&c, 0, 0);
    assert!(c.is_on_curve(&t));
    assert_eq!(c.double(&t).unwrap(), Point::Identity);
    assert_eq!(c.add(&t, &t).unwrap(), Point::Identity);
    assert_eq!(c.double(&Point::Identity).unwrap(), Point::Identity);
}

#[test]
fn addition_of_points_off_the_curve_surfaces_an_error() {
    let c = prime_curve(11, -2, 0);
    // same x, unrelated y: the chord denominator is zero
    let p = pt(&c, 5, 7);
    let q = pt(&c, 5, 1);
    assert_eq!(c.add(&p, &q).unwrap_err(), FieldError::NonInvertible);
}

#[test]
fn curve_and_point_constructors_check_the_field() {
    let f = Tower::new(11, vec![0]).unwrap();
    let good = f.element(vec![1]).unwrap();
    let bad = ExtElem { coeffs: vec![1, 2] };
    assert_eq!(EllipticCurve::new(f, bad, good).unwrap_err(), FieldError::IncompatibleOperands);
    let c = prime_curve(11, -2, 0);
    let x = c.field.element(vec![1]).unwrap();
    let y = ExtElem { coeffs: vec![11] };
    assert_eq!(c.point(x, y).unwrap_err(), FieldError::IncompatibleOperands);
    assert!(!c.is_valid(&Point::Affine { x: ExtElem { coeffs: vec![] }, y: ExtElem { coeffs: vec![0] } }));
    assert!(c.is_valid(&pt(&c, 5, 7)));
    assert!(!c.is_on_curve(&pt(&c, 5, 6)));
}

#[test]
fn discriminant_check() {
    assert!(!is_elliptic_curve(0, 0, 23));
    assert!(is_elliptic_curve(5, 7, 23));
    // 4 * 1 + 27 * 1 = 31 = 0 mod 31
    assert!(!is_elliptic_curve(1, 1, 31));
    assert!(is_elliptic_curve(1, 1, 29));
}

#[test]
fn frobenius_needs_twist_factor_of_order_dividing_degree() {
    // 45^3 = 5 mod 67, so three steps with 45 do not return to the point
    let f = Tower::new(67, vec![-2, 0, 0]).unwrap();
    let a = f.element(vec![4, 0, 0]).unwrap();
    let b = f.element(vec![3, 0, 0]).unwrap();
    let c = EllipticCurve::new(f, a, b).unwrap();
    let pc = ext_pt(&c, &[8, 49, 19], &[21, 66, 20]);
    let mut r = pc.duplicate();
    for _ in 0..3 {
        r = c.frobenius(&r, 45);
    }
    assert_ne!(r, pc);
}

#[test]
fn frobenius_fixes_base_field_points() {
    let c = prime_curve(1021, -3, -3);
    let p = pt(&c, 379, 1011);
    assert_eq!(c.frobenius(&p, 1), p);
}
