use ecc_and_pairings::prime_field::Fq;
use ecc_and_pairings::projective::ProjectivePoint;

fn pp(x: i64, y: i64, z: i64) -> ProjectivePoint {
    ProjectivePoint::new(Fq::new(x, 41), Fq::new(y, 41), Fq::new(z, 41))
}

#[test]
fn projective_equivalence() {
    assert!(!pp(1, 2, 1).is_isomorphic(&pp(5, 6, 1)));
    assert!(pp(1, 2, 1).is_isomorphic(&pp(5, 10, 5)));
    assert!(pp(0, 1, 0).is_isomorphic(&pp(3, 7, 0)));
    assert!(!pp(0, 1, 0).is_isomorphic(&pp(3, 7, 1)));
    assert!(!pp(3, 7, 1).is_isomorphic(&pp(0, 1, 0)));
    assert!(pp(0, 2, 1).is_isomorphic(&pp(0, 4, 2)));
    assert!(!pp(0, 2, 1).is_isomorphic(&pp(1, 4, 2)));
}
