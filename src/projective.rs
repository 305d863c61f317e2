//! Projective points over a prime field, and the non-singularity test of a short Weierstrass curve.
use crate::prime_field::Fq;
use vstd::arithmetic::div_mod::{lemma_add_mod_noop, lemma_mul_mod_noop};
use vstd::prelude::*;

verus! {

/// A point `(x : y : z)` of the projective plane over a prime field; `z = 0` is the point at
/// infinity whatever `x` and `y` are.
#[derive(Clone, Copy, Debug, PartialEq, Eq, Structural)]
pub struct ProjectivePoint {
    pub x: Fq,
    pub y: Fq,
    pub z: Fq,
}

impl ProjectivePoint {
    pub open spec fn wf(self) -> bool {
        self.x.compatible(self.y) && self.x.compatible(self.z)
    }

    /// Both points stand for the same point: both at infinity, or both finite with
    /// `x1 z2 = x2 z1` and `y1 z2 = y2 z1`.
    pub open spec fn same_point(self, o: ProjectivePoint) -> bool {
        let q = self.x.q as int;
        if self.z.value == 0 || o.z.value == 0 {
            self.z.value == 0 && o.z.value == 0
        } else {
            (self.x.value * o.z.value) % q == (o.x.value * self.z.value) % q && (self.y.value
                * o.z.value) % q == (o.y.value * self.z.value) % q
        }
    }

    pub fn new(x: Fq, y: Fq, z: Fq) -> (r: ProjectivePoint)
        ensures
            r == (ProjectivePoint { x, y, z }),
    {
        ProjectivePoint { x, y, z }
    }

    /// Whether the two triples are the same projective point.
    pub fn is_isomorphic(&self, other: &ProjectivePoint) -> (r: bool)
        requires
            self.wf(),
            other.wf(),
            self.x.q == other.x.q,
        ensures
            r == self.same_point(*other),
    {
        if self.z.value == 0 || other.z.value == 0 {
            return self.z.value == 0 && other.z.value == 0;
        }
        let x1 = self.x.mul(&other.z);
        let x2 = other.x.mul(&self.z);
        let y1 = self.y.mul(&other.z);
        let y2 = other.y.mul(&self.z);
        x1.value == x2.value && y1.value == y2.value
    }
}

/// Whether `y^2 = x^3 + a x + b` is non-singular over the integers modulo `q`: its discriminant
/// part `4 a^3 + 27 b^2` is not zero modulo `q`.
pub fn is_elliptic_curve(a: u64, b: u64, q: u64) -> (r: bool)
    requires
        q >= 2,
    ensures
        r == ((4 * a * a * a + 27 * b * b) % (q as int) != 0),
{
    let fa = Fq::from_u64(a, q);
    let fb = Fq::from_u64(b, q);
    let four = Fq::from_u64(4, q);
    let t27 = Fq::from_u64(27, q);
    let a2 = fa.mul(&fa);
    let a3 = a2.mul(&fa);
    let t1 = four.mul(&a3);
    let b2 = fb.mul(&fb);
    let t2 = t27.mul(&b2);
    let s = t1.add(&t2);
    proof {
        let qi = q as int;
        let (ai, bi) = (a as int, b as int);
        lemma_mul_mod_noop(ai, ai, qi);
        assert(a2.value == (ai * ai) % qi);
        lemma_mul_mod_noop(ai * ai, ai, qi);
        assert(a3.value == (ai * ai * ai) % qi);
        lemma_mul_mod_noop(4, ai * ai * ai, qi);
        assert(t1.value == (4 * (ai * ai * ai)) % qi);
        lemma_mul_mod_noop(bi, bi, qi);
        lemma_mul_mod_noop(27, bi * bi, qi);
        assert(t2.value == (27 * (bi * bi)) % qi);
        lemma_add_mod_noop(4 * (ai * ai * ai), 27 * (bi * bi), qi);
        assert(4 * (ai * ai * ai) == 4 * ai * ai * ai) by (nonlinear_arith);
        assert(27 * (bi * bi) == 27 * bi * bi) by (nonlinear_arith);
    }
    s.value != 0
}

} // verus!
