//! The curve group law over a tower, double-and-add scalar multiplication, the Frobenius map
//! on points, and twisting.
use crate::prime_field::FieldError;
use crate::tower::{ExtElem, Tower, lemma_frobenius_order_elem, lemma_product_canonical};
use crate::tower_laws::{lemma_inverse_is_inverse, lemma_mul_then_inverse};
use crate::prime_field::is_prime;
use vstd::arithmetic::power::pow;
use vstd::prelude::*;

verus! {

/// A point of a curve: the point at infinity, or an affine pair of coordinates.
#[derive(Debug, PartialEq, Eq)]
pub enum Point {
    Identity,
    Affine { x: ExtElem, y: ExtElem },
}

/// The mathematical value of a point: coordinates as coefficient sequences.
pub enum PointView {
    Identity,
    Affine { x: Seq<u64>, y: Seq<u64> },
}

impl View for Point {
    type V = PointView;

    open spec fn view(&self) -> PointView {
        match self {
            Point::Identity => PointView::Identity,
            Point::Affine { x, y } => PointView::Affine { x: x@, y: y@ },
        }
    }
}

/// The value of a fallible point result.
pub open spec fn result_view(r: Result<Point, FieldError>) -> Result<PointView, FieldError> {
    match r {
        Ok(p) => Ok(p@),
        Err(e) => Err(e),
    }
}

impl Point {
    /// The point at infinity.
    pub fn identity() -> (r: Point)
        ensures
            r@ == PointView::Identity,
    {
        Point::Identity
    }

    /// An independent copy of the point.
    pub fn duplicate(&self) -> (r: Point)
        ensures
            r@ == self@,
    {
        match self {
            Point::Identity => Point::Identity,
            Point::Affine { x, y } => Point::Affine { x: x.duplicate(), y: y.duplicate() },
        }
    }

    /// Equality of the two points' values.
    pub fn equals(&self, o: &Point) -> (r: bool)
        ensures
            r == (self@ == o@),
    {
        match (self, o) {
            (Point::Identity, Point::Identity) => true,
            (Point::Affine { x: x1, y: y1 }, Point::Affine { x: x2, y: y2 }) => x1.equals(x2)
                && y1.equals(y2),
            _ => false,
        }
    }
}

/// The curve `y^2 = x^3 + a x + b` over a tower.
#[derive(Debug)]
pub struct EllipticCurve {
    pub field: Tower,
    pub a: ExtElem,
    pub b: ExtElem,
}

impl EllipticCurve {
    pub open spec fn wf(&self) -> bool {
        self.field.wf() && self.field.elem(self.a@) && self.field.elem(self.b@)
    }

    /// The point's coordinates belong to the curve's field.
    pub open spec fn valid(&self, p: PointView) -> bool {
        match p {
            PointView::Identity => true,
            PointView::Affine { x, y } => self.field.elem(x) && self.field.elem(y),
        }
    }

    /// The point satisfies `y^2 = x^3 + a x + b`.
    pub open spec fn on_curve(&self, p: PointView) -> bool {
        match p {
            PointView::Identity => true,
            PointView::Affine { x, y } => {
                let f = self.field;
                f.spec_mul(y, y) == f.spec_add(
                    f.spec_add(f.spec_mul(f.spec_mul(x, x), x), f.spec_mul(self.a@, x)),
                    self.b@,
                )
            },
        }
    }

    pub open spec fn spec_negate(&self, p: PointView) -> PointView {
        match p {
            PointView::Identity => PointView::Identity,
            PointView::Affine { x, y } => PointView::Affine { x, y: self.field.spec_neg(y) },
        }
    }

    /// Tangent doubling: `m = (3 x^2 + a) / (2 y)`, `x3 = m^2 - 2 x`, `y3 = m (x - x3) - y`.
    pub open spec fn spec_double(&self, p: PointView) -> Result<PointView, FieldError> {
        let f = self.field;
        match p {
            PointView::Identity => Ok(PointView::Identity),
            PointView::Affine { x, y } => {
                if y == f.spec_zero() {
                    Ok(PointView::Identity)
                } else {
                    let num = f.spec_add(f.spec_mul(f.spec_const(3), f.spec_mul(x, x)), self.a@);
                    let den = f.spec_mul(f.spec_const(2), y);
                    if den == f.spec_zero() || f.spec_inverse(den) is None {
                        Err(FieldError::NonInvertible)
                    } else {
                        let m = f.spec_mul(num, f.spec_inverse(den)->Some_0);
                        let x3 = f.spec_sub(f.spec_mul(m, m), f.spec_mul(f.spec_const(2), x));
                        let y3 = f.spec_sub(f.spec_mul(m, f.spec_sub(x, x3)), y);
                        Ok(PointView::Affine { x: x3, y: y3 })
                    }
                }
            },
        }
    }

    /// Chord addition: the identity is neutral, inverse points sum to the identity, equal points
    /// are doubled, and otherwise `m = (y2 - y1) / (x2 - x1)`, `x3 = m^2 - x1 - x2`,
    /// `y3 = m (x1 - x3) - y1`.
    pub open spec fn spec_add(&self, p: PointView, q: PointView) -> Result<PointView, FieldError> {
        let f = self.field;
        match (p, q) {
            (PointView::Identity, _) => Ok(q),
            (_, PointView::Identity) => Ok(p),
            (PointView::Affine { x: x1, y: y1 }, PointView::Affine { x: x2, y: y2 }) => {
                if x1 == x2 && y1 == f.spec_neg(y2) {
                    Ok(PointView::Identity)
                } else if x1 == x2 && y1 == y2 {
                    self.spec_double(p)
                } else {
                    let den = f.spec_sub(x2, x1);
                    if den == f.spec_zero() || f.spec_inverse(den) is None {
                        Err(FieldError::NonInvertible)
                    } else {
                        let m = f.spec_mul(f.spec_sub(y2, y1), f.spec_inverse(den)->Some_0);
                        let x3 = f.spec_sub(f.spec_sub(f.spec_mul(m, m), x1), x2);
                        let y3 = f.spec_sub(f.spec_mul(m, f.spec_sub(x1, x3)), y1);
                        Ok(PointView::Affine { x: x3, y: y3 })
                    }
                }
            },
        }
    }

    /// Double-and-add over the bits of `k`, most significant first.
    pub open spec fn spec_scalar_mul(&self, k: nat, p: PointView) -> Result<PointView, FieldError>
        decreases k,
    {
        if k == 0 {
            Ok(PointView::Identity)
        } else {
            match self.spec_scalar_mul(k / 2, p) {
                Err(e) => Err(e),
                Ok(h) => match self.spec_double(h) {
                    Err(e) => Err(e),
                    Ok(d) => if k % 2 == 1 {
                        self.spec_add(d, p)
                    } else {
                        Ok(d)
                    },
                },
            }
        }
    }

    /// `p` added to itself `k` times, one addition at a time.
    pub open spec fn spec_repeat_add(&self, k: nat, p: PointView) -> Result<PointView, FieldError>
        decreases k,
    {
        if k == 0 {
            Ok(PointView::Identity)
        } else {
            match self.spec_repeat_add((k - 1) as nat, p) {
                Err(e) => Err(e),
                Ok(s) => self.spec_add(s, p),
            }
        }
    }

    pub open spec fn spec_frobenius(&self, p: PointView, gamma: u64) -> PointView {
        match p {
            PointView::Identity => PointView::Identity,
            PointView::Affine { x, y } => PointView::Affine {
                x: self.field.spec_frobenius(x, gamma),
                y: self.field.spec_frobenius(y, gamma),
            },
        }
    }

    /// The Frobenius map with twist factor `gamma`, applied `n` times.
    pub open spec fn spec_frobenius_iter(&self, p: PointView, gamma: u64, n: nat) -> PointView
        decreases n,
    {
        if n == 0 {
            p
        } else {
            self.spec_frobenius(self.spec_frobenius_iter(p, gamma, (n - 1) as nat), gamma)
        }
    }

    /// `(x, y) -> (x u^2, y u^3)`.
    pub open spec fn spec_twist(&self, p: PointView, u: Seq<u64>) -> PointView {
        let f = self.field;
        let u2 = f.spec_mul(u, u);
        let u3 = f.spec_mul(u2, u);
        match p {
            PointView::Identity => PointView::Identity,
            PointView::Affine { x, y } => PointView::Affine { x: f.spec_mul(x, u2), y: f.spec_mul(y, u3) },
        }
    }

    /// `(x, y) -> (x / u^2, y / u^3)`, failing when `u^2` or `u^3` has no inverse.
    pub open spec fn spec_untwist(&self, p: PointView, u: Seq<u64>) -> Result<PointView, FieldError> {
        let f = self.field;
        let u2 = f.spec_mul(u, u);
        let u3 = f.spec_mul(u2, u);
        if u2 == f.spec_zero() || f.spec_inverse(u2) is None || u3 == f.spec_zero() || f.spec_inverse(
            u3,
        ) is None {
            Err(FieldError::NonInvertible)
        } else {
            match p {
                PointView::Identity => Ok(PointView::Identity),
                PointView::Affine { x, y } => Ok(
                    PointView::Affine {
                        x: f.spec_mul(x, f.spec_inverse(u2)->Some_0),
                        y: f.spec_mul(y, f.spec_inverse(u3)->Some_0),
                    },
                ),
            }
        }
    }
}

impl EllipticCurve {
    /// Builds the curve `y^2 = x^3 + a x + b`; fails when `a` or `b` is not an element of `field`.
    pub fn new(field: Tower, a: ExtElem, b: ExtElem) -> (r: Result<EllipticCurve, FieldError>)
        requires
            field.wf(),
        ensures
            r is Ok <==> (field.elem(a@) && field.elem(b@)),
            r is Ok ==> r->Ok_0.wf() && r->Ok_0.a@ == a@ && r->Ok_0.b@ == b@ && r->Ok_0.field == field,
            r is Err ==> r->Err_0 == FieldError::IncompatibleOperands,
    {
        if !field.contains(&a) || !field.contains(&b) {
            return Err(FieldError::IncompatibleOperands);
        }
        Ok(EllipticCurve { field, a, b })
    }

    /// The affine point `(x, y)`; fails when a coordinate is not an element of the curve's field.
    /// Whether the point lies on the curve is left to `is_on_curve`.
    pub fn point(&self, x: ExtElem, y: ExtElem) -> (r: Result<Point, FieldError>)
        requires
            self.wf(),
        ensures
            r is Ok <==> (self.field.elem(x@) && self.field.elem(y@)),
            r is Ok ==> r->Ok_0@ == (PointView::Affine { x: x@, y: y@ }),
            r is Err ==> r->Err_0 == FieldError::IncompatibleOperands,
    {
        if !self.field.contains(&x) || !self.field.contains(&y) {
            return Err(FieldError::IncompatibleOperands);
        }
        Ok(Point::Affine { x, y })
    }

    /// Whether the point's coordinates belong to the curve's field.
    pub fn is_valid(&self, p: &Point) -> (r: bool)
        requires
            self.wf(),
        ensures
            r == self.valid(p@),
    {
        match p {
            Point::Identity => true,
            Point::Affine { x, y } => self.field.contains(x) && self.field.contains(y),
        }
    }

    /// Whether the point satisfies the curve equation.
    pub fn is_on_curve(&self, p: &Point) -> (r: bool)
        requires
            self.wf(),
            self.valid(p@),
        ensures
            r == self.on_curve(p@),
    {
        let f = &self.field;
        match p {
            Point::Identity => true,
            Point::Affine { x, y } => {
                let lhs = f.mul(y, y);
                let x3 = f.mul(&f.mul(x, x), x);
                let ax = f.mul(&self.a, x);
                let rhs = f.add(&f.add(&x3, &ax), &self.b);
                lhs.equals(&rhs)
            },
        }
    }

    /// `(x, y) -> (x, -y)`; the identity is its own negation.
    pub fn negate(&self, p: &Point) -> (r: Point)
        requires
            self.wf(),
            self.valid(p@),
        ensures
            r@ == self.spec_negate(p@),
            self.valid(r@),
    {
        match p {
            Point::Identity => Point::Identity,
            Point::Affine { x, y } => Point::Affine { x: x.duplicate(), y: self.field.neg(y) },
        }
    }

    /// Doubles a point; a point with `y = 0` doubles to the identity.
    pub fn double(&self, p: &Point) -> (r: Result<Point, FieldError>)
        requires
            self.wf(),
            self.valid(p@),
        ensures
            result_view(r) == self.spec_double(p@),
            r is Ok ==> self.valid(r->Ok_0@),
    {
        let f = &self.field;
        match p {
            Point::Identity => Ok(Point::Identity),
            Point::Affine { x, y } => {
                if f.is_zero(y) {
                    return Ok(Point::Identity);
                }
                let three = f.constant(3);
                let two = f.constant(2);
                let num = f.add(&f.mul(&three, &f.mul(x, x)), &self.a);
                let den = f.mul(&two, y);
                let inv = match f.inverse(&den) {
                    Ok(i) => i,
                    Err(e) => {
                        return Err(e);
                    },
                };
                let m = f.mul(&num, &inv);
                let x3 = f.sub(&f.mul(&m, &m), &f.mul(&two, x));
                let y3 = f.sub(&f.mul(&m, &f.sub(x, &x3)), y);
                Ok(Point::Affine { x: x3, y: y3 })
            },
        }
    }

    /// Adds two points of the curve.
    pub fn add(&self, p: &Point, q: &Point) -> (r: Result<Point, FieldError>)
        requires
            self.wf(),
            self.valid(p@),
            self.valid(q@),
        ensures
            result_view(r) == self.spec_add(p@, q@),
            r is Ok ==> self.valid(r->Ok_0@),
    {
        let f = &self.field;
        match (p, q) {
            (Point::Identity, _) => Ok(q.duplicate()),
            (_, Point::Identity) => Ok(p.duplicate()),
            (Point::Affine { x: x1, y: y1 }, Point::Affine { x: x2, y: y2 }) => {
                let same_x = x1.equals(x2);
                if same_x && y1.equals(&f.neg(y2)) {
                    return Ok(Point::Identity);
                }
                if same_x && y1.equals(y2) {
                    return self.double(p);
                }
                let den = f.sub(x2, x1);
                let inv = match f.inverse(&den) {
                    Ok(i) => i,
                    Err(e) => {
                        return Err(e);
                    },
                };
                let m = f.mul(&f.sub(y2, y1), &inv);
                let x3 = f.sub(&f.sub(&f.mul(&m, &m), x1), x2);
                let y3 = f.sub(&f.mul(&m, &f.sub(x1, &x3)), y1);
                Ok(Point::Affine { x: x3, y: y3 })
            },
        }
    }

    /// `k * p` by double-and-add, most significant bit first; `k = 0` gives the identity.
    pub fn scalar_mul(&self, k: u64, p: &Point) -> (r: Result<Point, FieldError>)
        requires
            self.wf(),
            self.valid(p@),
        ensures
            result_view(r) == self.spec_scalar_mul(k as nat, p@),
            r is Ok ==> self.valid(r->Ok_0@),
        decreases k,
    {
        if k == 0 {
            return Ok(Point::Identity);
        }
        let h = self.scalar_mul(k / 2, p)?;
        let d = self.double(&h)?;
        if k % 2 == 1 {
            self.add(&d, p)
        } else {
            Ok(d)
        }
    }

    /// Applies the Frobenius map with twist factor `gamma` to both coordinates.
    pub fn frobenius(&self, p: &Point, gamma: u64) -> (r: Point)
        requires
            self.wf(),
            self.valid(p@),
            gamma < self.field.q,
        ensures
            r@ == self.spec_frobenius(p@, gamma),
            self.valid(r@),
    {
        match p {
            Point::Identity => Point::Identity,
            Point::Affine { x, y } => Point::Affine {
                x: self.field.frobenius(x, gamma),
                y: self.field.frobenius(y, gamma),
            },
        }
    }

    /// Maps `(x, y)` to `(x u^2, y u^3)`.
    pub fn twist(&self, p: &Point, u: &ExtElem) -> (r: Point)
        requires
            self.wf(),
            self.valid(p@),
            self.field.elem(u@),
        ensures
            r@ == self.spec_twist(p@, u@),
            self.valid(r@),
    {
        let f = &self.field;
        let u2 = f.mul(u, u);
        let u3 = f.mul(&u2, u);
        match p {
            Point::Identity => Point::Identity,
            Point::Affine { x, y } => Point::Affine { x: f.mul(x, &u2), y: f.mul(y, &u3) },
        }
    }

    /// Maps `(x, y)` to `(x / u^2, y / u^3)`; fails when `u` is not invertible.
    pub fn untwist(&self, p: &Point, u: &ExtElem) -> (r: Result<Point, FieldError>)
        requires
            self.wf(),
            self.valid(p@),
            self.field.elem(u@),
        ensures
            result_view(r) == self.spec_untwist(p@, u@),
            r is Ok ==> self.valid(r->Ok_0@),
    {
        let f = &self.field;
        let u2 = f.mul(u, u);
        let u3 = f.mul(&u2, u);
        let u2_inv = match f.inverse(&u2) {
            Ok(i) => i,
            Err(e) => {
                return Err(e);
            },
        };
        let u3_inv = match f.inverse(&u3) {
            Ok(i) => i,
            Err(e) => {
                return Err(e);
            },
        };
        match p {
            Point::Identity => Ok(Point::Identity),
            Point::Affine { x, y } => Ok(Point::Affine { x: f.mul(x, &u2_inv), y: f.mul(y, &u3_inv) }),
        }
    }
}

proof fn lemma_neg_involutive(f: Tower, y: Seq<u64>)
    requires
        f.wf(),
        f.elem(y),
    ensures
        f.spec_neg(f.spec_neg(y)) == y,
{
    let q = f.q as int;
    assert forall|i: int| 0 <= i < y.len() implies #[trigger] f.spec_neg(f.spec_neg(y))[i] == y[i] by {
        let v = y[i] as int;
        if v == 0 {
            vstd::arithmetic::div_mod::lemma_small_mod(0, f.q as nat);
        } else {
            vstd::arithmetic::div_mod::lemma_fundamental_div_mod_converse(-v, q, -1, q - v);
            vstd::arithmetic::div_mod::lemma_fundamental_div_mod_converse(v - q, q, -1, v);
        }
    }
    assert(f.spec_neg(f.spec_neg(y)) =~= y);
}

/// In odd characteristic an element equal to its own negation is zero.
proof fn lemma_self_negating_is_zero(f: Tower, y: Seq<u64>)
    requires
        f.wf(),
        f.elem(y),
        f.q % 2 == 1,
        y == f.spec_neg(y),
    ensures
        y == f.spec_zero(),
{
    let q = f.q as int;
    assert forall|i: int| 0 <= i < y.len() implies #[trigger] y[i] == 0 by {
        let v = y[i] as int;
        assert(f.spec_neg(y)[i] == y[i]);
        if v != 0 {
            vstd::arithmetic::div_mod::lemma_fundamental_div_mod_converse(-v, q, -1, q - v);
        }
    }
    assert(y =~= f.spec_zero());
}

/// The identity is neutral on either side, a point plus its negation is the identity, and a
/// point with `y = 0` doubles to the identity.
pub proof fn lemma_identity_and_inverse(c: EllipticCurve, p: PointView)
    requires
        c.wf(),
        c.valid(p),
    ensures
        c.spec_add(PointView::Identity, p) == Ok::<PointView, FieldError>(p),
        c.spec_add(p, PointView::Identity) == Ok::<PointView, FieldError>(p),
        c.spec_add(p, c.spec_negate(p)) == Ok::<PointView, FieldError>(PointView::Identity),
        (p matches PointView::Affine { y, .. } && y == c.field.spec_zero()) ==> c.spec_double(p)
            == Ok::<PointView, FieldError>(PointView::Identity),
{
    if let PointView::Affine { x, y } = p {
        lemma_neg_involutive(c.field, y);
    }
}

proof fn lemma_scalar_mul_one(c: EllipticCurve, p: PointView)
    requires
        c.wf(),
        c.valid(p),
    ensures
        c.spec_scalar_mul(0, p) == Ok::<PointView, FieldError>(PointView::Identity),
        c.spec_scalar_mul(1, p) == Ok::<PointView, FieldError>(p),
        c.spec_repeat_add(1, p) == Ok::<PointView, FieldError>(p),
        c.spec_repeat_add(2, p) == c.spec_add(p, p),
{
    assert(c.spec_repeat_add(0, p) == Ok::<PointView, FieldError>(PointView::Identity));
    assert(c.spec_repeat_add(1, p) == c.spec_add(PointView::Identity, p));
}

proof fn lemma_add_self_is_double(c: EllipticCurve, p: PointView)
    requires
        c.wf(),
        c.valid(p),
        c.field.q % 2 == 1,
    ensures
        c.spec_add(p, p) == c.spec_double(p),
{
    if let PointView::Affine { x, y } = p {
        if y == c.field.spec_neg(y) {
            lemma_self_negating_is_zero(c.field, y);
        }
    }
}

proof fn lemma_scalar_mul_three(c: EllipticCurve, p: PointView)
    requires
        c.wf(),
        c.valid(p),
        c.field.q % 2 == 1,
    ensures
        c.spec_scalar_mul(3, p) == c.spec_repeat_add(3, p),
{
    lemma_scalar_mul_one(c, p);
    lemma_add_self_is_double(c, p);
    assert(c.spec_repeat_add(3, p) == match c.spec_double(p) {
        Err(e) => Err(e),
        Ok(s) => c.spec_add(s, p),
    });
    assert(c.spec_scalar_mul(3, p) == match c.spec_double(p) {
        Err(e) => Err(e),
        Ok(s) => c.spec_add(s, p),
    });
}

/// `0 * P` is the identity, and for `k <= 3` double-and-add agrees with adding `P` to itself
/// `k` times, on curves over fields of odd characteristic.
pub proof fn lemma_scalar_mul_small(c: EllipticCurve, p: PointView, k: nat)
    requires
        c.wf(),
        c.valid(p),
        c.field.q % 2 == 1,
        k <= 3,
    ensures
        c.spec_scalar_mul(0, p) == Ok::<PointView, FieldError>(PointView::Identity),
        c.spec_scalar_mul(k, p) == c.spec_repeat_add(k, p),
{
    lemma_scalar_mul_one(c, p);
    if k == 2 {
        lemma_add_self_is_double(c, p);
        assert(c.spec_scalar_mul(2, p) == c.spec_double(p));
    } else if k == 3 {
        lemma_scalar_mul_three(c, p);
    }
}

/// In a tower with rule `t^d = c`, untwisting by `u` undoes twisting by `u`, for every point
/// and every `u` whose square and cube are invertible.
pub proof fn lemma_untwist_twist(c: EllipticCurve, p: PointView, u: Seq<u64>)
    requires
        c.wf(),
        c.field.is_binomial(),
        c.valid(p),
        c.field.elem(u),
        c.field.spec_inverse(c.field.spec_mul(u, u)) is Some,
        c.field.spec_inverse(c.field.spec_mul(c.field.spec_mul(u, u), u)) is Some,
    ensures
        c.spec_untwist(c.spec_twist(p, u), u) == Ok::<PointView, FieldError>(p),
{
    let f = c.field;
    let u2 = f.spec_mul(u, u);
    let u3 = f.spec_mul(u2, u);
    lemma_product_canonical(f, u, u);
    lemma_product_canonical(f, u2, u);
    if let PointView::Affine { x, y } = p {
        lemma_mul_then_inverse(f, x, u2);
        lemma_mul_then_inverse(f, y, u3);
    } else {
        lemma_inverse_is_inverse(f, u2);
        lemma_inverse_is_inverse(f, u3);
    }
}

proof fn lemma_frobenius_iter_coords(c: EllipticCurve, p: PointView, gamma: u64, n: nat)
    requires
        c.wf(),
    ensures
        c.spec_frobenius_iter(p, gamma, n) == (match p {
            PointView::Identity => PointView::Identity,
            PointView::Affine { x, y } => PointView::Affine {
                x: c.field.spec_frobenius_iter(x, gamma, n),
                y: c.field.spec_frobenius_iter(y, gamma, n),
            },
        }),
    decreases n,
{
    if n > 0 {
        lemma_frobenius_iter_coords(c, p, gamma, (n - 1) as nat);
    }
}

/// Over a prime modulus, when the twist factor's `d`-th power is one (as for
/// `gamma = c^((q-1)/d)` with the rule `t^d = c`), applying the Frobenius map `d` times gives
/// back every point whose coordinates lie in the tower.
pub proof fn lemma_frobenius_order(c: EllipticCurve, p: PointView, gamma: u64)
    requires
        c.wf(),
        is_prime(c.field.q as int),
        c.valid(p),
        gamma < c.field.q,
        pow(gamma as int, c.field.degree()) % (c.field.q as int) == 1,
    ensures
        c.spec_frobenius_iter(p, gamma, c.field.degree()) == p,
{
    lemma_frobenius_iter_coords(c, p, gamma, c.field.degree());
    if let PointView::Affine { x, y } = p {
        lemma_frobenius_order_elem(c.field, x, gamma);
        lemma_frobenius_order_elem(c.field, y, gamma);
    }
}

} // verus!
