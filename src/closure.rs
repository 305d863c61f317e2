//! Closure of the group law over prime fields: chord and tangent results lie on the curve.
use crate::curve::{EllipticCurve, PointView};
use crate::prime_field::FieldError;
use crate::tower::{conv, conv_term, lemma_pow_elem, poly_mul, reduce, Tower};
use vstd::arithmetic::div_mod::{
    lemma_add_mod_noop, lemma_fundamental_div_mod, lemma_mod_equivalence, lemma_mod_multiples_basic,
    lemma_mul_mod_noop, lemma_small_mod, lemma_sub_mod_noop,
};
use vstd::prelude::*;

verus! {

/// `f(x) - (m (x - x1) + y1)^2` for the curve `y^2 = x^3 + a x + b` and the line through
/// `(x1, y1)` of slope `m`.
spec fn line_gap(a: int, b: int, m: int, x1: int, y1: int, x: int) -> int {
    x * x * x + a * x + b - (m * (x - x1) + y1) * (m * (x - x1) + y1)
}

proof fn lemma_cube_expand(x1: int, t: int)
    ensures
        (x1 + t) * (x1 + t) * (x1 + t) == x1 * x1 * x1 + 3 * (x1 * x1) * t + 3 * x1 * (t * t) + t * t * t,
{
    assert((x1 + t) * (x1 + t) == x1 * x1 + 2 * x1 * t + t * t) by (nonlinear_arith);
    assert((x1 * x1 + 2 * x1 * t + t * t) * (x1 + t) == x1 * x1 * x1 + 3 * (x1 * x1) * t + 3 * x1 * (t * t) + t * t * t) by (nonlinear_arith);
}

proof fn lemma_taylor(a: int, b: int, m: int, x1: int, y1: int, t: int)
    ensures
        line_gap(a, b, m, x1, y1, x1 + t) == line_gap(a, b, m, x1, y1, x1) + t * (3 * (x1 * x1) + a - 2 * m * y1) + t * t * (3 * x1 + t - m * m),
{
    lemma_cube_expand(x1, t);
    assert(m * (x1 + t - x1) == m * t);
    assert(m * (x1 - x1) == 0) by (nonlinear_arith);
    assert((m * t + y1) * (m * t + y1) == (m * m) * (t * t) + 2 * m * y1 * t + y1 * y1) by (nonlinear_arith);
    assert(a * (x1 + t) == a * x1 + a * t) by (nonlinear_arith);
    assert(t * (3 * (x1 * x1) + a - 2 * m * y1) == 3 * (x1 * x1) * t + a * t - 2 * m * y1 * t) by (nonlinear_arith);
    assert(t * t * (3 * x1 + t - m * m) == 3 * x1 * (t * t) + t * t * t - (m * m) * (t * t)) by (nonlinear_arith);
}

proof fn lemma_chord_identity(a: int, b: int, m: int, x1: int, y1: int, x2: int)
    ensures
        (x2 - x1) * line_gap(a, b, m, x1, y1, m * m - x1 - x2) == (x2 - x1) * line_gap(a, b, m, x1, y1, x1)
            + (m * m - x1 - x2 - x1) * (line_gap(a, b, m, x1, y1, x2) - line_gap(a, b, m, x1, y1, x1)),
{
    let t2 = x2 - x1;
    let t3 = m * m - x1 - x2 - x1;
    let s = 3 * (x1 * x1) + a - 2 * m * y1;
    lemma_taylor(a, b, m, x1, y1, t2);
    lemma_taylor(a, b, m, x1, y1, t3);
    assert(x1 + t2 == x2);
    assert(x1 + t3 == m * m - x1 - x2);
    let g1 = line_gap(a, b, m, x1, y1, x1);
    let g2 = line_gap(a, b, m, x1, y1, x2);
    let g3 = line_gap(a, b, m, x1, y1, m * m - x1 - x2);
    assert(3 * x1 + t2 - m * m == -t3);
    assert(3 * x1 + t3 - m * m == -t2);
    assert(t2 * g3 == t2 * g1 + t3 * (g2 - g1)) by (nonlinear_arith)
        requires
            g3 == g1 + t3 * s + t3 * t3 * (-t2),
            g2 == g1 + t2 * s + t2 * t2 * (-t3),
    ;
}

proof fn lemma_tangent_identity(a: int, b: int, m: int, x1: int, y1: int)
    ensures
        line_gap(a, b, m, x1, y1, m * m - 2 * x1) == line_gap(a, b, m, x1, y1, x1) + (m * m - 2 * x1 - x1) * (3 * (x1 * x1) + a - 2 * m * y1),
{
    let t = m * m - 2 * x1 - x1;
    lemma_taylor(a, b, m, x1, y1, t);
    assert(x1 + t == m * m - 2 * x1);
    assert(3 * x1 + t - m * m == 0);
    assert(t * t * (3 * x1 + t - m * m) == 0) by (nonlinear_arith)
        requires
            3 * x1 + t - m * m == 0,
    ;
}

/// `s` is the one-coefficient element whose value is `x` modulo `q`.
spec fn rep(s: Seq<u64>, x: int, q: int) -> bool {
    s.len() == 1 && s[0] as int == x % q
}

proof fn lemma_multiple(x: int, q: int)
    requires
        q > 0,
        x % q == 0,
    ensures
        x == q * (x / q),
{
    lemma_fundamental_div_mod(x, q);
}

proof fn lemma_is_multiple(k: int, q: int)
    requires
        q > 0,
    ensures
        (q * k) % q == 0,
{
    lemma_mod_multiples_basic(k, q);
    vstd::arithmetic::mul::lemma_mul_is_commutative(k, q);
}

proof fn lemma_rep_elem(f: Tower, s: Seq<u64>)
    requires
        f.wf(),
        f.degree() == 1,
        f.elem(s),
    ensures
        rep(s, s[0] as int, f.q as int),
{
    lemma_small_mod(s[0] as nat, f.q as nat);
}

proof fn lemma_rep_of_rep(f: Tower, s: Seq<u64>, x: int)
    requires
        f.wf(),
        f.degree() == 1,
        rep(s, x, f.q as int),
    ensures
        f.elem(s),
{
}

proof fn lemma_rep_eq(s: Seq<u64>, r: Seq<u64>, x: int, z: int, q: int)
    requires
        q > 0,
        rep(s, x, q),
        rep(r, z, q),
    ensures
        s == r <==> (x - z) % q == 0,
{
    lemma_mod_equivalence(x, z, q);
    if x % q == z % q {
        assert(s =~= r);
    }
}

proof fn lemma_rep_mul(f: Tower, a: Seq<u64>, b: Seq<u64>, x: int, y: int)
    requires
        f.wf(),
        f.degree() == 1,
        rep(a, x, f.q as int),
        rep(b, y, f.q as int),
    ensures
        rep(f.spec_mul(a, b), x * y, f.q as int),
{
    let q = f.q as int;
    let p = poly_mul(a, b, q);
    assert(conv(a, b, 0, 1) == conv(a, b, 0, 0) + conv_term(a, b, 0, 0));
    assert(p.len() == 1);
    assert(reduce(p, f.rule@, q) == p);
    lemma_mul_mod_noop(x, y, q);
}

proof fn lemma_rep_add(f: Tower, a: Seq<u64>, b: Seq<u64>, x: int, y: int)
    requires
        f.wf(),
        rep(a, x, f.q as int),
        rep(b, y, f.q as int),
    ensures
        rep(f.spec_add(a, b), x + y, f.q as int),
{
    lemma_add_mod_noop(x, y, f.q as int);
}

proof fn lemma_rep_sub(f: Tower, a: Seq<u64>, b: Seq<u64>, x: int, y: int)
    requires
        f.wf(),
        rep(a, x, f.q as int),
        rep(b, y, f.q as int),
    ensures
        rep(f.spec_sub(a, b), x - y, f.q as int),
{
    lemma_sub_mod_noop(x, y, f.q as int);
}

proof fn lemma_rep_const(f: Tower, c: u64)
    requires
        f.wf(),
        f.degree() == 1,
    ensures
        rep(f.spec_const(c), c as int, f.q as int),
{
}

/// Over a degree-1 tower the curve equation holds exactly when `y^2 - (x^3 + a x + b)` is a
/// multiple of `q`, for any integers that the coordinates stand for.
proof fn lemma_on_curve_rep(c: EllipticCurve, x: Seq<u64>, y: Seq<u64>, xi: int, yi: int)
    requires
        c.wf(),
        c.field.degree() == 1,
        rep(x, xi, c.field.q as int),
        rep(y, yi, c.field.q as int),
    ensures
        c.on_curve(PointView::Affine { x, y }) <==> (yi * yi - (xi * xi * xi + c.a@[0] * xi
            + c.b@[0])) % (c.field.q as int) == 0,
{
    let f = c.field;
    let a = c.a@[0] as int;
    let b = c.b@[0] as int;
    lemma_rep_elem(f, c.a@);
    lemma_rep_elem(f, c.b@);
    lemma_rep_mul(f, y, y, yi, yi);
    lemma_rep_mul(f, x, x, xi, xi);
    lemma_rep_mul(f, f.spec_mul(x, x), x, xi * xi, xi);
    lemma_rep_mul(f, c.a@, x, a, xi);
    lemma_rep_add(f, f.spec_mul(f.spec_mul(x, x), x), f.spec_mul(c.a@, x), xi * xi * xi, a * xi);
    lemma_rep_add(
        f,
        f.spec_add(f.spec_mul(f.spec_mul(x, x), x), f.spec_mul(c.a@, x)),
        c.b@,
        xi * xi * xi + a * xi,
        b,
    );
    lemma_rep_eq(
        f.spec_mul(y, y),
        f.spec_add(f.spec_add(f.spec_mul(f.spec_mul(x, x), x), f.spec_mul(c.a@, x)), c.b@),
        yi * yi,
        xi * xi * xi + a * xi + b,
        f.q as int,
    );
}

proof fn lemma_gap_at_base(a: int, b: int, m: int, x1: int, y1: int)
    ensures
        line_gap(a, b, m, x1, y1, x1) == -(y1 * y1 - (x1 * x1 * x1 + a * x1 + b)),
{
    assert(m * (x1 - x1) == 0) by (nonlinear_arith);
}

/// `y3^2 = f(x3)` for `y3 = m (x1 - x3) - y1`, up to the line gap at `x3`.
proof fn lemma_gap_at_result(a: int, b: int, m: int, x1: int, y1: int, x3: int)
    ensures
        (m * (x1 - x3) - y1) * (m * (x1 - x3) - y1) - (x3 * x3 * x3 + a * x3 + b) == -line_gap(
            a,
            b,
            m,
            x1,
            y1,
            x3,
        ),
{
    assert((m * (x1 - x3) - y1) * (m * (x1 - x3) - y1) == (m * (x3 - x1) + y1) * (m * (x3 - x1) + y1))
        by (nonlinear_arith);
}

proof fn lemma_chord_mod(q: int, a: int, b: int, x1: int, y1: int, x2: int, y2: int, cinv: int)
    requires
        q > 1,
        (y1 * y1 - (x1 * x1 * x1 + a * x1 + b)) % q == 0,
        (y2 * y2 - (x2 * x2 * x2 + a * x2 + b)) % q == 0,
        ((x2 - x1) * cinv - 1) % q == 0,
    ensures
        ({
            let m = (y2 - y1) * cinv;
            let x3 = m * m - x1 - x2;
            let y3 = m * (x1 - x3) - y1;
            (y3 * y3 - (x3 * x3 * x3 + a * x3 + b)) % q == 0
        }),
{
    let m = (y2 - y1) * cinv;
    let x3 = m * m - x1 - x2;
    let d = x2 - x1;
    let e1 = y1 * y1 - (x1 * x1 * x1 + a * x1 + b);
    let e2 = y2 * y2 - (x2 * x2 * x2 + a * x2 + b);
    lemma_multiple(e1, q);
    lemma_multiple(e2, q);
    lemma_multiple(d * cinv - 1, q);
    let k1 = e1 / q;
    let k2 = e2 / q;
    let k = (d * cinv - 1) / q;
    let g1 = line_gap(a, b, m, x1, y1, x1);
    let g2 = line_gap(a, b, m, x1, y1, x2);
    let g3 = line_gap(a, b, m, x1, y1, x3);
    lemma_gap_at_base(a, b, m, x1, y1);
    assert(g1 == -(q * k1));
    // the slope through both points: m d = y2 - y1 + q k (y2 - y1)
    let s = (y2 - y1) * k;
    assert(m * d == y2 - y1 + q * s) by (nonlinear_arith)
        requires
            m == (y2 - y1) * cinv,
            d * cinv == 1 + q * k,
            s == (y2 - y1) * k,
    ;
    assert(m * (x2 - x1) + y1 == y2 + q * s);
    assert((y2 + q * s) * (y2 + q * s) == y2 * y2 + q * (2 * y2 * s + q * s * s)) by (nonlinear_arith);
    assert(g2 == -(q * k2) - q * (2 * y2 * s + q * s * s));
    let j2 = -k2 - (2 * y2 * s + q * s * s);
    assert(g2 == q * j2) by (nonlinear_arith)
        requires
            g2 == -(q * k2) - q * (2 * y2 * s + q * s * s),
            j2 == -k2 - (2 * y2 * s + q * s * s),
    ;
    lemma_chord_identity(a, b, m, x1, y1, x2);
    let w = d * (-k1) + (x3 - x1) * (j2 + k1);
    assert(d * g3 == q * w) by (nonlinear_arith)
        requires
            d * g3 == d * g1 + (x3 - x1) * (g2 - g1),
            g1 == -(q * k1),
            g2 == q * j2,
            w == d * (-k1) + (x3 - x1) * (j2 + k1),
    ;
    assert(g3 == q * (cinv * w - k * g3)) by (nonlinear_arith)
        requires
            d * g3 == q * w,
            d * cinv == 1 + q * k,
    ;
    lemma_gap_at_result(a, b, m, x1, y1, x3);
    lemma_is_multiple(-(cinv * w - k * g3), q);
    assert(-g3 == q * (-(cinv * w - k * g3))) by (nonlinear_arith)
        requires
            g3 == q * (cinv * w - k * g3),
    ;
}

proof fn lemma_tangent_mod(q: int, a: int, b: int, x1: int, y1: int, cinv: int)
    requires
        q > 1,
        (y1 * y1 - (x1 * x1 * x1 + a * x1 + b)) % q == 0,
        ((2 * y1) * cinv - 1) % q == 0,
    ensures
        ({
            let m = (3 * (x1 * x1) + a) * cinv;
            let x3 = m * m - 2 * x1;
            let y3 = m * (x1 - x3) - y1;
            (y3 * y3 - (x3 * x3 * x3 + a * x3 + b)) % q == 0
        }),
{
    let n = 3 * (x1 * x1) + a;
    let m = n * cinv;
    let x3 = m * m - 2 * x1;
    let e1 = y1 * y1 - (x1 * x1 * x1 + a * x1 + b);
    lemma_multiple(e1, q);
    lemma_multiple((2 * y1) * cinv - 1, q);
    let k1 = e1 / q;
    let k = ((2 * y1) * cinv - 1) / q;
    let g1 = line_gap(a, b, m, x1, y1, x1);
    let g3 = line_gap(a, b, m, x1, y1, x3);
    lemma_gap_at_base(a, b, m, x1, y1);
    lemma_tangent_identity(a, b, m, x1, y1);
    // the tangent slope: 3 x1^2 + a - 2 m y1 = -q k n
    assert(n - 2 * m * y1 == q * (-(k * n))) by (nonlinear_arith)
        requires
            m == n * cinv,
            (2 * y1) * cinv == 1 + q * k,
    ;
    let w = -k1 + (x3 - x1) * (-(k * n));
    assert(g3 == q * w) by (nonlinear_arith)
        requires
            g3 == g1 + (x3 - x1) * (n - 2 * m * y1),
            g1 == -(q * k1),
            n - 2 * m * y1 == q * (-(k * n)),
            w == -k1 + (x3 - x1) * (-(k * n)),
    ;
    lemma_gap_at_result(a, b, m, x1, y1, x3);
    lemma_is_multiple(-w, q);
    assert(-g3 == q * (-w)) by (nonlinear_arith)
        requires
            g3 == q * w,
    ;
}

/// What an inverse found in a degree-1 tower says of the integers: `den * inv = 1` modulo `q`.
proof fn lemma_rep_inverse(f: Tower, den: Seq<u64>, d: int) -> (ci: int)
    requires
        f.wf(),
        f.degree() == 1,
        rep(den, d, f.q as int),
        f.spec_inverse(den) is Some,
    ensures
        rep(f.spec_inverse(den)->Some_0, ci, f.q as int),
        (d * ci - 1) % (f.q as int) == 0,
{
    let inv = f.spec_inverse(den)->Some_0;
    lemma_rep_of_rep(f, den, d);
    lemma_pow_elem(f, den, (f.order - 2) as nat);
    lemma_rep_elem(f, inv);
    let ci = inv[0] as int;
    lemma_rep_mul(f, den, inv, d, ci);
    lemma_small_mod(1, f.q as nat);
    assert(rep(f.spec_one(), 1, f.q as int));
    lemma_rep_eq(f.spec_mul(den, inv), f.spec_one(), d * ci, 1, f.q as int);
    ci
}

/// Over a prime field (a tower of degree 1), doubling a point of the curve gives a point of the
/// curve whenever it succeeds.
pub proof fn lemma_double_closed(c: EllipticCurve, p: PointView)
    requires
        c.wf(),
        c.field.degree() == 1,
        c.valid(p),
        c.on_curve(p),
    ensures
        c.spec_double(p) is Ok ==> c.valid(c.spec_double(p)->Ok_0) && c.on_curve(
            c.spec_double(p)->Ok_0,
        ),
{
    let f = c.field;
    let q = f.q as int;
    if let PointView::Affine { x, y } = p {
        if y != f.spec_zero() {
            let num = f.spec_add(f.spec_mul(f.spec_const(3), f.spec_mul(x, x)), c.a@);
            let den = f.spec_mul(f.spec_const(2), y);
            if !(den == f.spec_zero() || f.spec_inverse(den) is None) {
                let inv = f.spec_inverse(den)->Some_0;
                let (xi, yi, a, b) = (x[0] as int, y[0] as int, c.a@[0] as int, c.b@[0] as int);
                lemma_rep_elem(f, x);
                lemma_rep_elem(f, y);
                lemma_rep_elem(f, c.a@);
                lemma_rep_const(f, 3);
                lemma_rep_const(f, 2);
                lemma_rep_mul(f, x, x, xi, xi);
                lemma_rep_mul(f, f.spec_const(3), f.spec_mul(x, x), 3, xi * xi);
                lemma_rep_add(f, f.spec_mul(f.spec_const(3), f.spec_mul(x, x)), c.a@, 3 * (xi * xi), a);
                lemma_rep_mul(f, f.spec_const(2), y, 2, yi);
                let ci = lemma_rep_inverse(f, den, 2 * yi);
                let n = 3 * (xi * xi) + a;
                let m = f.spec_mul(num, inv);
                let mi = n * ci;
                lemma_rep_mul(f, num, inv, n, ci);
                lemma_rep_mul(f, m, m, mi, mi);
                lemma_rep_mul(f, f.spec_const(2), x, 2, xi);
                let x3 = f.spec_sub(f.spec_mul(m, m), f.spec_mul(f.spec_const(2), x));
                let x3i = mi * mi - 2 * xi;
                lemma_rep_sub(f, f.spec_mul(m, m), f.spec_mul(f.spec_const(2), x), mi * mi, 2 * xi);
                lemma_rep_sub(f, x, x3, xi, x3i);
                lemma_rep_mul(f, m, f.spec_sub(x, x3), mi, xi - x3i);
                let y3 = f.spec_sub(f.spec_mul(m, f.spec_sub(x, x3)), y);
                let y3i = mi * (xi - x3i) - yi;
                lemma_rep_sub(f, f.spec_mul(m, f.spec_sub(x, x3)), y, mi * (xi - x3i), yi);
                lemma_on_curve_rep(c, x, y, xi, yi);
                lemma_tangent_mod(q, a, b, xi, yi, ci);
                lemma_on_curve_rep(c, x3, y3, x3i, y3i);
                lemma_rep_of_rep(f, x3, x3i);
                lemma_rep_of_rep(f, y3, y3i);
                assert(c.spec_double(p) == Ok::<PointView, FieldError>(PointView::Affine { x: x3, y: y3 }));
            }
        }
    }
}

proof fn lemma_chord_closed(c: EllipticCurve, x1: Seq<u64>, y1: Seq<u64>, x2: Seq<u64>, y2: Seq<u64>)
    requires
        c.wf(),
        c.field.degree() == 1,
        c.valid(PointView::Affine { x: x1, y: y1 }),
        c.valid(PointView::Affine { x: x2, y: y2 }),
        c.on_curve(PointView::Affine { x: x1, y: y1 }),
        c.on_curve(PointView::Affine { x: x2, y: y2 }),
        c.field.spec_inverse(c.field.spec_sub(x2, x1)) is Some,
    ensures
        ({
            let f = c.field;
            let m = f.spec_mul(f.spec_sub(y2, y1), f.spec_inverse(f.spec_sub(x2, x1))->Some_0);
            let x3 = f.spec_sub(f.spec_sub(f.spec_mul(m, m), x1), x2);
            let y3 = f.spec_sub(f.spec_mul(m, f.spec_sub(x1, x3)), y1);
            c.valid(PointView::Affine { x: x3, y: y3 }) && c.on_curve(PointView::Affine { x: x3, y: y3 })
        }),
{
    let f = c.field;
    let q = f.q as int;
    let den = f.spec_sub(x2, x1);
    let inv = f.spec_inverse(den)->Some_0;
    let (a, b) = (c.a@[0] as int, c.b@[0] as int);
    let (x1i, y1i, x2i, y2i) = (x1[0] as int, y1[0] as int, x2[0] as int, y2[0] as int);
    lemma_rep_elem(f, x1);
    lemma_rep_elem(f, y1);
    lemma_rep_elem(f, x2);
    lemma_rep_elem(f, y2);
    lemma_rep_sub(f, x2, x1, x2i, x1i);
    let ci = lemma_rep_inverse(f, den, x2i - x1i);
    lemma_rep_sub(f, y2, y1, y2i, y1i);
    let m = f.spec_mul(f.spec_sub(y2, y1), inv);
    let mi = (y2i - y1i) * ci;
    lemma_rep_mul(f, f.spec_sub(y2, y1), inv, y2i - y1i, ci);
    lemma_rep_mul(f, m, m, mi, mi);
    lemma_rep_sub(f, f.spec_mul(m, m), x1, mi * mi, x1i);
    let x3 = f.spec_sub(f.spec_sub(f.spec_mul(m, m), x1), x2);
    let x3i = mi * mi - x1i - x2i;
    lemma_rep_sub(f, f.spec_sub(f.spec_mul(m, m), x1), x2, mi * mi - x1i, x2i);
    lemma_rep_sub(f, x1, x3, x1i, x3i);
    lemma_rep_mul(f, m, f.spec_sub(x1, x3), mi, x1i - x3i);
    let y3 = f.spec_sub(f.spec_mul(m, f.spec_sub(x1, x3)), y1);
    let y3i = mi * (x1i - x3i) - y1i;
    lemma_rep_sub(f, f.spec_mul(m, f.spec_sub(x1, x3)), y1, mi * (x1i - x3i), y1i);
    lemma_on_curve_rep(c, x1, y1, x1i, y1i);
    lemma_on_curve_rep(c, x2, y2, x2i, y2i);
    lemma_chord_mod(q, a, b, x1i, y1i, x2i, y2i, ci);
    lemma_on_curve_rep(c, x3, y3, x3i, y3i);
    lemma_rep_of_rep(f, x3, x3i);
    lemma_rep_of_rep(f, y3, y3i);
}

/// Over a prime field (a tower of degree 1), adding two points of the curve gives a point of the
/// curve whenever it succeeds.
pub proof fn lemma_add_closed(c: EllipticCurve, p: PointView, q: PointView)
    requires
        c.wf(),
        c.field.degree() == 1,
        c.valid(p),
        c.valid(q),
        c.on_curve(p),
        c.on_curve(q),
    ensures
        c.spec_add(p, q) is Ok ==> c.valid(c.spec_add(p, q)->Ok_0) && c.on_curve(
            c.spec_add(p, q)->Ok_0,
        ),
{
    let f = c.field;
    if let (PointView::Affine { x: x1, y: y1 }, PointView::Affine { x: x2, y: y2 }) = (p, q) {
        if x1 == x2 && y1 == f.spec_neg(y2) {
        } else if x1 == x2 && y1 == y2 {
            lemma_double_closed(c, p);
        } else {
            let den = f.spec_sub(x2, x1);
            if !(den == f.spec_zero() || f.spec_inverse(den) is None) {
                lemma_chord_closed(c, x1, y1, x2, y2);
            }
        }
    }
}

} // verus!
