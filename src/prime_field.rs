//! Integers modulo `q` in canonical form, the extended Euclidean inverse, and the field laws.
use vstd::arithmetic::div_mod::{
    lemma_add_mod_noop, lemma_fundamental_div_mod, lemma_fundamental_div_mod_converse,
    lemma_mod_multiples_basic, lemma_mul_mod_noop, lemma_sub_mod_noop,
};
use vstd::arithmetic::power::{lemma_pow_adds, lemma_pow_mod_noop, pow};
use vstd::prelude::*;

verus! {

/// Error conditions of the arithmetic core.
#[derive(Clone, Copy, Debug, PartialEq, Eq, Structural)]
pub enum FieldError {
    /// The two operands belong to different fields or curves.
    IncompatibleOperands,
    /// The element has no multiplicative inverse.
    NonInvertible,
    /// A modulus, a degree or a coefficient vector that cannot define a field.
    InvalidConstruction,
}

/// `q` is a prime number.
pub open spec fn is_prime(q: int) -> bool {
    q >= 2 && forall|d: int| 2 <= d < q ==> #[trigger] (q % d) != 0
}

/// `y` is a canonical inverse of `a` modulo `m`.
pub open spec fn is_inverse(a: int, y: int, m: int) -> bool {
    0 <= y < m && (a * y) % m == 1
}

/// `a` has an inverse modulo `m`.
pub open spec fn has_inverse(a: int, m: int) -> bool {
    exists|y: int| is_inverse(a, y, m)
}

/// Greatest common divisor, by Euclid's recursion.
pub open spec fn gcd(a: nat, b: nat) -> nat
    decreases b,
{
    if b == 0 {
        a
    } else {
        gcd(b, a % b)
    }
}

/// The greatest common divisor is positive and divides both arguments.
pub proof fn lemma_gcd_divides(a: nat, b: nat)
    requires
        a > 0 || b > 0,
    ensures
        gcd(a, b) > 0,
        a % gcd(a, b) == 0,
        b % gcd(a, b) == 0,
    decreases b,
{
    if b == 0 {
        vstd::arithmetic::div_mod::lemma_mod_self_0(a as int);
        vstd::arithmetic::div_mod::lemma_small_mod(0, a);
    } else {
        let r = a % b;
        lemma_gcd_divides(b, r);
        let g = gcd(b, r) as int;
        // a = b * (a / b) + r, and g divides b and r
        lemma_fundamental_div_mod(a as int, b as int);
        lemma_fundamental_div_mod(b as int, g);
        lemma_fundamental_div_mod(r as int, g);
        let kb = b as int / g;
        let kr = r as int / g;
        assert(a as int == g * (kb * (a as int / b as int) + kr)) by (nonlinear_arith)
            requires
                a as int == b as int * (a as int / b as int) + r,
                b as int == g * kb,
                r as int == g * kr,
        ;
        lemma_mod_multiples_basic(kb * (a as int / b as int) + kr, g);
        vstd::arithmetic::mul::lemma_mul_is_commutative(kb * (a as int / b as int) + kr, g);
    }
}

/// Two canonical inverses of the same element coincide.
pub proof fn lemma_inverse_unique(a: int, y1: int, y2: int, m: int)
    requires
        m >= 2,
        is_inverse(a, y1, m),
        is_inverse(a, y2, m),
    ensures
        y1 == y2,
{
    // y1 = y1 * (a * y2) = (y1 * a) * y2 = y2, all modulo m
    lemma_mul_mod_noop(y1, a * y2, m);
    vstd::arithmetic::mul::lemma_mul_is_associative(y1, a, y2);
    lemma_mul_mod_noop(y1 * a, y2, m);
    vstd::arithmetic::mul::lemma_mul_is_commutative(y1, a);
    vstd::arithmetic::div_mod::lemma_small_mod(y1 as nat, m as nat);
    vstd::arithmetic::div_mod::lemma_small_mod(y2 as nat, m as nat);
    assert(y1 % m == y1 && y2 % m == y2);
    assert((y1 * (a * y2)) % m == (y1 * 1) % m);
    assert(((y1 * a) * y2) % m == (1 * y2) % m);
}

/// The product of two machine words fits in a double word.
pub proof fn lemma_word_product(a: u64, b: u64)
    ensures
        a as int * b as int <= 0xffff_ffff_ffff_ffffu64 as int * 0xffff_ffff_ffff_ffffu64 as int,
{
    vstd::arithmetic::mul::lemma_mul_upper_bound(a as int, 0xffff_ffff_ffff_ffffu64 as int, b as int, 0xffff_ffff_ffff_ffffu64 as int);
}

/// Computes the inverse of `a` modulo `m` with the extended Euclidean algorithm.
pub fn inverse_mod(a: u64, m: u64) -> (r: Result<Fq, FieldError>)
    requires
        m >= 2,
    ensures
        r is Ok <==> has_inverse(a as int, m as int),
        r is Ok <==> gcd(m as nat, a as nat) == 1,
        r is Ok ==> r->Ok_0.wf() && r->Ok_0.q == m && is_inverse(a as int, r->Ok_0.value as int, m as int),
        r is Err ==> r->Err_0 == FieldError::NonInvertible,
        is_prime(m as int) && a as int % m as int != 0 ==> r is Ok,
{
    let mut t: u64 = 0;
    let mut newt: u64 = 1;
    let mut rem: u64 = m;
    let mut newrem: u64 = a;
    let ghost mi = m as int;
    let ghost ai = a as int;
    proof {
        lemma_mod_multiples_basic(-1, mi);
        assert((0 * ai - mi) == -1 * mi);
        vstd::arithmetic::div_mod::lemma_small_mod(0, m as nat);
        assert((1 * ai - ai) % mi == 0);
    }
    while newrem != 0
        invariant
            m >= 2,
            mi == m as int,
            ai == a as int,
            t < m,
            newt < m,
            (t as int * ai - rem as int) % mi == 0,
            (newt as int * ai - newrem as int) % mi == 0,
            gcd(rem as nat, newrem as nat) == gcd(m as nat, a as nat),
            rem > 0,
        decreases newrem,
    {
        let quotient: u64 = rem / newrem;
        let next_rem: u64 = rem % newrem;
        proof {
            lemma_word_product(quotient % m, newt);
        }
        let prod: u128 = ((quotient % m) as u128 * newt as u128) % (m as u128);
        let next_t: u64 = ((t as u128 + m as u128 - prod) % (m as u128)) as u64;
        proof {
            let qi = quotient as int;
            let ti = t as int;
            let nti = newt as int;
            let ri = rem as int;
            let nri = newrem as int;
            lemma_fundamental_div_mod(ri, nri);
            assert(next_rem as int == ri - nri * qi);
            // next_t is congruent to t - quotient * newt
            lemma_mul_mod_noop(qi, nti, mi);
            vstd::arithmetic::div_mod::lemma_mod_twice(qi, mi);
            lemma_mul_mod_noop(qi % mi, nti, mi);
            assert(prod as int == (qi * nti) % mi);
            lemma_sub_mod_noop(ti + mi, qi * nti, mi);
            lemma_add_mod_noop(ti, mi, mi);
            vstd::arithmetic::div_mod::lemma_mod_self_0(mi);
            vstd::arithmetic::div_mod::lemma_small_mod(ti as nat, mi as nat);
            lemma_sub_mod_noop(ti + mi, prod as int, mi);
            assert(next_t as int == (ti + mi - prod as int) % mi);
            assert(next_t as int == (ti - qi * nti + mi) % mi) by {
                vstd::arithmetic::div_mod::lemma_mod_twice(ti + mi - qi * nti, mi);
                lemma_sub_mod_noop(ti + mi, qi * nti, mi);
                lemma_sub_mod_noop(ti + mi, prod as int, mi);
                vstd::arithmetic::div_mod::lemma_mod_twice(qi * nti, mi);
            }
            let big = ti - qi * nti + mi;
            lemma_fundamental_div_mod(big, mi);
            let j = big / mi;
            let x = ti * ai - ri;
            let y = nti * ai - nri;
            lemma_fundamental_div_mod(x, mi);
            lemma_fundamental_div_mod(y, mi);
            let k1 = x / mi;
            let k2 = y / mi;
            let nt = next_t as int;
            let nr = next_rem as int;
            assert(nt * ai == big * ai - (mi * j) * ai) by (nonlinear_arith)
                requires
                    nt == big - mi * j,
            ;
            assert(big * ai == ti * ai - qi * (nti * ai) + mi * ai) by (nonlinear_arith)
                requires
                    big == ti - qi * nti + mi,
            ;
            assert(qi * (nti * ai) == qi * y + qi * nri) by (nonlinear_arith)
                requires
                    y == nti * ai - nri,
            ;
            assert(qi * y == mi * (qi * k2)) by (nonlinear_arith)
                requires
                    y == mi * k2,
            ;
            assert((mi * j) * ai == mi * (j * ai)) by (nonlinear_arith);
            assert(nri * qi == qi * nri) by (nonlinear_arith);
            assert(mi * k1 - mi * (qi * k2) + mi * ai - mi * (j * ai) == mi * (k1 - qi * k2 + ai
                - j * ai)) by (nonlinear_arith);
            assert(nt * ai - nr == mi * (k1 - qi * k2 + ai - j * ai));
            lemma_mod_multiples_basic(k1 - qi * k2 + ai - j * ai, mi);
            vstd::arithmetic::mul::lemma_mul_is_commutative(k1 - qi * k2 + ai - j * ai, mi);
            assert(gcd(rem as nat, newrem as nat) == gcd(newrem as nat, next_rem as nat));
        }
        t = newt;
        newt = next_t;
        rem = newrem;
        newrem = next_rem;
    }
    proof {
        assert(gcd(rem as nat, 0) == rem);
        lemma_gcd_divides(m as nat, a as nat);
        let g = gcd(m as nat, a as nat) as int;
        if is_prime(mi) && ai % mi != 0 {
            // a divisor of a prime modulus is 1 or the modulus, and the modulus does not divide a
            if g != 1 {
                assert(g <= mi) by {
                    vstd::arithmetic::div_mod::lemma_mod_decreases(m as nat, g as nat);
                    if g > mi {
                        vstd::arithmetic::div_mod::lemma_small_mod(m as nat, g as nat);
                    }
                }
                if g < mi {
                    assert(mi % g != 0);
                } else {
                    assert(ai % mi == 0);
                }
            }
        }
    }
    if rem == 1 {
        proof {
            vstd::arithmetic::div_mod::lemma_mod_sub_multiples_vanish(0, mi);
            lemma_sub_mod_noop(t as int * ai, 1, mi);
            vstd::arithmetic::div_mod::lemma_small_mod(1, m as nat);
            lemma_fundamental_div_mod(t as int * ai - 1, mi);
            let k = (t as int * ai - 1) / mi;
            vstd::arithmetic::div_mod::lemma_mod_multiples_vanish(k, 1, mi);
            vstd::arithmetic::mul::lemma_mul_is_commutative(ai, t as int);
            assert(is_inverse(ai, t as int, mi));
        }
        Ok(Fq { value: t, q: m })
    } else {
        proof {
            let g = rem as int;
            assert(g > 1);
            if has_inverse(ai, mi) {
                let y = choose|y: int| is_inverse(ai, y, mi);
                // g divides a * y and m, so it would divide 1
                lemma_fundamental_div_mod(ai, g);
                lemma_fundamental_div_mod(mi, g);
                lemma_fundamental_div_mod(ai * y, mi);
                let ka = ai / g;
                let km = mi / g;
                let kq = (ai * y) / mi;
                assert(1 == g * (ka * y - km * kq)) by (nonlinear_arith)
                    requires
                        ai == g * ka,
                        mi == g * km,
                        ai * y == mi * kq + 1,
                ;
                assert(false) by (nonlinear_arith)
                    requires
                        1 == g * (ka * y - km * kq),
                        g > 1,
                ;
            }
        }
        Err(FieldError::NonInvertible)
    }
}

/// An element of the integers modulo `q`, always held in canonical form.
#[derive(Clone, Copy, Debug, PartialEq, Eq, Structural)]
pub struct Fq {
    pub value: u64,
    pub q: u64,
}

impl Fq {
    pub open spec fn wf(self) -> bool {
        self.q >= 2 && self.value < self.q
    }

    /// Both operands live in the same field.
    pub open spec fn compatible(self, o: Fq) -> bool {
        self.wf() && o.wf() && self.q == o.q
    }

    pub open spec fn spec_add(self, o: Fq) -> Fq {
        Fq { value: ((self.value + o.value) % (self.q as int)) as u64, q: self.q }
    }

    pub open spec fn spec_sub(self, o: Fq) -> Fq {
        Fq { value: ((self.value - o.value) % (self.q as int)) as u64, q: self.q }
    }

    pub open spec fn spec_mul(self, o: Fq) -> Fq {
        Fq { value: ((self.value * o.value) % (self.q as int)) as u64, q: self.q }
    }

    pub open spec fn spec_neg(self) -> Fq {
        Fq { value: ((-self.value) % (self.q as int)) as u64, q: self.q }
    }

    pub open spec fn spec_pow(self, e: nat) -> Fq {
        Fq { value: (pow(self.value as int, e) % (self.q as int)) as u64, q: self.q }
    }

    pub open spec fn spec_zero(q: u64) -> Fq {
        Fq { value: 0, q }
    }

    pub open spec fn spec_one(q: u64) -> Fq {
        Fq { value: 1, q }
    }

    /// Reduces a signed integer into `[0, q)`.
    pub fn new(n: i64, q: u64) -> (r: Fq)
        requires
            q >= 2,
        ensures
            r.wf(),
            r.q == q,
            r.value == n as int % q as int,
    {
        if n >= 0 {
            Fq { value: (n as u64) % q, q }
        } else {
            let k: u64 = ((-(n as i128)) as u64) % q;
            let v: u64 = if k == 0 {
                0
            } else {
                q - k
            };
            proof {
                let t = (-n) / (q as int);
                lemma_fundamental_div_mod(-n, q as int);
                let qi = q as int;
                assert(-n == qi * t + (k as int));
                assert((-t) * qi == -(qi * t)) by (nonlinear_arith);
                assert((-t - 1) * qi + (qi - k) == -(qi * t) - k) by (nonlinear_arith);
                if k == 0 {
                    lemma_fundamental_div_mod_converse(n as int, q as int, -t, 0);
                } else {
                    lemma_fundamental_div_mod_converse(n as int, q as int, -t - 1, q - k);
                }
            }
            Fq { value: v, q }
        }
    }

    /// Builds the field element of an unsigned integer.
    pub fn from_u64(n: u64, q: u64) -> (r: Fq)
        requires
            q >= 2,
        ensures
            r.wf(),
            r.q == q,
            r.value == n % q,
    {
        Fq { value: n % q, q }
    }

    pub fn zero(q: u64) -> (r: Fq)
        requires
            q >= 2,
        ensures
            r == Fq::spec_zero(q),
            r.wf(),
    {
        Fq { value: 0, q }
    }

    pub fn one(q: u64) -> (r: Fq)
        requires
            q >= 2,
        ensures
            r == Fq::spec_one(q),
            r.wf(),
    {
        Fq { value: 1, q }
    }

    pub fn is_zero(&self) -> (r: bool)
        ensures
            r == (self.value == 0),
    {
        self.value == 0
    }

    pub fn add(&self, o: &Fq) -> (r: Fq)
        requires
            self.compatible(*o),
        ensures
            r == self.spec_add(*o),
            r.wf(),
    {
        let s: u128 = self.value as u128 + o.value as u128;
        Fq { value: (s % self.q as u128) as u64, q: self.q }
    }

    pub fn sub(&self, o: &Fq) -> (r: Fq)
        requires
            self.compatible(*o),
        ensures
            r == self.spec_sub(*o),
            r.wf(),
    {
        let s: u128 = self.value as u128 + self.q as u128 - o.value as u128;
        proof {
            let qi = self.q as int;
            lemma_add_mod_noop(self.value - o.value, qi, qi);
            vstd::arithmetic::div_mod::lemma_mod_self_0(qi);
            vstd::arithmetic::div_mod::lemma_mod_twice(self.value - o.value, qi);
        }
        Fq { value: (s % self.q as u128) as u64, q: self.q }
    }

    pub fn mul(&self, o: &Fq) -> (r: Fq)
        requires
            self.compatible(*o),
        ensures
            r == self.spec_mul(*o),
            r.wf(),
    {
        proof {
            lemma_word_product(self.value, o.value);
        }
        let s: u128 = self.value as u128 * o.value as u128;
        Fq { value: (s % self.q as u128) as u64, q: self.q }
    }

    pub fn neg(&self) -> (r: Fq)
        requires
            self.wf(),
        ensures
            r == self.spec_neg(),
            r.wf(),
    {
        let z = Fq::zero(self.q);
        let r = z.sub(self);
        assert(0 - self.value == -self.value);
        r
    }

    /// Square-and-multiply exponentiation.
    pub fn pow(&self, e: u64) -> (r: Fq)
        requires
            self.wf(),
        ensures
            r == self.spec_pow(e as nat),
            r.wf(),
        decreases e,
    {
        if e == 0 {
            proof {
                vstd::arithmetic::power::lemma_pow0(self.value as int);
                vstd::arithmetic::div_mod::lemma_small_mod(1, self.q as nat);
            }
            Fq::one(self.q)
        } else {
            let h = self.pow(e / 2);
            let s = h.mul(&h);
            let r = if e % 2 == 1 {
                s.mul(self)
            } else {
                s
            };
            proof {
                let b = self.value as int;
                let qi = self.q as int;
                let half = (e / 2) as nat;
                let ph = pow(b, half);
                lemma_pow_adds(b, half, half);
                lemma_mul_mod_noop(ph, ph, qi);
                assert(s.value == pow(b, half + half) % qi);
                if e % 2 == 1 {
                    lemma_pow_adds(b, half + half, 1);
                    vstd::arithmetic::power::lemma_pow1(b);
                    lemma_mul_mod_noop(pow(b, half + half), b, qi);
                    vstd::arithmetic::div_mod::lemma_small_mod(self.value as nat, self.q as nat);
                    vstd::arithmetic::div_mod::lemma_mod_twice(pow(b, half + half), qi);
                    assert(half + half + 1 == e as nat);
                } else {
                    assert(half + half == e as nat);
                }
            }
            r
        }
    }

    /// Multiplicative inverse; fails exactly when none exists.
    pub fn inv(&self) -> (r: Result<Fq, FieldError>)
        requires
            self.wf(),
        ensures
            r is Ok <==> has_inverse(self.value as int, self.q as int),
            r is Ok ==> r->Ok_0.wf() && r->Ok_0.q == self.q && self.spec_mul(r->Ok_0)
                == Fq::spec_one(self.q),
            r is Err ==> r->Err_0 == FieldError::NonInvertible,
            self.value == 0 ==> r is Err,
            is_prime(self.q as int) && self.value != 0 ==> r is Ok,
    {
        let r = inverse_mod(self.value, self.q);
        proof {
            if self.value == 0 {
                if has_inverse(0, self.q as int) {
                    let y = choose|y: int| is_inverse(0, y, self.q as int);
                    assert(0 * y == 0);
                }
            } else {
                vstd::arithmetic::div_mod::lemma_small_mod(self.value as nat, self.q as nat);
            }
        }
        r
    }
}

impl Fq {
    /// `self / o`; fails exactly when `o` has no inverse.
    pub fn div(&self, o: &Fq) -> (r: Result<Fq, FieldError>)
        requires
            self.compatible(*o),
        ensures
            r is Ok <==> has_inverse(o.value as int, o.q as int),
            r is Ok ==> (exists|i: Fq|
                i.wf() && i.q == o.q && #[trigger] o.spec_mul(i) == Fq::spec_one(o.q) && r->Ok_0
                    == self.spec_mul(i)),
            r is Err ==> r->Err_0 == FieldError::NonInvertible,
            o.value == 0 ==> r is Err,
    {
        match o.inv() {
            Ok(i) => {
                let r = self.mul(&i);
                assert(o.spec_mul(i) == Fq::spec_one(o.q) && r == self.spec_mul(i));
                Ok(r)
            },
            Err(e) => Err(e),
        }
    }
}

/// Addition in a prime field is associative: (a + b) + c == a + (b + c).
pub proof fn lemma_add_associative(a: Fq, b: Fq, c: Fq)
    requires
        a.compatible(b),
        a.compatible(c),
    ensures
        a.spec_add(b).spec_add(c) == a.spec_add(b.spec_add(c)),
{
    let q = a.q as int;
    lemma_add_mod_noop(a.value + b.value, c.value as int, q);
    lemma_add_mod_noop(a.value as int, b.value + c.value, q);
    vstd::arithmetic::div_mod::lemma_small_mod(a.value as nat, a.q as nat);
    vstd::arithmetic::div_mod::lemma_small_mod(c.value as nat, a.q as nat);
    vstd::arithmetic::div_mod::lemma_mod_twice(a.value + b.value, q);
    vstd::arithmetic::div_mod::lemma_mod_twice(b.value + c.value, q);
    assert((a.value + b.value) + c.value == a.value + (b.value + c.value));
}

/// Multiplication distributes over addition: a * (b + c) == a * b + a * c.
pub proof fn lemma_mul_distributes(a: Fq, b: Fq, c: Fq)
    requires
        a.compatible(b),
        a.compatible(c),
    ensures
        a.spec_mul(b.spec_add(c)) == a.spec_mul(b).spec_add(a.spec_mul(c)),
{
    let q = a.q as int;
    let (x, y, z) = (a.value as int, b.value as int, c.value as int);
    lemma_mul_mod_noop(x, y + z, q);
    vstd::arithmetic::div_mod::lemma_small_mod(a.value as nat, a.q as nat);
    vstd::arithmetic::mul::lemma_mul_is_distributive_add(x, y, z);
    lemma_add_mod_noop(x * y, x * z, q);
    assert((x * ((y + z) % q)) % q == (x * (y + z)) % q) by {
        lemma_mul_mod_noop(x, (y + z) % q, q);
        vstd::arithmetic::div_mod::lemma_mod_twice(y + z, q);
    }
}

/// Multiplication in a prime field is associative: (a * b) * c == a * (b * c).
pub proof fn lemma_mul_associative(a: Fq, b: Fq, c: Fq)
    requires
        a.compatible(b),
        a.compatible(c),
    ensures
        a.spec_mul(b).spec_mul(c) == a.spec_mul(b.spec_mul(c)),
{
    let q = a.q as int;
    let (x, y, z) = (a.value as int, b.value as int, c.value as int);
    lemma_mul_mod_noop(x * y, z, q);
    lemma_mul_mod_noop(x, y * z, q);
    vstd::arithmetic::div_mod::lemma_small_mod(a.value as nat, a.q as nat);
    vstd::arithmetic::div_mod::lemma_small_mod(c.value as nat, a.q as nat);
    vstd::arithmetic::div_mod::lemma_mod_twice(x * y, q);
    vstd::arithmetic::div_mod::lemma_mod_twice(y * z, q);
    vstd::arithmetic::mul::lemma_mul_is_associative(x, y, z);
}

/// Every element plus its negation is zero: a + (-a) == 0.
pub proof fn lemma_add_negation(a: Fq)
    requires
        a.wf(),
    ensures
        a.spec_add(a.spec_neg()) == Fq::spec_zero(a.q),
{
    let q = a.q as int;
    let x = a.value as int;
    lemma_add_mod_noop(x, -x, q);
    vstd::arithmetic::div_mod::lemma_small_mod(a.value as nat, a.q as nat);
    vstd::arithmetic::div_mod::lemma_small_mod(0, a.q as nat);
    vstd::arithmetic::div_mod::lemma_mod_twice(-x, q);
    lemma_add_mod_noop(x, (-x) % q, q);
}

} // verus!
