//! Extension fields `F_q[t] / (t^d - rule)`: arithmetic, exponentiation, inverses, the
//! coefficientwise Frobenius map, and laws of the multiplication.
use crate::prime_field::{FieldError, Fq, has_inverse, is_inverse, is_prime, lemma_inverse_unique, lemma_word_product};
use vstd::arithmetic::div_mod::{
    lemma_add_mod_noop, lemma_fundamental_div_mod, lemma_mul_mod_noop, lemma_small_mod,
};
use vstd::arithmetic::power::pow;
use vstd::prelude::*;

verus! {

/// The `i`-th term of the coefficient of `t^k` in the product of `a` and `b`.
pub open spec fn conv_term(a: Seq<u64>, b: Seq<u64>, k: int, i: int) -> int {
    if 0 <= i < a.len() && 0 <= k - i < b.len() {
        a[i] * b[k - i]
    } else {
        0
    }
}

/// The sum of the first `n` terms of the coefficient of `t^k` in `a * b`.
pub open spec fn conv(a: Seq<u64>, b: Seq<u64>, k: int, n: nat) -> int
    decreases n,
{
    if n == 0 {
        0
    } else {
        conv(a, b, k, (n - 1) as nat) + conv_term(a, b, k, n - 1)
    }
}

/// Schoolbook product of two coefficient vectors, each coefficient taken modulo `q`.
pub open spec fn poly_mul(a: Seq<u64>, b: Seq<u64>, q: int) -> Seq<u64> {
    Seq::new((a.len() + b.len() - 1) as nat, |k: int| (conv(a, b, k, a.len()) % q) as u64)
}

/// Rewrites the highest term `c * t^k` (k >= d) as `c * t^(k-d) * (rule[0] + ... + rule[d-1] t^(d-1))`
/// and folds it into the lower coefficients.
pub open spec fn fold_top(p: Seq<u64>, rule: Seq<u64>, q: int) -> Seq<u64> {
    let k = p.len() - 1;
    let base = k - rule.len();
    Seq::new(
        k as nat,
        |j: int|
            if j >= base {
                ((p[j] + p[k] * rule[j - base]) % q) as u64
            } else {
                p[j]
            },
    )
}

/// Folds every term of degree at least `d = rule.len()` back into degrees `0..d`.
pub open spec fn reduce(p: Seq<u64>, rule: Seq<u64>, q: int) -> Seq<u64>
    decreases p.len(),
{
    if p.len() <= rule.len() {
        p
    } else {
        reduce(fold_top(p, rule, q), rule, q)
    }
}

/// Every entry of `s` lies in `[0, q)`.
pub open spec fn canonical(s: Seq<u64>, q: int) -> bool {
    forall|i: int| 0 <= i < s.len() ==> (#[trigger] s[i] as int) < q
}

proof fn lemma_reduce_canonical(p: Seq<u64>, rule: Seq<u64>, q: int)
    requires
        q >= 2,
        rule.len() >= 1,
        p.len() >= rule.len(),
        canonical(p, q),
        canonical(rule, q),
    ensures
        reduce(p, rule, q).len() == rule.len(),
        canonical(reduce(p, rule, q), q),
    decreases p.len(),
{
    if p.len() > rule.len() {
        let f = fold_top(p, rule, q);
        assert forall|j: int| 0 <= j < f.len() implies (#[trigger] f[j] as int) < q by {
            let base = p.len() - 1 - rule.len();
            if j >= base {
                lemma_word_product(p[p.len() - 1], rule[j - base]);
            }
        }
        lemma_reduce_canonical(f, rule, q);
    }
}

/// A finite field `F_q[t] / (t^d - rule[d-1] t^(d-1) - ... - rule[0])` over the integers modulo `q`.
///
/// The substitution `t^d = rule[0] + rule[1] t + ... + rule[d-1] t^(d-1)` is the reduction rule;
/// a degree-1 tower is the prime field itself.
#[derive(Debug)]
pub struct Tower {
    pub q: u64,
    pub rule: Vec<u64>,
    /// The number of elements, `q^d`.
    pub order: u64,
}

/// An element of a tower: `d` coefficients of `1, t, ..., t^(d-1)`.
#[derive(Debug, PartialEq, Eq)]
pub struct ExtElem {
    pub coeffs: Vec<u64>,
}

impl View for ExtElem {
    type V = Seq<u64>;

    open spec fn view(&self) -> Seq<u64> {
        self.coeffs@
    }
}

/// Copies a coefficient vector.
fn copy_coeffs(v: &Vec<u64>) -> (r: Vec<u64>)
    ensures
        r@ == v@,
{
    let mut r: Vec<u64> = Vec::new();
    for i in 0..v.len()
        invariant
            r@ == v@.subrange(0, i as int),
    {
        r.push(v[i]);
        assert(r@ =~= v@.subrange(0, i + 1));
    }
    assert(r@ =~= v@);
    r
}

impl ExtElem {
    /// An independent copy of the element.
    pub fn duplicate(&self) -> (r: ExtElem)
        ensures
            r@ == self@,
    {
        ExtElem { coeffs: copy_coeffs(&self.coeffs) }
    }

    /// Coefficientwise equality.
    pub fn equals(&self, o: &ExtElem) -> (r: bool)
        ensures
            r == (self@ == o@),
    {
        if self.coeffs.len() != o.coeffs.len() {
            return false;
        }
        for i in 0..self.coeffs.len()
            invariant
                self@.len() == o@.len(),
                forall|j: int| 0 <= j < i ==> self@[j] == o@[j],
        {
            if self.coeffs[i] != o.coeffs[i] {
                return false;
            }
        }
        assert(self@ =~= o@);
        true
    }
}

impl Tower {
    /// The degree `d` of the extension.
    pub open spec fn degree(&self) -> nat {
        self.rule@.len()
    }

    pub open spec fn wf(&self) -> bool {
        &&& self.q >= 2
        &&& 1 <= self.rule@.len() <= 64
        &&& canonical(self.rule@, self.q as int)
        &&& self.order as int == pow(self.q as int, self.degree())
        &&& self.order >= 2
    }

    /// `a` is an element of this tower.
    pub open spec fn elem(&self, a: Seq<u64>) -> bool {
        a.len() == self.degree() && canonical(a, self.q as int)
    }

    pub open spec fn spec_zero(&self) -> Seq<u64> {
        Seq::new(self.degree(), |i: int| 0u64)
    }

    pub open spec fn spec_one(&self) -> Seq<u64> {
        Seq::new(
            self.degree(),
            |i: int|
                if i == 0 {
                    1u64
                } else {
                    0u64
                },
        )
    }

    /// The constant `c` of the base field, seen in the tower.
    pub open spec fn spec_const(&self, c: u64) -> Seq<u64> {
        Seq::new(
            self.degree(),
            |i: int|
                if i == 0 {
                    (c % self.q) as u64
                } else {
                    0u64
                },
        )
    }

    pub open spec fn spec_add(&self, a: Seq<u64>, b: Seq<u64>) -> Seq<u64> {
        Seq::new(a.len(), |i: int| ((a[i] + b[i]) % (self.q as int)) as u64)
    }

    pub open spec fn spec_sub(&self, a: Seq<u64>, b: Seq<u64>) -> Seq<u64> {
        Seq::new(a.len(), |i: int| ((a[i] - b[i]) % (self.q as int)) as u64)
    }

    pub open spec fn spec_neg(&self, a: Seq<u64>) -> Seq<u64> {
        Seq::new(a.len(), |i: int| ((-a[i]) % (self.q as int)) as u64)
    }

    pub open spec fn spec_mul(&self, a: Seq<u64>, b: Seq<u64>) -> Seq<u64> {
        reduce(poly_mul(a, b, self.q as int), self.rule@, self.q as int)
    }

    /// Binary exponentiation: `a^e = (a^(e/2))^2 * a^(e mod 2)`.
    pub open spec fn spec_pow(&self, a: Seq<u64>, e: nat) -> Seq<u64>
        decreases e,
    {
        if e == 0 {
            self.spec_one()
        } else {
            let h = self.spec_pow(a, e / 2);
            let s = self.spec_mul(h, h);
            if e % 2 == 1 {
                self.spec_mul(s, a)
            } else {
                s
            }
        }
    }

    /// The candidate inverse `a^(q^d - 2)`, kept when it is one.
    pub open spec fn spec_inverse_by_pow(&self, a: Seq<u64>) -> Option<Seq<u64>> {
        let c = self.spec_pow(a, (self.order - 2) as nat);
        if self.spec_mul(a, c) == self.spec_one() {
            Some(c)
        } else {
            None
        }
    }

    /// For `t^2 = c0 + c1 t`, the norm `a0^2 + a0 a1 c1 - a1^2 c0` of `a0 + a1 t`, modulo `q`.
    pub open spec fn spec_norm(&self, a: Seq<u64>) -> int {
        let c0 = self.rule@[0] as int;
        let c1 = self.rule@[1] as int;
        (a[0] * a[0] + a[0] * a[1] * c1 - a[1] * a[1] * c0) % (self.q as int)
    }

    /// The conjugate `(a0 + a1 c1) - a1 t` divided by the norm, when the norm is invertible.
    pub open spec fn spec_inverse_quadratic(&self, a: Seq<u64>) -> Option<Seq<u64>> {
        let q = self.q as int;
        let n = self.spec_norm(a);
        if has_inverse(n, q) {
            let i = choose|y: int| is_inverse(n, y, q);
            Some(
                seq![
                    (((a[0] + a[1] * self.rule@[1]) * i) % q) as u64,
                    ((-a[1] * i) % q) as u64,
                ],
            )
        } else {
            None
        }
    }

    /// The inverse: by the conjugate and the norm in degree 2, by exponentiation otherwise.
    pub open spec fn spec_inverse(&self, a: Seq<u64>) -> Option<Seq<u64>> {
        if self.degree() == 2 {
            self.spec_inverse_quadratic(a)
        } else {
            self.spec_inverse_by_pow(a)
        }
    }
}

/// Each product in a tower reduces to exactly `d` coefficients, each in the canonical range of the
/// base field.
pub proof fn lemma_product_canonical(t: Tower, a: Seq<u64>, b: Seq<u64>)
    requires
        t.wf(),
        t.elem(a),
        t.elem(b),
    ensures
        t.elem(t.spec_mul(a, b)),
{
    let p = poly_mul(a, b, t.q as int);
    assert(canonical(p, t.q as int));
    lemma_reduce_canonical(p, t.rule@, t.q as int);
}

impl Tower {
    /// Builds the tower over `F_q` whose reduction rule is `t^d = rule[0] + ... + rule[d-1] t^(d-1)`.
    /// Each coefficient of the rule is reduced into `[0, q)`. Fails when `q < 2`, when the rule is
    /// empty, or when `q^d` does not fit in 64 bits.
    pub fn new(q: u64, rule: Vec<i64>) -> (r: Result<Tower, FieldError>)
        ensures
            r is Ok <==> (q >= 2 && 1 <= rule@.len() <= 64 && pow(q as int, rule@.len()) <= u64::MAX),
            r is Ok ==> r->Ok_0.wf() && r->Ok_0.q == q && r->Ok_0.degree() == rule@.len() && (
            forall|i: int|
                0 <= i < rule@.len() ==> #[trigger] r->Ok_0.rule@[i] as int == rule@[i] as int
                    % q as int),
            r is Err ==> r->Err_0 == FieldError::InvalidConstruction,
    {
        if q < 2 || rule.len() == 0 || rule.len() > 64 {
            return Err(FieldError::InvalidConstruction);
        }
        let mut reduced: Vec<u64> = Vec::new();
        let mut order: u64 = 1;
        let mut fits = true;
        proof {
            vstd::arithmetic::power::lemma_pow0(q as int);
        }
        for i in 0..rule.len()
            invariant
                q >= 2,
                reduced@.len() == i,
                forall|j: int| 0 <= j < i ==> #[trigger] reduced@[j] as int == rule@[j] as int % q as int,
                fits ==> order as int == pow(q as int, i as nat),
                !fits ==> pow(q as int, i as nat) > u64::MAX,
        {
            reduced.push(Fq::new(rule[i], q).value);
            proof {
                vstd::arithmetic::power::lemma_pow_adds(q as int, i as nat, 1);
                vstd::arithmetic::power::lemma_pow1(q as int);
                vstd::arithmetic::power::lemma_pow_positive(q as int, i as nat);
                assert(pow(q as int, i as nat) * q as int >= pow(q as int, i as nat)) by (nonlinear_arith)
                    requires pow(q as int, i as nat) > 0, q >= 2;
            }
            if fits {
                match order.checked_mul(q) {
                    Some(o) => {
                        order = o;
                    },
                    None => {
                        fits = false;
                    },
                }
            }
        }
        if !fits {
            return Err(FieldError::InvalidConstruction);
        }
        proof {
            vstd::arithmetic::power::lemma_pow1(q as int);
            vstd::arithmetic::power::lemma_pow_increases(q as nat, 1, rule@.len());
        }
        Ok(Tower { q, rule: reduced, order })
    }

    /// The prime field `F_q`, as the tower of degree 1.
    pub fn prime_field(q: u64) -> (r: Result<Tower, FieldError>)
        ensures
            r is Ok <==> q >= 2,
            r is Ok ==> r->Ok_0.wf() && r->Ok_0.q == q && r->Ok_0.degree() == 1,
            r is Err ==> r->Err_0 == FieldError::InvalidConstruction,
    {
        let r = Tower::new(q, vec![0]);
        proof {
            vstd::arithmetic::power::lemma_pow1(q as int);
        }
        r
    }

    /// The degree of the extension.
    pub fn degree_of(&self) -> (r: usize)
        ensures
            r == self.degree(),
    {
        self.rule.len()
    }

    /// Builds an element from `d` signed coefficients, each reduced into `[0, q)`.
    /// Fails when the number of coefficients is not the degree.
    pub fn element(&self, coeffs: Vec<i64>) -> (r: Result<ExtElem, FieldError>)
        requires
            self.wf(),
        ensures
            r is Ok <==> coeffs@.len() == self.degree(),
            r is Ok ==> self.elem(r->Ok_0@) && forall|i: int|
                0 <= i < coeffs@.len() ==> #[trigger] r->Ok_0@[i] as int == coeffs@[i] as int
                    % self.q as int,
            r is Err ==> r->Err_0 == FieldError::InvalidConstruction,
    {
        if coeffs.len() != self.rule.len() {
            return Err(FieldError::InvalidConstruction);
        }
        let mut v: Vec<u64> = Vec::new();
        for i in 0..coeffs.len()
            invariant
                self.wf(),
                v@.len() == i,
                forall|j: int| 0 <= j < i ==> #[trigger] v@[j] as int == coeffs@[j] as int % self.q as int,
        {
            v.push(Fq::new(coeffs[i], self.q).value);
        }
        Ok(ExtElem { coeffs: v })
    }

    /// The base-field constant `c`, as an element of the tower.
    pub fn constant(&self, c: u64) -> (r: ExtElem)
        requires
            self.wf(),
        ensures
            r@ == self.spec_const(c),
            self.elem(r@),
    {
        let mut v: Vec<u64> = Vec::new();
        v.push(c % self.q);
        for i in 1..self.rule.len()
            invariant
                self.wf(),
                1 <= i <= self.degree(),
                v@.len() == i,
                v@[0] == c % self.q,
                forall|j: int| 1 <= j < i ==> #[trigger] v@[j] == 0,
        {
            v.push(0);
        }
        assert(v@ =~= self.spec_const(c));
        ExtElem { coeffs: v }
    }

    pub fn zero(&self) -> (r: ExtElem)
        requires
            self.wf(),
        ensures
            r@ == self.spec_zero(),
            self.elem(r@),
    {
        let r = self.constant(0);
        assert(r@ =~= self.spec_zero());
        r
    }

    pub fn one(&self) -> (r: ExtElem)
        requires
            self.wf(),
        ensures
            r@ == self.spec_one(),
            self.elem(r@),
    {
        let r = self.constant(1);
        proof {
            lemma_small_mod(1, self.q as nat);
        }
        assert(r@ =~= self.spec_one());
        r
    }

    pub fn is_zero(&self, a: &ExtElem) -> (r: bool)
        requires
            self.wf(),
            self.elem(a@),
        ensures
            r == (a@ == self.spec_zero()),
    {
        for i in 0..a.coeffs.len()
            invariant
                a@.len() == self.degree(),
                forall|j: int| 0 <= j < i ==> a@[j] == 0,
        {
            if a.coeffs[i] != 0 {
                return false;
            }
        }
        assert(a@ =~= self.spec_zero());
        true
    }

    pub fn add(&self, a: &ExtElem, b: &ExtElem) -> (r: ExtElem)
        requires
            self.wf(),
            self.elem(a@),
            self.elem(b@),
        ensures
            r@ == self.spec_add(a@, b@),
            self.elem(r@),
    {
        let mut v: Vec<u64> = Vec::new();
        for i in 0..a.coeffs.len()
            invariant
                self.wf(),
                self.elem(a@),
                self.elem(b@),
                v@.len() == i,
                forall|j: int| 0 <= j < i ==> #[trigger] v@[j] == self.spec_add(a@, b@)[j],
        {
            let x = Fq { value: a.coeffs[i], q: self.q };
            let y = Fq { value: b.coeffs[i], q: self.q };
            v.push(x.add(&y).value);
        }
        assert(v@ =~= self.spec_add(a@, b@));
        ExtElem { coeffs: v }
    }

    pub fn sub(&self, a: &ExtElem, b: &ExtElem) -> (r: ExtElem)
        requires
            self.wf(),
            self.elem(a@),
            self.elem(b@),
        ensures
            r@ == self.spec_sub(a@, b@),
            self.elem(r@),
    {
        let mut v: Vec<u64> = Vec::new();
        for i in 0..a.coeffs.len()
            invariant
                self.wf(),
                self.elem(a@),
                self.elem(b@),
                v@.len() == i,
                forall|j: int| 0 <= j < i ==> #[trigger] v@[j] == self.spec_sub(a@, b@)[j],
        {
            let x = Fq { value: a.coeffs[i], q: self.q };
            let y = Fq { value: b.coeffs[i], q: self.q };
            v.push(x.sub(&y).value);
        }
        assert(v@ =~= self.spec_sub(a@, b@));
        ExtElem { coeffs: v }
    }

    pub fn neg(&self, a: &ExtElem) -> (r: ExtElem)
        requires
            self.wf(),
            self.elem(a@),
        ensures
            r@ == self.spec_neg(a@),
            self.elem(r@),
    {
        let mut v: Vec<u64> = Vec::new();
        for i in 0..a.coeffs.len()
            invariant
                self.wf(),
                self.elem(a@),
                v@.len() == i,
                forall|j: int| 0 <= j < i ==> #[trigger] v@[j] == self.spec_neg(a@)[j],
        {
            let x = Fq { value: a.coeffs[i], q: self.q };
            v.push(x.neg().value);
        }
        assert(v@ =~= self.spec_neg(a@));
        ExtElem { coeffs: v }
    }
}

impl Tower {
    /// The coefficients of the unreduced product `a * b`, each modulo `q`.
    fn product_coeffs(&self, a: &ExtElem, b: &ExtElem) -> (r: Vec<u64>)
        requires
            self.wf(),
            self.elem(a@),
            self.elem(b@),
        ensures
            r@ == poly_mul(a@, b@, self.q as int),
    {
        let d = a.coeffs.len();
        let n = 2 * d - 1;
        let q = self.q;
        let mut p: Vec<u64> = Vec::new();
        for k in 0..n
            invariant
                self.wf(),
                self.elem(a@),
                self.elem(b@),
                d == self.degree(),
                n == 2 * d - 1,
                q == self.q,
                p@.len() == k,
                forall|j: int| 0 <= j < k ==> #[trigger] p@[j] == poly_mul(a@, b@, q as int)[j],
        {
            let mut acc: u64 = 0;
            proof {
                lemma_small_mod(0, q as nat);
            }
            for i in 0..d
                invariant
                    self.wf(),
                    self.elem(a@),
                    self.elem(b@),
                    d == self.degree(),
                    q == self.q,
                    k < n,
                    n == 2 * d - 1,
                    acc < q,
                    acc as int == conv(a@, b@, k as int, i as nat) % q as int,
            {
                proof {
                    lemma_add_mod_noop(conv(a@, b@, k as int, i as nat), conv_term(a@, b@, k as int, i as int), q as int);
                    lemma_small_mod(acc as nat, q as nat);
                }
                if i <= k && k - i < d {
                    proof {
                        lemma_word_product(a@[i as int], b@[k - i]);
                    }
                    let t: u128 = (a.coeffs[i] as u128 * b.coeffs[k - i] as u128) % (q as u128);
                    acc = ((acc as u128 + t) % (q as u128)) as u64;
                } else {
                    proof {
                        lemma_small_mod(0, q as nat);
                    }
                }
            }
            p.push(acc);
        }
        assert(p@ =~= poly_mul(a@, b@, q as int));
        p
    }

    /// Product in the tower: full polynomial product, then every term of degree `d` or more is
    /// rewritten through the reduction rule.
    pub fn mul(&self, a: &ExtElem, b: &ExtElem) -> (r: ExtElem)
        requires
            self.wf(),
            self.elem(a@),
            self.elem(b@),
        ensures
            r@ == self.spec_mul(a@, b@),
            self.elem(r@),
    {
        let d = a.coeffs.len();
        let q = self.q;
        let mut p = self.product_coeffs(a, b);
        let ghost full = p@;
        let n = p.len();
        let mut top: usize = n;
        proof {
            assert(p@.subrange(0, top as int) =~= full);
        }
        while top > d
            invariant
                self.wf(),
                d == self.degree(),
                q == self.q,
                p@.len() == n,
                n == 2 * d - 1,
                d <= top <= n,
                canonical(p@, q as int),
                reduce(p@.subrange(0, top as int), self.rule@, q as int) == reduce(full, self.rule@, q as int),
            decreases top,
        {
            let k = top - 1;
            let c = p[k];
            let base = k - d;
            let ghost before = p@;
            for i in 0..d
                invariant
                    self.wf(),
                    d == self.degree(),
                    q == self.q,
                    p@.len() == n,
                    k < n,
                    base == k - d,
                    c == before[k as int],
                    c < q,
                    canonical(p@, q as int),
                    before.len() == n,
                    forall|j: int| 0 <= j < base + i ==> #[trigger] p@[j] == fold_top(before.subrange(0, top as int), self.rule@, q as int)[j],
                    forall|j: int| base + i <= j < n ==> #[trigger] p@[j] == before[j],
                    top == k + 1,
            {
                proof {
                    lemma_word_product(c, self.rule@[i as int]);
                    lemma_add_mod_noop(before[base + i] as int, c * self.rule@[i as int], q as int);
                    lemma_small_mod(p@[base + i] as nat, q as nat);
                    vstd::arithmetic::div_mod::lemma_mod_twice(c * self.rule@[i as int], q as int);
                }
                let t: u128 = (c as u128 * self.rule[i] as u128) % (q as u128);
                let v: u64 = ((p[base + i] as u128 + t) % (q as u128)) as u64;
                p.set(base + i, v);
            }
            proof {
                let old_prefix = before.subrange(0, top as int);
                assert(p@.subrange(0, k as int) =~= fold_top(old_prefix, self.rule@, q as int));
            }
            top = k;
        }
        p.truncate(d);
        proof {
            assert(p@ =~= full.subrange(0, 0).add(p@));
            lemma_product_canonical(*self, a@, b@);
        }
        ExtElem { coeffs: p }
    }
}

impl Tower {
    /// Binary square-and-multiply exponentiation in the tower.
    pub fn pow(&self, a: &ExtElem, e: u64) -> (r: ExtElem)
        requires
            self.wf(),
            self.elem(a@),
        ensures
            r@ == self.spec_pow(a@, e as nat),
            self.elem(r@),
        decreases e,
    {
        if e == 0 {
            self.one()
        } else {
            let h = self.pow(a, e / 2);
            let s = self.mul(&h, &h);
            if e % 2 == 1 {
                self.mul(&s, a)
            } else {
                s
            }
        }
    }

    /// Inverse in a quadratic tower: the conjugate divided by the norm.
    fn inverse_quadratic(&self, a: &ExtElem) -> (r: Result<ExtElem, FieldError>)
        requires
            self.wf(),
            self.degree() == 2,
            self.elem(a@),
        ensures
            r is Ok <==> self.spec_inverse_quadratic(a@) is Some,
            r is Ok ==> r->Ok_0@ == self.spec_inverse_quadratic(a@)->Some_0,
            r is Err ==> r->Err_0 == FieldError::NonInvertible,
            is_prime(self.q as int) ==> (r is Ok <==> self.spec_norm(a@) != 0),
    {
        let q = self.q;
        let c0 = Fq { value: self.rule[0], q };
        let c1 = Fq { value: self.rule[1], q };
        let a0 = Fq { value: a.coeffs[0], q };
        let a1 = Fq { value: a.coeffs[1], q };
        let n = a0.mul(&a0).add(&a0.mul(&a1).mul(&c1)).sub(&a1.mul(&a1).mul(&c0));
        proof {
            lemma_norm_value(*self, a@, n.value as int);
        }
        let ni = match n.inv() {
            Ok(i) => i,
            Err(e) => {
                return Err(e);
            },
        };
        let r0 = a0.add(&a1.mul(&c1)).mul(&ni);
        let r1 = a1.neg().mul(&ni);
        let mut v: Vec<u64> = Vec::new();
        v.push(r0.value);
        v.push(r1.value);
        proof {
            let qi = q as int;
            let i = choose|y: int| is_inverse(n.value as int, y, qi);
            lemma_inverse_unique(n.value as int, i, ni.value as int, qi);
            let (x0, x1, k1) = (a@[0] as int, a@[1] as int, self.rule@[1] as int);
            let ii = ni.value as int;
            lemma_small_mod(0, q as nat);
            // r0 = (a0 + a1 c1) i and r1 = -a1 i, modulo q
            lemma_cong_mod(x1 * k1, qi);
            lemma_cong_add(x0, x0, (x1 * k1) % qi, x1 * k1, qi);
            lemma_cong_mod(x0 + (x1 * k1) % qi, qi);
            lemma_cong_trans((x0 + (x1 * k1) % qi) % qi, x0 + (x1 * k1) % qi, x0 + x1 * k1, qi);
            lemma_cong_mul((x0 + (x1 * k1) % qi) % qi, x0 + x1 * k1, ii, ii, qi);
            lemma_cong_mod(((x0 + (x1 * k1) % qi) % qi) * ii, qi);
            lemma_cong_mod((x0 + x1 * k1) * ii, qi);
            lemma_cong_trans(r0.value as int, ((x0 + (x1 * k1) % qi) % qi) * ii, (x0 + x1 * k1) * ii, qi);
            lemma_cong_trans(r0.value as int, (x0 + x1 * k1) * ii, ((x0 + x1 * k1) * ii) % qi, qi);
            lemma_cong_canonical(r0.value as int, ((x0 + x1 * k1) * ii) % qi, qi);
            lemma_cong_mod(-x1, qi);
            lemma_cong_mul((-x1) % qi, -x1, ii, ii, qi);
            lemma_cong_mod(((-x1) % qi) * ii, qi);
            lemma_cong_mod(-x1 * ii, qi);
            lemma_cong_trans(r1.value as int, ((-x1) % qi) * ii, -x1 * ii, qi);
            lemma_cong_trans(r1.value as int, -x1 * ii, (-x1 * ii) % qi, qi);
            lemma_cong_canonical(r1.value as int, (-x1 * ii) % qi, qi);
            assert(v@ =~= self.spec_inverse_quadratic(a@)->Some_0);
        }
        Ok(ExtElem { coeffs: v })
    }

    /// Multiplicative inverse. In degree 2 it is the conjugate divided by the norm, and it exists
    /// exactly when the norm is invertible modulo `q`. In other degrees the candidate
    /// `a^(q^d - 2)` is multiplied back and kept only when the product is one. Either way a
    /// returned value is an inverse.
    pub fn inverse(&self, a: &ExtElem) -> (r: Result<ExtElem, FieldError>)
        requires
            self.wf(),
            self.elem(a@),
        ensures
            r is Ok <==> (a@ != self.spec_zero() && self.spec_inverse(a@) is Some),
            r is Ok ==> r->Ok_0@ == self.spec_inverse(a@)->Some_0 && self.elem(r->Ok_0@)
                && self.spec_mul(a@, r->Ok_0@) == self.spec_one(),
            r is Err ==> r->Err_0 == FieldError::NonInvertible,
            self.degree() == 2 ==> (r is Ok <==> (a@ != self.spec_zero() && has_inverse(
                self.spec_norm(a@),
                self.q as int,
            ))),
            self.degree() == 2 && is_prime(self.q as int) ==> (r is Ok <==> (a@ != self.spec_zero()
                && self.spec_norm(a@) != 0)),
    {
        if self.is_zero(a) {
            return Err(FieldError::NonInvertible);
        }
        if self.rule.len() == 2 {
            let r = self.inverse_quadratic(a);
            proof {
                if r is Ok {
                    lemma_quadratic_inverse(*self, a@);
                }
            }
            return r;
        }
        let c = self.pow(a, self.order - 2);
        let check = self.mul(a, &c);
        let one = self.one();
        if check.equals(&one) {
            Ok(c)
        } else {
            Err(FieldError::NonInvertible)
        }
    }

    /// `a / b`, failing when `b` has no inverse.
    pub fn div(&self, a: &ExtElem, b: &ExtElem) -> (r: Result<ExtElem, FieldError>)
        requires
            self.wf(),
            self.elem(a@),
            self.elem(b@),
        ensures
            r is Ok <==> (b@ != self.spec_zero() && self.spec_inverse(b@) is Some),
            r is Ok ==> r->Ok_0@ == self.spec_mul(a@, self.spec_inverse(b@)->Some_0) && self.elem(
                r->Ok_0@,
            ),
            r is Err ==> r->Err_0 == FieldError::NonInvertible,
    {
        let inv = self.inverse(b)?;
        Ok(self.mul(a, &inv))
    }
}

impl Tower {
    /// `a` is an element of this tower: `d` coefficients, each below `q`.
    pub fn contains(&self, a: &ExtElem) -> (r: bool)
        requires
            self.wf(),
        ensures
            r == self.elem(a@),
    {
        if a.coeffs.len() != self.rule.len() {
            return false;
        }
        for i in 0..a.coeffs.len()
            invariant
                a@.len() == self.degree(),
                forall|j: int| 0 <= j < i ==> (#[trigger] a@[j] as int) < self.q as int,
        {
            if a.coeffs[i] >= self.q {
                return false;
            }
        }
        true
    }

    /// The coefficientwise Frobenius map with twist factor `gamma`: coefficient `i` becomes
    /// `a[i]^q * gamma^i`, which is `a^q` when `gamma = t^(q-1)` for a binomial rule `t^d = c`.
    pub open spec fn spec_frobenius(&self, a: Seq<u64>, gamma: u64) -> Seq<u64> {
        Seq::new(
            a.len(),
            |i: int|
                ((pow(a[i] as int, self.q as nat) * pow(gamma as int, i as nat)) % (self.q as int)) as u64,
        )
    }

    /// Raises every coefficient to the power `q`, then scales coefficient `i` by `gamma^i`.
    pub fn frobenius(&self, a: &ExtElem, gamma: u64) -> (r: ExtElem)
        requires
            self.wf(),
            self.elem(a@),
            gamma < self.q,
        ensures
            r@ == self.spec_frobenius(a@, gamma),
            self.elem(r@),
    {
        let g = Fq { value: gamma, q: self.q };
        let mut v: Vec<u64> = Vec::new();
        for i in 0..a.coeffs.len()
            invariant
                self.wf(),
                self.elem(a@),
                g.wf(),
                g.q == self.q,
                g.value == gamma,
                v@.len() == i,
                forall|j: int| 0 <= j < i ==> #[trigger] v@[j] == self.spec_frobenius(a@, gamma)[j],
        {
            let c = Fq { value: a.coeffs[i], q: self.q };
            let cq = c.pow(self.q);
            let gi = g.pow(i as u64);
            let x = cq.mul(&gi);
            proof {
                lemma_mul_mod_noop(pow(a@[i as int] as int, self.q as nat), pow(gamma as int, i as nat), self.q as int);
            }
            v.push(x.value);
        }
        assert(v@ =~= self.spec_frobenius(a@, gamma));
        ExtElem { coeffs: v }
    }
}

/// Addition in a tower is associative: (a + b) + c == a + (b + c).
pub proof fn lemma_tower_add_associative(t: Tower, a: Seq<u64>, b: Seq<u64>, c: Seq<u64>)
    requires
        t.wf(),
        t.elem(a),
        t.elem(b),
        t.elem(c),
    ensures
        t.spec_add(t.spec_add(a, b), c) == t.spec_add(a, t.spec_add(b, c)),
{
    let l = t.spec_add(t.spec_add(a, b), c);
    let r = t.spec_add(a, t.spec_add(b, c));
    assert forall|i: int| 0 <= i < a.len() implies #[trigger] l[i] == r[i] by {
        let x = Fq { value: a[i], q: t.q };
        let y = Fq { value: b[i], q: t.q };
        let z = Fq { value: c[i], q: t.q };
        crate::prime_field::lemma_add_associative(x, y, z);
    }
    assert(l =~= r);
}

/// Every tower element plus its negation is zero: a + (-a) == 0.
pub proof fn lemma_tower_add_negation(t: Tower, a: Seq<u64>)
    requires
        t.wf(),
        t.elem(a),
    ensures
        t.spec_add(a, t.spec_neg(a)) == t.spec_zero(),
{
    let l = t.spec_add(a, t.spec_neg(a));
    assert forall|i: int| 0 <= i < a.len() implies #[trigger] l[i] == 0 by {
        crate::prime_field::lemma_add_negation(Fq { value: a[i], q: t.q });
    }
    assert(l =~= t.spec_zero());
}

/// `x` and `y` are congruent modulo `q`.
pub open spec fn cong(x: int, y: int, q: int) -> bool {
    (x - y) % q == 0
}

/// A congruence gives its multiple of `q`.
pub proof fn lemma_cong_witness(x: int, y: int, q: int) -> (k: int)
    requires
        q > 0,
        cong(x, y, q),
    ensures
        x - y == q * k,
{
    lemma_fundamental_div_mod(x - y, q);
    (x - y) / q
}

/// A difference that is a multiple of `q` is a congruence.
pub proof fn lemma_cong_from(x: int, y: int, q: int, k: int)
    requires
        q > 0,
        x - y == q * k,
    ensures
        cong(x, y, q),
{
    vstd::arithmetic::div_mod::lemma_mod_multiples_basic(k, q);
    vstd::arithmetic::mul::lemma_mul_is_commutative(k, q);
}

/// Every integer is congruent to its remainder, and to itself.
pub proof fn lemma_cong_mod(x: int, q: int)
    requires
        q > 0,
    ensures
        cong(x % q, x, q),
        cong(x, x % q, q),
        cong(x, x, q),
{
    lemma_fundamental_div_mod(x, q);
    assert(x % q - x == q * (-(x / q))) by (nonlinear_arith)
        requires
            x == q * (x / q) + x % q,
    ;
    assert(x - x % q == q * (x / q)) by (nonlinear_arith)
        requires
            x == q * (x / q) + x % q,
    ;
    lemma_cong_from(x % q, x, q, -(x / q));
    lemma_cong_from(x, x % q, q, x / q);
    lemma_small_mod(0, q as nat);
}

/// Congruence is symmetric.
pub proof fn lemma_cong_sym(x: int, y: int, q: int)
    requires
        q > 0,
        cong(x, y, q),
    ensures
        cong(y, x, q),
{
    let k = lemma_cong_witness(x, y, q);
    assert(y - x == q * (-k)) by (nonlinear_arith)
        requires
            x - y == q * k,
    ;
    lemma_cong_from(y, x, q, -k);
}

/// Congruence is transitive.
pub proof fn lemma_cong_trans(x: int, y: int, z: int, q: int)
    requires
        q > 0,
        cong(x, y, q),
        cong(y, z, q),
    ensures
        cong(x, z, q),
{
    let k1 = lemma_cong_witness(x, y, q);
    let k2 = lemma_cong_witness(y, z, q);
    assert(x - z == q * (k1 + k2)) by (nonlinear_arith)
        requires
            x - y == q * k1,
            y - z == q * k2,
    ;
    lemma_cong_from(x, z, q, k1 + k2);
}

/// Congruences add.
pub proof fn lemma_cong_add(x: int, x2: int, y: int, y2: int, q: int)
    requires
        q > 0,
        cong(x, x2, q),
        cong(y, y2, q),
    ensures
        cong(x + y, x2 + y2, q),
{
    let k1 = lemma_cong_witness(x, x2, q);
    let k2 = lemma_cong_witness(y, y2, q);
    assert(x + y - (x2 + y2) == q * (k1 + k2)) by (nonlinear_arith)
        requires
            x - x2 == q * k1,
            y - y2 == q * k2,
    ;
    lemma_cong_from(x + y, x2 + y2, q, k1 + k2);
}

/// Congruences multiply.
pub proof fn lemma_cong_mul(x: int, x2: int, y: int, y2: int, q: int)
    requires
        q > 0,
        cong(x, x2, q),
        cong(y, y2, q),
    ensures
        cong(x * y, x2 * y2, q),
{
    let k1 = lemma_cong_witness(x, x2, q);
    let k2 = lemma_cong_witness(y, y2, q);
    assert(x * y - x2 * y2 == q * (x * k2 + y2 * k1)) by (nonlinear_arith)
        requires
            x - x2 == q * k1,
            y - y2 == q * k2,
    ;
    lemma_cong_from(x * y, x2 * y2, q, x * k2 + y2 * k1);
}

/// Congruent integers in `[0, q)` are equal.
pub proof fn lemma_cong_canonical(v: int, w: int, q: int)
    requires
        q > 0,
        0 <= v < q,
        0 <= w < q,
        cong(v, w, q),
    ensures
        v == w,
{
    let k = lemma_cong_witness(v, w, q);
    if k > 0 {
        assert(q * k >= q) by (nonlinear_arith)
            requires
                k > 0,
                q > 0,
        ;
    } else if k < 0 {
        assert(q * k <= -q) by (nonlinear_arith)
            requires
                k < 0,
                q > 0,
        ;
    }
}

/// The norm computed step by step in the prime field is the norm of the tower element.
proof fn lemma_norm_value(t: Tower, a: Seq<u64>, n: int)
    requires
        t.wf(),
        t.degree() == 2,
        t.elem(a),
        n == (((((a[0] * a[0]) % (t.q as int)) + ((((a[0] * a[1]) % (t.q as int)) * t.rule@[1])
            % (t.q as int))) % (t.q as int)) - (((a[1] * a[1]) % (t.q as int)) * t.rule@[0]) % (
        t.q as int)) % (t.q as int),
    ensures
        n == t.spec_norm(a),
{
    let q = t.q as int;
    let (x0, x1, k0, k1) = (a[0] as int, a[1] as int, t.rule@[0] as int, t.rule@[1] as int);
    lemma_small_mod(0, t.q as nat);
    lemma_cong_mod(x0 * x0, q);
    lemma_cong_mod(x0 * x1, q);
    lemma_cong_mul((x0 * x1) % q, x0 * x1, k1, k1, q);
    lemma_cong_mod(((x0 * x1) % q) * k1, q);
    lemma_cong_trans((((x0 * x1) % q) * k1) % q, ((x0 * x1) % q) * k1, x0 * x1 * k1, q);
    lemma_cong_add((x0 * x0) % q, x0 * x0, (((x0 * x1) % q) * k1) % q, x0 * x1 * k1, q);
    let s = (x0 * x0) % q + (((x0 * x1) % q) * k1) % q;
    lemma_cong_mod(s, q);
    lemma_cong_trans(s % q, s, x0 * x0 + x0 * x1 * k1, q);
    lemma_cong_mod(x1 * x1, q);
    lemma_cong_mul((x1 * x1) % q, x1 * x1, k0, k0, q);
    lemma_cong_mod(((x1 * x1) % q) * k0, q);
    lemma_cong_trans((((x1 * x1) % q) * k0) % q, ((x1 * x1) % q) * k0, x1 * x1 * k0, q);
    let u = (((x1 * x1) % q) * k0) % q;
    let k2 = lemma_cong_witness(s % q, x0 * x0 + x0 * x1 * k1, q);
    let k3 = lemma_cong_witness(u, x1 * x1 * k0, q);
    assert(s % q - u - (x0 * x0 + x0 * x1 * k1 - x1 * x1 * k0) == q * (k2 - k3)) by (nonlinear_arith)
        requires
            s % q - (x0 * x0 + x0 * x1 * k1) == q * k2,
            u - x1 * x1 * k0 == q * k3,
    ;
    lemma_cong_from(s % q - u, x0 * x0 + x0 * x1 * k1 - x1 * x1 * k0, q, k2 - k3);
    lemma_cong_mod(s % q - u, q);
    lemma_cong_mod(x0 * x0 + x0 * x1 * k1 - x1 * x1 * k0, q);
    lemma_cong_trans((s % q - u) % q, s % q - u, x0 * x0 + x0 * x1 * k1 - x1 * x1 * k0, q);
    lemma_cong_trans((s % q - u) % q, x0 * x0 + x0 * x1 * k1 - x1 * x1 * k0, (x0 * x0 + x0 * x1 * k1 - x1 * x1 * k0) % q, q);
    lemma_cong_canonical((s % q - u) % q, (x0 * x0 + x0 * x1 * k1 - x1 * x1 * k0) % q, q);
}

/// In degree 2, the conjugate divided by the norm is an inverse.
pub proof fn lemma_quadratic_inverse(t: Tower, a: Seq<u64>)
    requires
        t.wf(),
        t.degree() == 2,
        t.elem(a),
        t.spec_inverse_quadratic(a) is Some,
    ensures
        t.elem(t.spec_inverse_quadratic(a)->Some_0),
        t.spec_mul(a, t.spec_inverse_quadratic(a)->Some_0) == t.spec_one(),
{
    let q = t.q as int;
    let r = t.spec_inverse_quadratic(a)->Some_0;
    let n = t.spec_norm(a);
    let i = choose|y: int| is_inverse(n, y, q);
    let (x0, x1, k0, k1) = (a[0] as int, a[1] as int, t.rule@[0] as int, t.rule@[1] as int);
    let r0 = r[0] as int;
    let r1 = r[1] as int;
    lemma_small_mod(0, t.q as nat);
    let p = poly_mul(a, r, q);
    assert(conv(a, r, 0, 2) == conv(a, r, 0, 1) + conv_term(a, r, 0, 1));
    assert(conv(a, r, 0, 1) == conv(a, r, 0, 0) + conv_term(a, r, 0, 0));
    assert(conv(a, r, 1, 2) == conv(a, r, 1, 1) + conv_term(a, r, 1, 1));
    assert(conv(a, r, 1, 1) == conv(a, r, 1, 0) + conv_term(a, r, 1, 0));
    assert(conv(a, r, 2, 2) == conv(a, r, 2, 1) + conv_term(a, r, 2, 1));
    assert(conv(a, r, 2, 1) == conv(a, r, 2, 0) + conv_term(a, r, 2, 0));
    let f = fold_top(p, t.rule@, q);
    assert(reduce(f, t.rule@, q) == f);
    let m = t.spec_mul(a, r);
    assert(m == f);
    let s0 = (x0 * r0) % q;
    let s1 = (x0 * r1 + x1 * r0) % q;
    let s2 = (x1 * r1) % q;
    assert(m[0] as int == (s0 + s2 * k0) % q);
    assert(m[1] as int == (s1 + s2 * k1) % q);
    // r0 and r1 stand for (a0 + a1 c1) i and -a1 i
    let e0 = (x0 + x1 * k1) * i;
    let e1 = -x1 * i;
    lemma_cong_mod(e0, q);
    lemma_cong_mod(e1, q);
    lemma_cong_mod(x0 * r0, q);
    lemma_cong_mod(x1 * r1, q);
    lemma_cong_mod(x0 * r1 + x1 * r0, q);
    lemma_cong_mul(x0, x0, r0, e0, q);
    lemma_cong_mul(x1, x1, r1, e1, q);
    lemma_cong_mul(x0, x0, r1, e1, q);
    lemma_cong_mul(x1, x1, r0, e0, q);
    lemma_cong_trans(s0, x0 * r0, x0 * e0, q);
    lemma_cong_trans(s2, x1 * r1, x1 * e1, q);
    lemma_cong_add(x0 * r1, x0 * e1, x1 * r0, x1 * e0, q);
    lemma_cong_trans(s1, x0 * r1 + x1 * r0, x0 * e1 + x1 * e0, q);
    lemma_cong_mul(s2, x1 * e1, k0, k0, q);
    lemma_cong_mul(s2, x1 * e1, k1, k1, q);
    lemma_cong_add(s0, x0 * e0, s2 * k0, x1 * e1 * k0, q);
    lemma_cong_add(s1, x0 * e1 + x1 * e0, s2 * k1, x1 * e1 * k1, q);
    lemma_cong_mod(s0 + s2 * k0, q);
    lemma_cong_mod(s1 + s2 * k1, q);
    lemma_cong_trans(m[0] as int, s0 + s2 * k0, x0 * e0 + x1 * e1 * k0, q);
    lemma_cong_trans(m[1] as int, s1 + s2 * k1, x0 * e1 + x1 * e0 + x1 * e1 * k1, q);
    // the second coefficient cancels; the first is the norm times its inverse
    let nf = x0 * x0 + x0 * x1 * k1 - x1 * x1 * k0;
    assert(x0 * e1 + x1 * e0 + x1 * e1 * k1 == 0) by (nonlinear_arith)
        requires
            e0 == (x0 + x1 * k1) * i,
            e1 == -x1 * i,
    ;
    assert(x0 * e0 == x0 * x0 * i + x0 * x1 * k1 * i) by (nonlinear_arith)
        requires
            e0 == (x0 + x1 * k1) * i,
    ;
    assert(x1 * e1 * k0 == -(x1 * x1 * k0 * i)) by (nonlinear_arith)
        requires
            e1 == -x1 * i,
    ;
    assert(nf * i == x0 * x0 * i + x0 * x1 * k1 * i - x1 * x1 * k0 * i) by (nonlinear_arith)
        requires
            nf == x0 * x0 + x0 * x1 * k1 - x1 * x1 * k0,
    ;
    lemma_cong_mod(nf, q);
    lemma_cong_mul(nf, n, i, i, q);
    lemma_cong_mod(n * i, q);
    lemma_cong_trans(m[0] as int, nf * i, n * i, q);
    lemma_cong_trans(m[0] as int, n * i, (n * i) % q, q);
    lemma_small_mod(1, t.q as nat);
    lemma_small_mod(0, t.q as nat);
    lemma_cong_canonical(m[0] as int, 1, q);
    lemma_cong_canonical(m[1] as int, 0, q);
    assert(m =~= t.spec_one());
}

/// A coefficient of `a * (b + c)` is congruent to the sum of those of `a * b` and `a * c`.
pub proof fn lemma_conv_distributes(t: Tower, a: Seq<u64>, b: Seq<u64>, c: Seq<u64>, k: int, n: nat)
    requires
        t.wf(),
        t.elem(a),
        t.elem(b),
        t.elem(c),
    ensures
        cong(
            conv(a, t.spec_add(b, c), k, n),
            conv(a, b, k, n) + conv(a, c, k, n),
            t.q as int,
        ),
    decreases n,
{
    let q = t.q as int;
    let bc = t.spec_add(b, c);
    lemma_small_mod(0, t.q as nat);
    if n > 0 {
        let i = n - 1;
        lemma_conv_distributes(t, a, b, c, k, (n - 1) as nat);
        let tb = conv_term(a, b, k, i);
        let tc = conv_term(a, c, k, i);
        let tbc = conv_term(a, bc, k, i);
        if 0 <= i < a.len() && 0 <= k - i < b.len() {
            let (x, y, z) = (a[i] as int, b[k - i] as int, c[k - i] as int);
            lemma_cong_mod(y + z, q);
            lemma_cong_mod(x, q);
            lemma_cong_mul(x, x, (y + z) % q, y + z, q);
            vstd::arithmetic::mul::lemma_mul_is_distributive_add(x, y, z);
            assert(cong(tbc, tb + tc, q));
        } else {
            assert(tbc == 0 && tb == 0 && tc == 0);
            assert(cong(tbc, tb + tc, q));
        }
        lemma_cong_add(
            conv(a, bc, k, (n - 1) as nat),
            conv(a, b, k, (n - 1) as nat) + conv(a, c, k, (n - 1) as nat),
            tbc,
            tb + tc,
            q,
        );
    }
}

/// A value congruent to `v + w` reduces to the field sum of `v` and `w`.
pub proof fn lemma_add_canonical_cong(t: Tower, u: int, v: int, w: int)
    requires
        t.wf(),
        cong(u, v + w, t.q as int),
    ensures
        u % (t.q as int) == ((v % (t.q as int)) + (w % (t.q as int))) % (t.q as int),
{
    let q = t.q as int;
    lemma_add_mod_noop(v, w, q);
    lemma_cong_mod(u, q);
    lemma_cong_mod(v + w, q);
    lemma_cong_trans(u % q, u, v + w, q);
    lemma_cong_trans(u % q, v + w, (v + w) % q, q);
    lemma_cong_canonical(u % q, (v + w) % q, q);
}

/// One folding step commutes with coefficientwise addition.
pub proof fn lemma_fold_top_additive(t: Tower, p: Seq<u64>, r: Seq<u64>)
    requires
        t.wf(),
        p.len() == r.len(),
        p.len() > t.degree(),
        canonical(p, t.q as int),
        canonical(r, t.q as int),
    ensures
        fold_top(t.spec_add(p, r), t.rule@, t.q as int) == t.spec_add(
            fold_top(p, t.rule@, t.q as int),
            fold_top(r, t.rule@, t.q as int),
        ),
{
    let q = t.q as int;
    let pr = t.spec_add(p, r);
    let l = fold_top(pr, t.rule@, q);
    let fp = fold_top(p, t.rule@, q);
    let fr = fold_top(r, t.rule@, q);
    let rt = t.spec_add(fp, fr);
    let k = p.len() - 1;
    let base = k - t.degree();
    lemma_small_mod(0, t.q as nat);
    assert forall|j: int| 0 <= j < l.len() implies #[trigger] l[j] == rt[j] by {
        if j >= base {
            let g = t.rule@[j - base] as int;
            let (pj, rj, pk, rk) = (p[j] as int, r[j] as int, p[k] as int, r[k] as int);
            lemma_word_product(pr[k], t.rule@[j - base]);
            lemma_word_product(p[k], t.rule@[j - base]);
            lemma_word_product(r[k], t.rule@[j - base]);
            // (pj + rj) + (pk + rk) g  ==  (pj + pk g) + (rj + rk g), modulo q
            lemma_cong_mod(pj + rj, q);
            lemma_cong_mod(pk + rk, q);
            lemma_cong_mod(g, q);
            lemma_cong_mul((pk + rk) % q, pk + rk, g, g, q);
            lemma_cong_add((pj + rj) % q, pj + rj, ((pk + rk) % q) * g, (pk + rk) * g, q);
            assert((pj + rj) + (pk + rk) * g == (pj + pk * g) + (rj + rk * g)) by (nonlinear_arith);
            lemma_add_canonical_cong(t, pr[j] + pr[k] * g, pj + pk * g, rj + rk * g);
        }
    }
    assert(l =~= rt);
}

/// Reduction commutes with coefficientwise addition.
pub proof fn lemma_reduce_additive(t: Tower, p: Seq<u64>, r: Seq<u64>)
    requires
        t.wf(),
        p.len() == r.len(),
        p.len() >= t.degree(),
        canonical(p, t.q as int),
        canonical(r, t.q as int),
    ensures
        reduce(t.spec_add(p, r), t.rule@, t.q as int) == t.spec_add(
            reduce(p, t.rule@, t.q as int),
            reduce(r, t.rule@, t.q as int),
        ),
    decreases p.len(),
{
    let q = t.q as int;
    if p.len() > t.degree() {
        lemma_fold_top_additive(t, p, r);
        let fp = fold_top(p, t.rule@, q);
        let fr = fold_top(r, t.rule@, q);
        assert(canonical(fp, q) && canonical(fr, q)) by {
            let base = p.len() - 1 - t.degree();
            assert forall|j: int| 0 <= j < fp.len() implies (#[trigger] fp[j] as int) < q by {
                if j >= base {
                    lemma_word_product(p[p.len() - 1], t.rule@[j - base]);
                }
            }
            assert forall|j: int| 0 <= j < fr.len() implies (#[trigger] fr[j] as int) < q by {
                if j >= base {
                    lemma_word_product(r[r.len() - 1], t.rule@[j - base]);
                }
            }
        }
        lemma_reduce_additive(t, fp, fr);
    }
}

/// Multiplication in a tower distributes over addition: a * (b + c) == a * b + a * c.
pub proof fn lemma_tower_mul_distributes(t: Tower, a: Seq<u64>, b: Seq<u64>, c: Seq<u64>)
    requires
        t.wf(),
        t.elem(a),
        t.elem(b),
        t.elem(c),
    ensures
        t.spec_mul(a, t.spec_add(b, c)) == t.spec_add(t.spec_mul(a, b), t.spec_mul(a, c)),
{
    let q = t.q as int;
    let bc = t.spec_add(b, c);
    let d = t.degree();
    let pbc = poly_mul(a, bc, q);
    let pb = poly_mul(a, b, q);
    let pc = poly_mul(a, c, q);
    assert forall|k: int| 0 <= k < pbc.len() implies #[trigger] pbc[k] == t.spec_add(pb, pc)[k] by {
        lemma_conv_distributes(t, a, b, c, k, d);
        lemma_add_canonical_cong(t, conv(a, bc, k, d), conv(a, b, k, d), conv(a, c, k, d));
    }
    assert(pbc =~= t.spec_add(pb, pc));
    lemma_reduce_additive(t, pb, pc);
}

/// Powers of tower elements are tower elements.
pub proof fn lemma_pow_elem(f: Tower, a: Seq<u64>, e: nat)
    requires
        f.wf(),
        f.elem(a),
    ensures
        f.elem(f.spec_pow(a, e)),
    decreases e,
{
    if e > 0 {
        let h = f.spec_pow(a, e / 2);
        lemma_pow_elem(f, a, e / 2);
        lemma_product_canonical(f, h, h);
        lemma_product_canonical(f, f.spec_mul(h, h), a);
    }
}

/// `s t^k` as a tower element of degree `d`.
pub open spec fn monomial(d: nat, k: int, s: u64) -> Seq<u64> {
    Seq::new(
        d,
        |i: int|
            if i == k {
                s
            } else {
                0u64
            },
    )
}

impl Tower {
    /// The reduction rule is `t^d = c` for a constant `c`.
    pub open spec fn is_binomial(&self) -> bool {
        forall|i: int| 1 <= i < self.degree() ==> #[trigger] self.rule@[i] == 0
    }
}

/// Multiplying by `s t^k` picks out a single term of each coefficient.
pub proof fn lemma_conv_monomial(x: Seq<u64>, d: nat, k: int, s: u64, j: int, n: nat)
    requires
        x.len() == d,
        0 <= k < d,
        n <= d,
    ensures
        conv(x, monomial(d, k, s), j, n) == (if 0 <= j - k < n {
            x[j - k] * s
        } else {
            0
        }),
        conv(monomial(d, k, s), x, j, n) == (if k < n && 0 <= j - k < d {
            s * x[j - k]
        } else {
            0
        }),
    decreases n,
{
    if n > 0 {
        lemma_conv_monomial(x, d, k, s, j, (n - 1) as nat);
    }
}

/// With a binomial rule, reducing a product folds coefficient `j + d` onto coefficient `j`.
pub proof fn lemma_reduce_binomial(t: Tower, p: Seq<u64>, j: int)
    requires
        t.wf(),
        t.is_binomial(),
        t.degree() <= p.len() <= 2 * t.degree() - 1,
        canonical(p, t.q as int),
        0 <= j < t.degree(),
    ensures
        reduce(p, t.rule@, t.q as int)[j] == (if j + t.degree() < p.len() {
            ((p[j] + p[j + t.degree()] * t.rule@[0]) % (t.q as int)) as u64
        } else {
            p[j]
        }),
    decreases p.len(),
{
    let q = t.q as int;
    let d = t.degree() as int;
    if p.len() > d {
        let f = fold_top(p, t.rule@, q);
        let k = p.len() - 1;
        let base = k - d;
        assert forall|i: int| 0 <= i < f.len() && i != base implies #[trigger] f[i] == p[i] by {
            if i > base {
                assert(t.rule@[i - base] == 0);
                lemma_small_mod(p[i] as nat, t.q as nat);
            }
        }
        assert(canonical(f, q)) by {
            assert forall|i: int| 0 <= i < f.len() implies (#[trigger] f[i] as int) < q by {
                if i == base {
                    lemma_word_product(p[k], t.rule@[0]);
                }
            }
        }
        lemma_reduce_binomial(t, f, j);
    }
}

/// Multiplying by `s t^k` shifts the coefficients up by `k`; those that pass `t^(d-1)` come back
/// multiplied by the rule's constant.
pub proof fn lemma_mul_monomial(t: Tower, x: Seq<u64>, k: int, s: u64, j: int)
    requires
        t.wf(),
        t.is_binomial(),
        t.elem(x),
        0 <= k < t.degree(),
        s < t.q,
        0 <= j < t.degree(),
    ensures
        t.spec_mul(x, monomial(t.degree(), k, s)) == t.spec_mul(monomial(t.degree(), k, s), x),
        t.spec_mul(x, monomial(t.degree(), k, s))[j] == (if j >= k {
            ((x[j - k] * s) % (t.q as int)) as u64
        } else {
            ((((x[j - k + t.degree()] * s) % (t.q as int)) * t.rule@[0]) % (t.q as int)) as u64
        }),
{
    let q = t.q as int;
    let d = t.degree();
    let m = monomial(d, k, s);
    let p = poly_mul(x, m, q);
    let pl = poly_mul(m, x, q);
    assert forall|i: int| 0 <= i < p.len() implies #[trigger] p[i] == pl[i] && p[i] == (if k <= i
        < k + d {
        ((x[i - k] * s) % q) as u64
    } else {
        0u64
    }) by {
        lemma_conv_monomial(x, d, k, s, i, d);
        vstd::arithmetic::mul::lemma_mul_is_commutative(x[i - k] as int, s as int);
        lemma_small_mod(0, t.q as nat);
    }
    assert(p =~= pl);
    assert(canonical(p, q)) by {
        assert forall|i: int| 0 <= i < p.len() implies (#[trigger] p[i] as int) < q by {
            lemma_conv_monomial(x, d, k, s, i, d);
        }
    }
    lemma_reduce_binomial(t, p, j);
    if j >= k && j + d < p.len() {
        lemma_small_mod(p[j] as nat, t.q as nat);
    }
    if j < k {
        lemma_small_mod(0, t.q as nat);
    }
}

impl Tower {
    /// The Frobenius map with twist factor `gamma`, applied `n` times.
    pub open spec fn spec_frobenius_iter(&self, a: Seq<u64>, gamma: u64, n: nat) -> Seq<u64>
        decreases n,
    {
        if n == 0 {
            a
        } else {
            self.spec_frobenius(self.spec_frobenius_iter(a, gamma, (n - 1) as nat), gamma)
        }
    }
}

/// Over a prime modulus, `n` Frobenius steps scale coefficient `i` by `gamma^(i n)`.
proof fn lemma_frobenius_iter_coeffs(t: Tower, a: Seq<u64>, gamma: u64, n: nat)
    requires
        t.wf(),
        is_prime(t.q as int),
        t.elem(a),
        gamma < t.q,
    ensures
        t.elem(t.spec_frobenius_iter(a, gamma, n)),
        forall|i: int|
            0 <= i < a.len() ==> #[trigger] t.spec_frobenius_iter(a, gamma, n)[i] as int == (a[i]
                * pow(pow(gamma as int, i as nat), n)) % (t.q as int),
    decreases n,
{
    let q = t.q as int;
    reveal(pow);
    lemma_small_mod(0, t.q as nat);
    if n == 0 {
        assert forall|i: int| 0 <= i < a.len() implies #[trigger] t.spec_frobenius_iter(a, gamma, n)[i] as int
            == (a[i] * pow(pow(gamma as int, i as nat), n)) % q by {
            lemma_small_mod(a[i] as nat, t.q as nat);
        }
    } else {
        let m = (n - 1) as nat;
        lemma_frobenius_iter_coeffs(t, a, gamma, m);
        let prev = t.spec_frobenius_iter(a, gamma, m);
        let next = t.spec_frobenius_iter(a, gamma, n);
        assert forall|i: int| 0 <= i < a.len() implies #[trigger] next[i] as int == (a[i] * pow(
            pow(gamma as int, i as nat),
            n,
        )) % q by {
            let g = pow(gamma as int, i as nat);
            let pv = prev[i] as int;
            let ai = a[i] as int;
            crate::fermat::lemma_fermat(prev[i] as nat, t.q as nat);
            lemma_small_mod(prev[i] as nat, t.q as nat);
            // next = pv^q g = pv g = a g^(n-1) g, modulo q
            lemma_cong_mod(pow(pv, t.q as nat), q);
            lemma_cong_mul(pow(pv, t.q as nat), pv, g, g, q);
            lemma_cong_mod(pow(pv, t.q as nat) * g, q);
            lemma_cong_trans(next[i] as int, pow(pv, t.q as nat) * g, pv * g, q);
            lemma_cong_mod(ai * pow(g, m), q);
            lemma_cong_mul(pv, ai * pow(g, m), g, g, q);
            lemma_cong_trans(next[i] as int, pv * g, ai * pow(g, m) * g, q);
            assert(pow(g, n) == g * pow(g, m));
            assert(ai * pow(g, m) * g == ai * pow(g, n)) by (nonlinear_arith)
                requires
                    pow(g, n) == g * pow(g, m),
            ;
            lemma_cong_mod(ai * pow(g, n), q);
            lemma_cong_trans(next[i] as int, ai * pow(g, n), (ai * pow(g, n)) % q, q);
            lemma_cong_canonical(next[i] as int, (ai * pow(g, n)) % q, q);
        }
    }
}

/// With a prime modulus and a twist factor whose `d`-th power is one, `d` Frobenius steps give
/// every element back.
pub proof fn lemma_frobenius_order_elem(t: Tower, a: Seq<u64>, gamma: u64)
    requires
        t.wf(),
        is_prime(t.q as int),
        t.elem(a),
        gamma < t.q,
        pow(gamma as int, t.degree()) % (t.q as int) == 1,
    ensures
        t.spec_frobenius_iter(a, gamma, t.degree()) == a,
{
    let q = t.q as int;
    let d = t.degree();
    lemma_frobenius_iter_coeffs(t, a, gamma, d);
    let r = t.spec_frobenius_iter(a, gamma, d);
    assert forall|i: int| 0 <= i < d implies #[trigger] r[i] == a[i] by {
        let ai = a[i] as int;
        let g = pow(gamma as int, i as nat);
        vstd::arithmetic::power::lemma_pow_multiplies(gamma as int, i as nat, d);
        vstd::arithmetic::power::lemma_pow_multiplies(gamma as int, d, i as nat);
        vstd::arithmetic::mul::lemma_mul_is_commutative(i, d as int);
        let gd = pow(gamma as int, d);
        vstd::arithmetic::power::lemma_pow_mod_noop(gd, i as nat, q);
        vstd::arithmetic::power::lemma1_pow(i as nat);
        lemma_small_mod(1, t.q as nat);
        assert(pow(g, d) % q == 1);
        lemma_mul_mod_noop(ai, pow(g, d), q);
        lemma_small_mod(a[i] as nat, t.q as nat);
        lemma_mul_mod_noop(ai, 1, q);
    }
    assert(r =~= a);
}

} // verus!
