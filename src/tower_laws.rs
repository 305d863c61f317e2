//! Bilinearity and associativity of multiplication in towers with a binomial rule `t^d = c`.
use crate::tower::{
    lemma_mul_monomial, monomial, canonical, cong, conv, conv_term, fold_top, lemma_add_canonical_cong, lemma_cong_add,
    lemma_cong_canonical, lemma_cong_mod, lemma_cong_mul, lemma_cong_trans, lemma_product_canonical,
    lemma_reduce_additive, lemma_tower_mul_distributes, poly_mul, reduce, Tower,
};
use crate::prime_field::lemma_word_product;
use vstd::arithmetic::div_mod::lemma_small_mod;
use vstd::prelude::*;

verus! {

impl Tower {
    /// `s a`, coefficientwise modulo `q`.
    pub open spec fn spec_scale(&self, s: u64, a: Seq<u64>) -> Seq<u64> {
        Seq::new(a.len(), |i: int| ((s * a[i]) % (self.q as int)) as u64)
    }
}

proof fn lemma_conv_left_additive(t: Tower, a: Seq<u64>, b: Seq<u64>, c: Seq<u64>, k: int, n: nat)
    requires
        t.wf(),
        t.elem(a),
        t.elem(b),
        t.elem(c),
        n <= t.degree(),
    ensures
        cong(conv(t.spec_add(a, b), c, k, n), conv(a, c, k, n) + conv(b, c, k, n), t.q as int),
    decreases n,
{
    let q = t.q as int;
    let ab = t.spec_add(a, b);
    lemma_small_mod(0, t.q as nat);
    if n > 0 {
        let i = n - 1;
        lemma_conv_left_additive(t, a, b, c, k, (n - 1) as nat);
        let ta = conv_term(a, c, k, i);
        let tb = conv_term(b, c, k, i);
        let tab = conv_term(ab, c, k, i);
        if 0 <= k - i < c.len() {
            let (x, y, z) = (a[i] as int, b[i] as int, c[k - i] as int);
            lemma_cong_mod(x + y, q);
            lemma_cong_mod(z, q);
            lemma_cong_mul((x + y) % q, x + y, z, z, q);
            vstd::arithmetic::mul::lemma_mul_is_distributive_add_other_way(z, x, y);
            assert(cong(tab, ta + tb, q));
        } else {
            assert(cong(tab, ta + tb, q));
        }
        lemma_cong_add(
            conv(ab, c, k, (n - 1) as nat),
            conv(a, c, k, (n - 1) as nat) + conv(b, c, k, (n - 1) as nat),
            tab,
            ta + tb,
            q,
        );
    }
}

/// Multiplication distributes over addition on the left: (a + b) * c == a * c + b * c.
pub proof fn lemma_tower_mul_distributes_left(t: Tower, a: Seq<u64>, b: Seq<u64>, c: Seq<u64>)
    requires
        t.wf(),
        t.elem(a),
        t.elem(b),
        t.elem(c),
    ensures
        t.spec_mul(t.spec_add(a, b), c) == t.spec_add(t.spec_mul(a, c), t.spec_mul(b, c)),
{
    let q = t.q as int;
    let ab = t.spec_add(a, b);
    let d = t.degree();
    let pab = poly_mul(ab, c, q);
    let pa = poly_mul(a, c, q);
    let pb = poly_mul(b, c, q);
    assert forall|k: int| 0 <= k < pab.len() implies #[trigger] pab[k] == t.spec_add(pa, pb)[k] by {
        lemma_conv_left_additive(t, a, b, c, k, d);
        lemma_add_canonical_cong(t, conv(ab, c, k, d), conv(a, c, k, d), conv(b, c, k, d));
    }
    assert(pab =~= t.spec_add(pa, pb));
    lemma_reduce_additive(t, pa, pb);
}

proof fn lemma_conv_scale(t: Tower, s: u64, a: Seq<u64>, b: Seq<u64>, k: int, n: nat)
    requires
        t.wf(),
        t.elem(a),
        t.elem(b),
        s < t.q,
        n <= t.degree(),
    ensures
        cong(conv(t.spec_scale(s, a), b, k, n), s * conv(a, b, k, n), t.q as int),
        cong(conv(a, t.spec_scale(s, b), k, n), s * conv(a, b, k, n), t.q as int),
    decreases n,
{
    let q = t.q as int;
    let sa = t.spec_scale(s, a);
    let sb = t.spec_scale(s, b);
    let si = s as int;
    lemma_small_mod(0, t.q as nat);
    if n > 0 {
        let i = n - 1;
        let m = (n - 1) as nat;
        lemma_conv_scale(t, s, a, b, k, m);
        let tt = conv_term(a, b, k, i);
        let t1 = conv_term(sa, b, k, i);
        let t2 = conv_term(a, sb, k, i);
        if 0 <= k - i < b.len() {
            let (x, y) = (a[i] as int, b[k - i] as int);
            lemma_cong_mod(si * x, q);
            lemma_cong_mod(si * y, q);
            lemma_cong_mod(y, q);
            lemma_cong_mod(x, q);
            lemma_cong_mul((si * x) % q, si * x, y, y, q);
            lemma_cong_mul(x, x, (si * y) % q, si * y, q);
            assert(si * x * y == si * (x * y)) by (nonlinear_arith);
            assert(x * (si * y) == si * (x * y)) by (nonlinear_arith);
        } else {
            assert(si * tt == 0) by (nonlinear_arith)
                requires
                    tt == 0,
            ;
        }
        assert(cong(t1, si * tt, q));
        assert(cong(t2, si * tt, q));
        assert(si * conv(a, b, k, n) == si * conv(a, b, k, m) + si * tt) by (nonlinear_arith)
            requires
                conv(a, b, k, n) == conv(a, b, k, m) + tt,
        ;
        lemma_cong_add(conv(sa, b, k, m), si * conv(a, b, k, m), t1, si * tt, q);
        lemma_cong_add(conv(a, sb, k, m), si * conv(a, b, k, m), t2, si * tt, q);
    }
}

proof fn lemma_scale_cong(t: Tower, s: u64, u: int, v: int)
    requires
        t.wf(),
        cong(u, (s as int) * v, t.q as int),
    ensures
        u % (t.q as int) == ((s as int) * (v % (t.q as int))) % (t.q as int),
{
    let q = t.q as int;
    let si = s as int;
    lemma_cong_mod(u, q);
    lemma_cong_mod(v, q);
    lemma_cong_mul(si, si, v % q, v, q);
    lemma_cong_mod(si * (v % q), q);
    lemma_cong_trans(u % q, u, si * v, q);
    crate::tower::lemma_cong_sym(si * (v % q), si * v, q);
    lemma_cong_trans(u % q, si * v, si * (v % q), q);
    lemma_cong_trans(u % q, si * (v % q), (si * (v % q)) % q, q);
    lemma_cong_canonical(u % q, (si * (v % q)) % q, q);
}

proof fn lemma_reduce_scale(t: Tower, s: u64, p: Seq<u64>)
    requires
        t.wf(),
        s < t.q,
        p.len() >= t.degree(),
        canonical(p, t.q as int),
    ensures
        reduce(t.spec_scale(s, p), t.rule@, t.q as int) == t.spec_scale(s, reduce(p, t.rule@, t.q as int)),
    decreases p.len(),
{
    let q = t.q as int;
    let si = s as int;
    if p.len() > t.degree() {
        let sp = t.spec_scale(s, p);
        let f = fold_top(p, t.rule@, q);
        let k = p.len() - 1;
        let base = k - t.degree();
        assert(fold_top(sp, t.rule@, q) =~= t.spec_scale(s, f)) by {
            assert forall|j: int| 0 <= j < f.len() implies #[trigger] fold_top(sp, t.rule@, q)[j]
                == t.spec_scale(s, f)[j] by {
                if j >= base {
                    let g = t.rule@[j - base] as int;
                    let (pj, pk) = (p[j] as int, p[k] as int);
                    lemma_word_product(sp[k], t.rule@[j - base]);
                    lemma_word_product(p[k], t.rule@[j - base]);
                    lemma_cong_mod(si * pj, q);
                    lemma_cong_mod(si * pk, q);
                    lemma_cong_mod(g, q);
                    lemma_cong_mul((si * pk) % q, si * pk, g, g, q);
                    lemma_cong_add((si * pj) % q, si * pj, ((si * pk) % q) * g, si * pk * g, q);
                    assert(si * pj + si * pk * g == si * (pj + pk * g)) by (nonlinear_arith);
                    lemma_scale_cong(t, s, sp[j] + sp[k] * g, pj + pk * g);
                }
            }
        }
        assert(canonical(f, q)) by {
            assert forall|j: int| 0 <= j < f.len() implies (#[trigger] f[j] as int) < q by {
                if j >= base {
                    lemma_word_product(p[k], t.rule@[j - base]);
                }
            }
        }
        lemma_reduce_scale(t, s, f);
    }
}

/// Scalars move through products: (s a) * b == s (a * b) == a * (s b).
pub proof fn lemma_tower_mul_scale(t: Tower, s: u64, a: Seq<u64>, b: Seq<u64>)
    requires
        t.wf(),
        t.elem(a),
        t.elem(b),
        s < t.q,
    ensures
        t.spec_mul(t.spec_scale(s, a), b) == t.spec_scale(s, t.spec_mul(a, b)),
        t.spec_mul(a, t.spec_scale(s, b)) == t.spec_scale(s, t.spec_mul(a, b)),
{
    let q = t.q as int;
    let d = t.degree();
    let sa = t.spec_scale(s, a);
    let sb = t.spec_scale(s, b);
    let p = poly_mul(a, b, q);
    let p1 = poly_mul(sa, b, q);
    let p2 = poly_mul(a, sb, q);
    assert forall|k: int| 0 <= k < p.len() implies #[trigger] p1[k] == t.spec_scale(s, p)[k] && p2[k]
        == t.spec_scale(s, p)[k] by {
        lemma_conv_scale(t, s, a, b, k, d);
        lemma_scale_cong(t, s, conv(sa, b, k, d), conv(a, b, k, d));
        lemma_scale_cong(t, s, conv(a, sb, k, d), conv(a, b, k, d));
    }
    assert(p1 =~= t.spec_scale(s, p));
    assert(p2 =~= t.spec_scale(s, p));
    lemma_reduce_scale(t, s, p);
}

/// The first `n` coefficients of `a`, the others zero.
pub open spec fn trunc(a: Seq<u64>, n: int) -> Seq<u64> {
    Seq::new(
        a.len(),
        |i: int|
            if i < n {
                a[i]
            } else {
                0u64
            },
    )
}

proof fn lemma_trunc_step(t: Tower, a: Seq<u64>, n: int)
    requires
        t.wf(),
        t.elem(a),
        0 <= n < t.degree(),
    ensures
        trunc(a, n + 1) == t.spec_add(trunc(a, n), t.spec_scale(a[n], monomial(t.degree(), n, 1))),
        t.elem(trunc(a, n)),
        t.elem(t.spec_scale(a[n], monomial(t.degree(), n, 1))),
{
    let q = t.q as int;
    lemma_small_mod(0, t.q as nat);
    lemma_small_mod(a[n] as nat, t.q as nat);
    let r = t.spec_add(trunc(a, n), t.spec_scale(a[n], monomial(t.degree(), n, 1)));
    assert forall|i: int| 0 <= i < a.len() implies #[trigger] r[i] == trunc(a, n + 1)[i] by {
        lemma_small_mod(a[i] as nat, t.q as nat);
        if i != n {
            assert(a[n] * 0 == 0);
        } else {
            assert(a[n] * 1 == a[n]);
        }
    }
    assert(r =~= trunc(a, n + 1));
}

/// Zero absorbs products on either side.
pub proof fn lemma_mul_zero(t: Tower, a: Seq<u64>)
    requires
        t.wf(),
        t.elem(a),
    ensures
        t.spec_mul(a, t.spec_zero()) == t.spec_zero(),
        t.spec_mul(t.spec_zero(), a) == t.spec_zero(),
{
    let z = t.spec_zero();
    lemma_small_mod(0, t.q as nat);
    assert(t.spec_scale(0, z) =~= z);
    lemma_tower_mul_scale(t, 0, a, z);
    lemma_tower_mul_scale(t, 0, z, a);
    lemma_product_canonical(t, a, z);
    lemma_product_canonical(t, z, a);
    assert(t.spec_scale(0, t.spec_mul(a, z)) =~= z);
    assert(t.spec_scale(0, t.spec_mul(z, a)) =~= z);
}

/// `s t^w * t^l` is a monomial again, the power wrapping through `t^d = c`.
proof fn lemma_monomial_times_basis(t: Tower, w: int, s: u64, l: int)
    requires
        t.wf(),
        t.is_binomial(),
        0 <= w < t.degree(),
        0 <= l < t.degree(),
        s < t.q,
    ensures
        t.spec_mul(monomial(t.degree(), w, s), monomial(t.degree(), l, 1)) == t.spec_mul(
            monomial(t.degree(), l, 1),
            monomial(t.degree(), w, s),
        ),
        t.spec_mul(monomial(t.degree(), w, s), monomial(t.degree(), l, 1)) == (if w + l < t.degree() {
            monomial(t.degree(), w + l, s)
        } else {
            monomial(t.degree(), w + l - t.degree(), ((s * t.rule@[0]) % (t.q as int)) as u64)
        }),
{
    let d = t.degree();
    let x = monomial(d, w, s);
    let r = t.spec_mul(x, monomial(d, l, 1));
    lemma_small_mod(0, t.q as nat);
    lemma_small_mod(s as nat, t.q as nat);
    lemma_product_canonical(t, x, monomial(d, l, 1));
    let e = if w + l < d {
        monomial(d, w + l, s)
    } else {
        monomial(d, w + l - d, ((s * t.rule@[0]) % (t.q as int)) as u64)
    };
    assert forall|j: int| 0 <= j < d implies #[trigger] r[j] == e[j] by {
        lemma_mul_monomial(t, x, l, 1, j);
        if j >= l {
            assert(x[j - l] * 1 == x[j - l]);
        } else {
            assert(x[j - l + d] * 1 == x[j - l + d]);
            assert(0 * t.rule@[0] == 0);
        }
    }
    assert(r =~= e);
    lemma_mul_monomial(t, x, l, 1, 0);
}

/// Products of basis monomials associate.
proof fn lemma_basis_associative(t: Tower, n: int, m: int, l: int)
    requires
        t.wf(),
        t.is_binomial(),
        0 <= n < t.degree(),
        0 <= m < t.degree(),
        0 <= l < t.degree(),
    ensures
        t.spec_mul(t.spec_mul(monomial(t.degree(), n, 1), monomial(t.degree(), m, 1)), monomial(
            t.degree(),
            l,
            1,
        )) == t.spec_mul(
            monomial(t.degree(), n, 1),
            t.spec_mul(monomial(t.degree(), m, 1), monomial(t.degree(), l, 1)),
        ),
{
    let d = t.degree() as int;
    let q = t.q as int;
    let r0 = t.rule@[0];
    lemma_small_mod(1, t.q as nat);
    lemma_small_mod(r0 as nat, t.q as nat);
    assert((1 * r0) % q == r0);
    lemma_monomial_times_basis(t, n, 1, m);
    lemma_monomial_times_basis(t, m, 1, l);
    let (w1, s1) = if n + m < d {
        (n + m, 1u64)
    } else {
        (n + m - d, r0)
    };
    let (w2, s2) = if m + l < d {
        (m + l, 1u64)
    } else {
        (m + l - d, r0)
    };
    assert(t.spec_mul(monomial(d as nat, n, 1), monomial(d as nat, m, 1)) == monomial(d as nat, w1, s1));
    assert(t.spec_mul(monomial(d as nat, m, 1), monomial(d as nat, l, 1)) == monomial(d as nat, w2, s2));
    lemma_monomial_times_basis(t, w1, s1, l);
    lemma_monomial_times_basis(t, w2, s2, n);
}

proof fn lemma_assoc_basis_basis(t: Tower, n: int, m: int, c: Seq<u64>, len: int)
    requires
        t.wf(),
        t.is_binomial(),
        0 <= n < t.degree(),
        0 <= m < t.degree(),
        t.elem(c),
        0 <= len <= t.degree(),
    ensures
        ({
            let en = monomial(t.degree(), n, 1);
            let em = monomial(t.degree(), m, 1);
            t.spec_mul(t.spec_mul(en, em), trunc(c, len)) == t.spec_mul(en, t.spec_mul(em, trunc(c, len)))
        }),
    decreases len,
{
    let d = t.degree();
    let en = monomial(d, n, 1);
    let em = monomial(d, m, 1);
    let e = t.spec_mul(en, em);
    lemma_small_mod(1, t.q as nat);
    lemma_product_canonical(t, en, em);
    if len == 0 {
        assert(trunc(c, 0) =~= t.spec_zero());
        lemma_mul_zero(t, e);
        lemma_mul_zero(t, em);
        lemma_mul_zero(t, en);
    } else {
        let k = len - 1;
        lemma_assoc_basis_basis(t, n, m, c, k);
        lemma_trunc_step(t, c, k);
        let tr = trunc(c, k);
        let ek = monomial(d, k, 1);
        let sc = t.spec_scale(c[k], ek);
        lemma_tower_mul_distributes(t, e, tr, sc);
        lemma_tower_mul_scale(t, c[k], e, ek);
        lemma_tower_mul_distributes(t, em, tr, sc);
        lemma_tower_mul_scale(t, c[k], em, ek);
        lemma_product_canonical(t, em, tr);
        lemma_product_canonical(t, em, ek);
        lemma_tower_mul_distributes(t, en, t.spec_mul(em, tr), t.spec_scale(c[k], t.spec_mul(em, ek)));
        lemma_tower_mul_scale(t, c[k], en, t.spec_mul(em, ek));
        lemma_basis_associative(t, n, m, k);
    }
}

proof fn lemma_assoc_basis(t: Tower, n: int, b: Seq<u64>, c: Seq<u64>, len: int)
    requires
        t.wf(),
        t.is_binomial(),
        0 <= n < t.degree(),
        t.elem(b),
        t.elem(c),
        0 <= len <= t.degree(),
    ensures
        ({
            let en = monomial(t.degree(), n, 1);
            t.spec_mul(t.spec_mul(en, trunc(b, len)), c) == t.spec_mul(en, t.spec_mul(trunc(b, len), c))
        }),
    decreases len,
{
    let d = t.degree();
    let en = monomial(d, n, 1);
    lemma_small_mod(1, t.q as nat);
    if len == 0 {
        assert(trunc(b, 0) =~= t.spec_zero());
        lemma_mul_zero(t, en);
        lemma_mul_zero(t, c);
    } else {
        let k = len - 1;
        lemma_assoc_basis(t, n, b, c, k);
        lemma_trunc_step(t, b, k);
        let tr = trunc(b, k);
        let ek = monomial(d, k, 1);
        let sc = t.spec_scale(b[k], ek);
        // left side
        lemma_tower_mul_distributes(t, en, tr, sc);
        lemma_tower_mul_scale(t, b[k], en, ek);
        lemma_product_canonical(t, en, tr);
        lemma_product_canonical(t, en, ek);
        lemma_tower_mul_distributes_left(t, t.spec_mul(en, tr), t.spec_scale(b[k], t.spec_mul(en, ek)), c);
        lemma_tower_mul_scale(t, b[k], t.spec_mul(en, ek), c);
        // right side
        lemma_tower_mul_distributes_left(t, tr, sc, c);
        lemma_tower_mul_scale(t, b[k], ek, c);
        lemma_product_canonical(t, tr, c);
        lemma_product_canonical(t, ek, c);
        lemma_tower_mul_distributes(t, en, t.spec_mul(tr, c), t.spec_scale(b[k], t.spec_mul(ek, c)));
        lemma_tower_mul_scale(t, b[k], en, t.spec_mul(ek, c));
        lemma_assoc_basis_basis(t, n, k, c, d as int);
        assert(trunc(c, d as int) =~= c);
    }
}

proof fn lemma_assoc_trunc(t: Tower, a: Seq<u64>, b: Seq<u64>, c: Seq<u64>, len: int)
    requires
        t.wf(),
        t.is_binomial(),
        t.elem(a),
        t.elem(b),
        t.elem(c),
        0 <= len <= t.degree(),
    ensures
        t.spec_mul(t.spec_mul(trunc(a, len), b), c) == t.spec_mul(trunc(a, len), t.spec_mul(b, c)),
    decreases len,
{
    let d = t.degree();
    lemma_small_mod(1, t.q as nat);
    lemma_product_canonical(t, b, c);
    if len == 0 {
        assert(trunc(a, 0) =~= t.spec_zero());
        lemma_mul_zero(t, b);
        lemma_mul_zero(t, c);
        lemma_mul_zero(t, t.spec_mul(b, c));
    } else {
        let k = len - 1;
        lemma_assoc_trunc(t, a, b, c, k);
        lemma_trunc_step(t, a, k);
        let tr = trunc(a, k);
        let ek = monomial(d, k, 1);
        let sc = t.spec_scale(a[k], ek);
        // left side
        lemma_tower_mul_distributes_left(t, tr, sc, b);
        lemma_tower_mul_scale(t, a[k], ek, b);
        lemma_product_canonical(t, tr, b);
        lemma_product_canonical(t, ek, b);
        lemma_tower_mul_distributes_left(t, t.spec_mul(tr, b), t.spec_scale(a[k], t.spec_mul(ek, b)), c);
        lemma_tower_mul_scale(t, a[k], t.spec_mul(ek, b), c);
        // right side
        lemma_tower_mul_distributes_left(t, tr, sc, t.spec_mul(b, c));
        lemma_tower_mul_scale(t, a[k], ek, t.spec_mul(b, c));
        lemma_assoc_basis(t, k, b, c, d as int);
        assert(trunc(b, d as int) =~= b);
    }
}

/// Multiplication in a tower with a binomial rule `t^d = c` is associative:
/// (a * b) * c == a * (b * c).
pub proof fn lemma_tower_mul_associative(t: Tower, a: Seq<u64>, b: Seq<u64>, c: Seq<u64>)
    requires
        t.wf(),
        t.is_binomial(),
        t.elem(a),
        t.elem(b),
        t.elem(c),
    ensures
        t.spec_mul(t.spec_mul(a, b), c) == t.spec_mul(a, t.spec_mul(b, c)),
{
    lemma_assoc_trunc(t, a, b, c, t.degree() as int);
    assert(trunc(a, t.degree() as int) =~= a);
}

/// One is neutral on the right: a * 1 == a.
pub proof fn lemma_mul_one(t: Tower, a: Seq<u64>)
    requires
        t.wf(),
        t.is_binomial(),
        t.elem(a),
    ensures
        t.spec_mul(a, t.spec_one()) == a,
{
    let d = t.degree();
    assert(t.spec_one() =~= monomial(d, 0, 1));
    lemma_product_canonical(t, a, t.spec_one());
    assert forall|j: int| 0 <= j < d implies #[trigger] t.spec_mul(a, t.spec_one())[j] == a[j] by {
        lemma_mul_monomial(t, a, 0, 1, j);
        lemma_small_mod(a[j] as nat, t.q as nat);
        assert(a[j] * 1 == a[j]);
    }
    assert(t.spec_mul(a, t.spec_one()) =~= a);
}

/// An inverse that the tower finds is an element, and a right inverse.
pub proof fn lemma_inverse_is_inverse(t: Tower, w: Seq<u64>)
    requires
        t.wf(),
        t.elem(w),
        t.spec_inverse(w) is Some,
    ensures
        t.elem(t.spec_inverse(w)->Some_0),
        t.spec_mul(w, t.spec_inverse(w)->Some_0) == t.spec_one(),
        w != t.spec_zero(),
{
    if t.degree() == 2 {
        crate::tower::lemma_quadratic_inverse(t, w);
    } else {
        crate::tower::lemma_pow_elem(t, w, (t.order - 2) as nat);
    }
    let inv = t.spec_inverse(w)->Some_0;
    lemma_mul_zero(t, inv);
    assert(t.spec_one()[0] != t.spec_zero()[0]);
}

/// Multiplying by `w` and then by the inverse of `w` gives the element back.
pub proof fn lemma_mul_then_inverse(t: Tower, v: Seq<u64>, w: Seq<u64>)
    requires
        t.wf(),
        t.is_binomial(),
        t.elem(v),
        t.elem(w),
        t.spec_inverse(w) is Some,
    ensures
        t.spec_mul(t.spec_mul(v, w), t.spec_inverse(w)->Some_0) == v,
        w != t.spec_zero(),
{
    lemma_inverse_is_inverse(t, w);
    lemma_tower_mul_associative(t, v, w, t.spec_inverse(w)->Some_0);
    lemma_mul_one(t, v);
}

proof fn lemma_commute_trunc(t: Tower, a: Seq<u64>, b: Seq<u64>, len: int)
    requires
        t.wf(),
        t.is_binomial(),
        t.elem(a),
        t.elem(b),
        0 <= len <= t.degree(),
    ensures
        t.spec_mul(trunc(a, len), b) == t.spec_mul(b, trunc(a, len)),
    decreases len,
{
    let d = t.degree();
    lemma_small_mod(1, t.q as nat);
    if len == 0 {
        assert(trunc(a, 0) =~= t.spec_zero());
        lemma_mul_zero(t, b);
    } else {
        let k = len - 1;
        lemma_commute_trunc(t, a, b, k);
        lemma_trunc_step(t, a, k);
        let tr = trunc(a, k);
        let ek = monomial(d, k, 1);
        let sc = t.spec_scale(a[k], ek);
        lemma_tower_mul_distributes_left(t, tr, sc, b);
        lemma_tower_mul_distributes(t, b, tr, sc);
        lemma_tower_mul_scale(t, a[k], ek, b);
        lemma_tower_mul_scale(t, a[k], b, ek);
        lemma_mul_monomial(t, b, k, 1, 0);
    }
}

/// Multiplication in a tower with a binomial rule `t^d = c` is commutative: a * b == b * a.
pub proof fn lemma_tower_mul_commutative(t: Tower, a: Seq<u64>, b: Seq<u64>)
    requires
        t.wf(),
        t.is_binomial(),
        t.elem(a),
        t.elem(b),
    ensures
        t.spec_mul(a, b) == t.spec_mul(b, a),
{
    lemma_commute_trunc(t, a, b, t.degree() as int);
    assert(trunc(a, t.degree() as int) =~= a);
}

} // verus!
