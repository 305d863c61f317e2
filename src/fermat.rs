//! Fermat's little theorem, by the binomial theorem and the divisibility of `C(p, k)` by `p`.
use crate::prime_field::{gcd, has_inverse, is_inverse, is_prime, lemma_gcd_divides};
use vstd::arithmetic::div_mod::{
    lemma_add_mod_noop, lemma_fundamental_div_mod, lemma_mod_multiples_basic, lemma_mul_mod_noop,
    lemma_small_mod,
};
use vstd::arithmetic::power::pow;
use vstd::prelude::*;

verus! {

/// Bezout coefficients: `a x + b y = gcd(a, b)`.
proof fn lemma_bezout(a: nat, b: nat) -> (r: (int, int))
    ensures
        a * r.0 + b * r.1 == gcd(a, b),
    decreases b,
{
    if b == 0 {
        (1, 0)
    } else {
        let (x, y) = lemma_bezout(b, a % b);
        lemma_fundamental_div_mod(a as int, b as int);
        let qt = a as int / b as int;
        assert(a * y + b * (x - qt * y) == b * x + (a % b) * y) by (nonlinear_arith)
            requires
                a as int == b * qt + (a % b) as int,
        ;
        (y, x - qt * y)
    }
}

/// Every element of a prime field but zero has an inverse.
pub proof fn lemma_prime_has_inverse(k: int, p: int)
    requires
        is_prime(p),
        0 < k < p,
    ensures
        has_inverse(k, p),
{
    lemma_gcd_divides(p as nat, k as nat);
    let g = gcd(p as nat, k as nat) as int;
    // a divisor of the prime p that also divides 0 < k < p is 1
    if g != 1 {
        if g > p {
            lemma_small_mod(p as nat, g as nat);
        }
        if g > k {
            lemma_small_mod(k as nat, g as nat);
        }
        if 2 <= g < p {
            assert(p % g != 0);
        }
    }
    let (x, y) = lemma_bezout(p as nat, k as nat);
    // k y = 1 - p x
    let w = y % p;
    lemma_mul_mod_noop(k, y, p);
    lemma_small_mod(k as nat, p as nat);
    assert(k * y == p * (-x) + 1) by (nonlinear_arith)
        requires
            p * x + k * y == 1,
    ;
    vstd::arithmetic::div_mod::lemma_mod_multiples_vanish(-x, 1, p);
    lemma_small_mod(1, p as nat);
    assert(is_inverse(k, w, p));
}

/// If a prime divides `k m` but not `k`, it divides `m`.
pub proof fn lemma_euclid(k: int, m: int, p: int)
    requires
        is_prime(p),
        0 < k < p,
        (k * m) % p == 0,
    ensures
        m % p == 0,
{
    lemma_prime_has_inverse(k, p);
    let y = choose|y: int| is_inverse(k, y, p);
    // m = m (k y) = (k m) y = 0, modulo p
    lemma_mul_mod_noop(m, k * y, p);
    lemma_mul_mod_noop(k * m, y, p);
    assert(m * (k * y) == (k * m) * y) by (nonlinear_arith);
    lemma_small_mod(0, p as nat);
    assert((m % p) * 1 == m % p);
    vstd::arithmetic::div_mod::lemma_mod_twice(m, p);
}

/// Binomial coefficients, by Pascal's rule.
pub open spec fn binom(n: nat, k: nat) -> nat
    decreases n,
{
    if k == 0 {
        1
    } else if n == 0 {
        0
    } else {
        binom((n - 1) as nat, (k - 1) as nat) + binom((n - 1) as nat, k)
    }
}

proof fn lemma_binom_above(n: nat, k: nat)
    requires
        k > n,
    ensures
        binom(n, k) == 0,
    decreases n,
{
    if n > 0 {
        lemma_binom_above((n - 1) as nat, (k - 1) as nat);
        lemma_binom_above((n - 1) as nat, k);
    }
}

proof fn lemma_binom_diagonal(n: nat)
    ensures
        binom(n, n) == 1,
    decreases n,
{
    if n > 0 {
        lemma_binom_diagonal((n - 1) as nat);
        lemma_binom_above((n - 1) as nat, n);
    }
}

proof fn lemma_binom_one(n: nat)
    ensures
        binom(n, 1) == n,
    decreases n,
{
    if n > 0 {
        lemma_binom_one((n - 1) as nat);
        assert(binom(n, 1) == binom((n - 1) as nat, 0) + binom((n - 1) as nat, 1));
    }
}

/// `k C(n, k) = n C(n - 1, k - 1)`.
proof fn lemma_binom_absorb(n: nat, k: nat)
    requires
        n >= 1,
        k >= 1,
    ensures
        k * binom(n, k) == n * binom((n - 1) as nat, (k - 1) as nat),
    decreases n,
{
    if n == 1 {
        if k > 1 {
            lemma_binom_above(1, k);
            lemma_binom_above(0, (k - 1) as nat);
            assert(k * binom(n, k) == 0 && n * binom((n - 1) as nat, (k - 1) as nat) == 0) by (nonlinear_arith)
                requires
                    binom(n, k) == 0,
                    binom((n - 1) as nat, (k - 1) as nat) == 0,
            ;
        } else {
            assert(binom(1, 1) == binom(0, 0) + binom(0, 1));
        }
    } else if k == 1 {
        lemma_binom_one(n);
        assert(binom((n - 1) as nat, 0) == 1);
    } else {
        let m = (n - 1) as nat;
        lemma_binom_absorb(m, k);
        lemma_binom_absorb(m, (k - 1) as nat);
        let a = binom(m, (k - 1) as nat);
        let b = binom(m, k);
        let c = binom((m - 1) as nat, (k - 2) as nat);
        let e = binom((m - 1) as nat, (k - 1) as nat);
        assert(binom(n, k) == a + b);
        assert(a == c + e);
        assert(k * (a + b) == n * a) by (nonlinear_arith)
            requires
                k * b == m * e,
                (k - 1) * a == m * c,
                a == c + e,
                n == m + 1,
        ;
    }
}

/// A prime divides the binomial coefficients strictly inside its row.
proof fn lemma_prime_divides_binom(p: nat, k: nat)
    requires
        is_prime(p as int),
        0 < k < p,
    ensures
        (binom(p, k) as int) % (p as int) == 0,
{
    lemma_binom_absorb(p, k);
    let j = binom((p - 1) as nat, (k - 1) as nat);
    lemma_mod_multiples_basic(j as int, p as int);
    vstd::arithmetic::mul::lemma_mul_is_commutative(j as int, p as int);
    lemma_euclid(k as int, binom(p, k) as int, p as int);
}

/// The first `m` terms of the binomial expansion of `(a + 1)^n`.
pub open spec fn binom_sum(n: nat, m: nat, a: int) -> int
    decreases m,
{
    if m == 0 {
        0
    } else {
        binom_sum(n, (m - 1) as nat, a) + binom(n, (m - 1) as nat) * pow(a, (m - 1) as nat)
    }
}

proof fn lemma_binom_sum_step(n: nat, m: nat, a: int)
    ensures
        binom_sum(n + 1, m + 1, a) == binom_sum(n, m + 1, a) + a * binom_sum(n, m, a),
    decreases m,
{
    vstd::arithmetic::power::lemma_pow0(a);
    reveal(pow);
    if m == 0 {
        assert(binom_sum(n + 1, 1, a) == binom_sum(n + 1, 0, a) + binom(n + 1, 0) * pow(a, 0));
        assert(binom_sum(n, 1, a) == binom_sum(n, 0, a) + binom(n, 0) * pow(a, 0));
        assert(a * binom_sum(n, 0, a) == 0) by (nonlinear_arith)
            requires
                binom_sum(n, 0, a) == 0,
        ;
    } else {
        let k = (m - 1) as nat;
        lemma_binom_sum_step(n, k, a);
        assert(binom_sum(n + 1, m, a) == binom_sum(n, m, a) + a * binom_sum(n, k, a));
        let s1 = binom_sum(n, m, a);
        let s0 = binom_sum(n, k, a);
        assert(binom(n + 1, m) == binom(n, k) + binom(n, m));
        assert(pow(a, m) == a * pow(a, k));
        assert(binom_sum(n + 1, m + 1, a) == binom_sum(n + 1, m, a) + binom(n + 1, m) * pow(a, m));
        assert(binom_sum(n, m + 1, a) == s1 + binom(n, m) * pow(a, m));
        assert(s1 == s0 + binom(n, k) * pow(a, k));
        assert((binom(n, k) + binom(n, m)) * pow(a, m) + a * s0 == binom(n, m) * pow(a, m) + a * (s0
            + binom(n, k) * pow(a, k))) by (nonlinear_arith)
            requires
                pow(a, m) == a * pow(a, k),
        ;
    }
}

proof fn lemma_binom_sum_tail(n: nat, m: nat, a: int)
    requires
        m >= n + 1,
    ensures
        binom_sum(n, m, a) == binom_sum(n, n + 1, a),
    decreases m,
{
    if m > n + 1 {
        lemma_binom_sum_tail(n, (m - 1) as nat, a);
        lemma_binom_above(n, (m - 1) as nat);
    }
}

/// The binomial theorem: `(a + 1)^n` is the sum of `C(n, k) a^k`.
proof fn lemma_binomial_theorem(n: nat, a: int)
    ensures
        pow(a + 1, n) == binom_sum(n, n + 1, a),
    decreases n,
{
    vstd::arithmetic::power::lemma_pow0(a);
    vstd::arithmetic::power::lemma_pow0(a + 1);
    reveal(pow);
    if n == 0 {
        assert(binom_sum(0, 1, a) == binom_sum(0, 0, a) + binom(0, 0) * pow(a, 0));
    } else {
        let m = (n - 1) as nat;
        lemma_binomial_theorem(m, a);
        lemma_binom_sum_step(m, n, a);
        lemma_binom_sum_tail(m, n + 1, a);
        assert(m + 1 == n);
        assert(binom_sum(n, n + 1, a) == binom_sum(m, n + 1, a) + a * binom_sum(m, n, a));
        assert(pow(a + 1, n) == (a + 1) * pow(a + 1, m));
        assert(binom_sum(m, n + 1, a) + a * binom_sum(m, n, a) == (a + 1) * binom_sum(m, n, a))
            by (nonlinear_arith)
            requires
                binom_sum(m, n + 1, a) == binom_sum(m, n, a),
        ;
    }
}

proof fn lemma_inner_terms_vanish(p: nat, m: nat, a: int)
    requires
        is_prime(p as int),
        1 <= m <= p,
    ensures
        (binom_sum(p, m, a) - 1) % (p as int) == 0,
    decreases m,
{
    let pi = p as int;
    vstd::arithmetic::power::lemma_pow0(a);
    if m == 1 {
        lemma_small_mod(0, p);
        assert(binom_sum(p, 1, a) == binom_sum(p, 0, a) + binom(p, 0) * pow(a, 0));
    } else {
        let k = (m - 1) as nat;
        lemma_inner_terms_vanish(p, k, a);
        lemma_prime_divides_binom(p, k);
        lemma_fundamental_div_mod(binom(p, k) as int, pi);
        lemma_fundamental_div_mod(binom_sum(p, k, a) - 1, pi);
        let j = binom(p, k) as int / pi;
        let i = (binom_sum(p, k, a) - 1) / pi;
        assert(binom_sum(p, m, a) - 1 == pi * (i + j * pow(a, k))) by (nonlinear_arith)
            requires
                binom_sum(p, m, a) == binom_sum(p, k, a) + binom(p, k) * pow(a, k),
                binom(p, k) == pi * j,
                binom_sum(p, k, a) - 1 == pi * i,
        ;
        lemma_mod_multiples_basic(i + j * pow(a, k), pi);
        vstd::arithmetic::mul::lemma_mul_is_commutative(i + j * pow(a, k), pi);
    }
}

/// Fermat's little theorem: `a^p = a` modulo a prime `p`.
pub proof fn lemma_fermat(a: nat, p: nat)
    requires
        is_prime(p as int),
    ensures
        pow(a as int, p) % (p as int) == (a as int) % (p as int),
    decreases a,
{
    let pi = p as int;
    if a == 0 {
        vstd::arithmetic::power::lemma0_pow(p);
    } else {
        let b = (a - 1) as nat;
        lemma_fermat(b, p);
        lemma_binomial_theorem(p, b as int);
        lemma_inner_terms_vanish(p, p, b as int);
        lemma_binom_diagonal(p);
        // (b + 1)^p = (1 + inner terms) + b^p
        assert(binom_sum(p, p + 1, b as int) == binom_sum(p, p, b as int) + binom(p, p) * pow(
            b as int,
            p,
        ));
        assert(binom(p, p) * pow(b as int, p) == pow(b as int, p)) by (nonlinear_arith)
            requires
                binom(p, p) == 1,
        ;
        lemma_fundamental_div_mod(binom_sum(p, p, b as int) - 1, pi);
        let i = (binom_sum(p, p, b as int) - 1) / pi;
        vstd::arithmetic::div_mod::lemma_mod_multiples_vanish(i, 1 + pow(b as int, p), pi);
        lemma_add_mod_noop(1, pow(b as int, p), pi);
        lemma_add_mod_noop(1, b as int, pi);
        lemma_small_mod(1, p);
    }
}

} // verus!
