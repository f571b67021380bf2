//! Prime moduli, and Fermat's little theorem.
//!
//! Division in a prime field multiplies by a power: the inverse of a
//! non-zero residue `a` modulo a prime `p` is `a^(p-2)`. That rests on
//! `a^(p-1) == 1 (mod p)`, which is proved here from first principles: by
//! Euclid's lemma, the divisibility of the binomial coefficients of a prime
//! row, and the binomial expansion of `(a + 1)^p`.

use crate::number_theory::{lemma_mod_zero_combination, lemma_multiple_mod};
use vstd::arithmetic::div_mod::{
    lemma_add_mod_noop, lemma_fundamental_div_mod, lemma_mod_bound, lemma_mul_mod_noop_general,
    lemma_small_mod,
};
use vstd::arithmetic::power::{lemma0_pow, lemma_pow0, lemma_pow1, lemma_pow_adds, pow};
use vstd::prelude::*;

verus! {

/// A prime: at least two, and divisible by nothing strictly between one and
/// itself.
pub open spec fn is_prime(p: int) -> bool {
    &&& 2 <= p
    &&& forall|d: int| 1 < d < p ==> #[trigger] (p % d) != 0
}

/// If a prime divides `r * a` for some `r` strictly between zero and the
/// prime, it divides `a`.
pub proof fn lemma_prime_cancels_small_factor(p: int, r: int, a: int)
    requires
        is_prime(p),
        0 < r < p,
        (r * a) % p == 0,
    ensures
        a % p == 0,
    decreases r,
{
    if r == 1 {
        assert(r * a == a) by (nonlinear_arith)
            requires
                r == 1,
        ;
    } else {
        let q = p / r;
        let s = p % r;
        lemma_fundamental_div_mod(p, r);
        lemma_mod_bound(p, r);
        assert(s != 0);
        // s*a == p*a - q*(r*a), a combination of two multiples of p
        lemma_multiple_mod(p, a);
        lemma_mod_zero_combination(p * a, r * a, -q, p);
        assert(s * a == p * a + (-q) * (r * a)) by (nonlinear_arith)
            requires
                p == r * q + s,
        ;
        lemma_prime_cancels_small_factor(p, s, a);
    }
}

/// Euclid's lemma: a prime that divides a product divides one of the
/// factors.
pub proof fn lemma_euclid(p: int, a: int, b: int)
    requires
        is_prime(p),
        (a * b) % p == 0,
    ensures
        a % p == 0 || b % p == 0,
{
    let r = a % p;
    lemma_mod_bound(a, p);
    if r != 0 {
        lemma_mul_mod_noop_general(a, b, p);
        lemma_prime_cancels_small_factor(p, r, b);
    }
}

/// The binomial coefficient `n` over `k`, by Pascal's rule.
pub open spec fn binomial(n: nat, k: nat) -> nat
    decreases n,
{
    if k == 0 {
        1
    } else if n == 0 {
        0
    } else {
        binomial((n - 1) as nat, (k - 1) as nat) + binomial((n - 1) as nat, k)
    }
}

/// There is no way to choose more than `n` out of `n`.
pub proof fn lemma_binomial_beyond(n: nat, k: nat)
    requires
        n < k,
    ensures
        binomial(n, k) == 0,
    decreases n,
{
    if n > 0 {
        lemma_binomial_beyond((n - 1) as nat, (k - 1) as nat);
        lemma_binomial_beyond((n - 1) as nat, k);
    }
}

/// There is one way to choose all.
pub proof fn lemma_binomial_full(n: nat)
    ensures
        binomial(n, n) == 1,
    decreases n,
{
    if n > 0 {
        lemma_binomial_full((n - 1) as nat);
        lemma_binomial_beyond((n - 1) as nat, n);
    }
}

/// The absorption identity: `k * C(n, k) == n * C(n-1, k-1)`.
pub proof fn lemma_binomial_absorption(n: nat, k: nat)
    requires
        1 <= n,
        1 <= k,
    ensures
        k * binomial(n, k) == n * binomial((n - 1) as nat, (k - 1) as nat),
    decreases n,
{
    let m = (n - 1) as nat;
    let j = (k - 1) as nat;
    // C(n, k) == C(m, j) + C(m, k)
    if m == 0 {
        lemma_binomial_beyond(0, k);
        if j > 0 {
            lemma_binomial_beyond(0, j);
        }
        assert(k * binomial(n, k) == n * binomial(m, j)) by (nonlinear_arith)
            requires
                n == 1,
                binomial(n, k) == binomial(m, j) + 0,
                j == 0 ==> binomial(m, j) == 1 && k == 1,
                j > 0 ==> binomial(m, j) == 0,
        ;
    } else {
        lemma_binomial_absorption(m, k);
        let c_mj = binomial(m, j);
        let c_mk = binomial(m, k);
        let c_lj = binomial((m - 1) as nat, j);
        assert(k * c_mk == m * c_lj);
        if j == 0 {
            assert(c_mj == 1);
            assert(c_lj == 1);
            assert(k * binomial(n, k) == n * c_mj) by (nonlinear_arith)
                requires
                    binomial(n, k) == c_mj + c_mk,
                    k * c_mk == m * c_lj,
                    c_mj == 1,
                    c_lj == 1,
                    k == 1,
                    n == m + 1,
            ;
        } else {
            lemma_binomial_absorption(m, j);
            let c_li = binomial((m - 1) as nat, (j - 1) as nat);
            assert(j * c_mj == m * c_li);
            assert(c_mj == c_li + c_lj);
            assert(k * binomial(n, k) == n * c_mj) by (nonlinear_arith)
                requires
                    binomial(n, k) == c_mj + c_mk,
                    k * c_mk == m * c_lj,
                    j * c_mj == m * c_li,
                    c_mj == c_li + c_lj,
                    k == j + 1,
                    n == m + 1,
            ;
        }
    }
}

/// A prime divides every binomial coefficient of its row but the two at
/// the ends.
pub proof fn lemma_prime_row(p: nat, k: nat)
    requires
        is_prime(p as int),
        0 < k < p,
    ensures
        binomial(p, k) % p == 0,
{
    lemma_binomial_absorption(p, k);
    let c = binomial((p - 1) as nat, (k - 1) as nat);
    lemma_multiple_mod(p as int, c as int);
    lemma_prime_cancels_small_factor(p as int, k as int, binomial(p, k) as int);
}

/// The first `m` terms of the expansion of `(a + 1)^n` in powers of `a`.
pub open spec fn binomial_sum(a: int, n: nat, m: nat) -> int
    decreases m,
{
    if m == 0 {
        0
    } else {
        binomial_sum(a, n, (m - 1) as nat) + binomial(n, (m - 1) as nat) * pow(a, (m - 1) as nat)
    }
}

/// Pascal's rule, summed: the partial sums of row `n + 1` come from those of
/// row `n`.
pub proof fn lemma_binomial_sum_step(a: int, n: nat, m: nat)
    ensures
        binomial_sum(a, n + 1, m + 1) == a * binomial_sum(a, n, m) + binomial_sum(a, n, m + 1),
    decreases m,
{
    lemma_pow0(a);
    if m == 0 {
        assert(binomial_sum(a, n + 1, 1) == binomial_sum(a, n + 1, 0) + binomial(n + 1, 0) * pow(
            a,
            0,
        ));
        assert(binomial_sum(a, n, 1) == binomial_sum(a, n, 0) + binomial(n, 0) * pow(a, 0));
        assert(a * binomial_sum(a, n, 0) == 0) by (nonlinear_arith)
            requires
                binomial_sum(a, n, 0) == 0,
        ;
    } else {
        let k = (m - 1) as nat;
        lemma_binomial_sum_step(a, n, k);
        // pow(a, m) == a * pow(a, k)
        lemma_pow_adds(a, 1, k);
        lemma_pow1(a);
        let s_k = binomial_sum(a, n, k);
        let s_m = binomial_sum(a, n, m);
        let s_m1 = binomial_sum(a, n, m + 1);
        let c_k = binomial(n, k) as int;
        let c_m = binomial(n, m) as int;
        let a_k = pow(a, k);
        let a_m = pow(a, m);
        assert(s_m == s_k + c_k * a_k);
        assert(s_m1 == s_m + c_m * a_m);
        assert(binomial(n + 1, m) == binomial(n, k) + binomial(n, m));
        assert(binomial_sum(a, n + 1, m + 1) == binomial_sum(a, n + 1, m) + binomial(n + 1, m)
            * a_m);
        assert(binomial_sum(a, n + 1, m) == a * s_k + s_m);
        assert(a * s_k + s_m + (c_k + c_m) * a_m == a * s_m + s_m1) by (nonlinear_arith)
            requires
                s_m == s_k + c_k * a_k,
                s_m1 == s_m + c_m * a_m,
                a_m == a * a_k,
        ;
    }
}

/// The binomial theorem for `(a + 1)^n`.
pub proof fn lemma_binomial_theorem(a: int, n: nat)
    ensures
        pow(a + 1, n) == binomial_sum(a, n, n + 1),
    decreases n,
{
    lemma_pow0(a);
    lemma_pow0(a + 1);
    if n == 0 {
        assert(binomial_sum(a, 0, 1) == binomial_sum(a, 0, 0) + binomial(0, 0) * pow(a, 0));
    } else {
        let m = (n - 1) as nat;
        lemma_binomial_theorem(a, m);
        lemma_binomial_sum_step(a, m, n);
        lemma_binomial_beyond(m, n);
        lemma_pow_adds(a + 1, 1, m);
        lemma_pow1(a + 1);
        let s = binomial_sum(a, m, n);
        assert(binomial_sum(a, m, n + 1) == s + binomial(m, n) * pow(a, n));
        assert(binomial(m, n) * pow(a, n) == 0) by (nonlinear_arith)
            requires
                binomial(m, n) == 0,
        ;
        assert((a + 1) * s == a * s + s) by (nonlinear_arith);
    }
}

/// Modulo a prime, every partial sum of its row short of the last term is
/// one.
pub proof fn lemma_prime_row_sum(a: int, p: nat, m: nat)
    requires
        is_prime(p as int),
        1 <= m <= p,
    ensures
        binomial_sum(a, p, m) % (p as int) == 1,
    decreases m,
{
    lemma_pow0(a);
    if m == 1 {
        assert(binomial_sum(a, p, 1) == binomial_sum(a, p, 0) + binomial(p, 0) * pow(a, 0));
        lemma_small_mod(1, p);
    } else {
        let k = (m - 1) as nat;
        lemma_prime_row_sum(a, p, k);
        lemma_prime_row(p, k);
        let c = binomial(p, k) as int;
        let t = c * pow(a, k);
        lemma_mul_mod_noop_general(c, pow(a, k), p as int);
        assert((c % (p as int)) * pow(a, k) == 0) by (nonlinear_arith)
            requires
                c % (p as int) == 0,
        ;
        lemma_small_mod(0, p);
        assert(t % (p as int) == 0);
        lemma_add_mod_noop(binomial_sum(a, p, k), t, p as int);
        lemma_small_mod(1, p);
    }
}

/// Modulo a prime `p`, raising to the power `p` commutes with adding one.
pub proof fn lemma_freshman_step(a: int, p: nat)
    requires
        is_prime(p as int),
    ensures
        pow(a + 1, p) % (p as int) == (pow(a, p) + 1) % (p as int),
{
    lemma_binomial_theorem(a, p);
    lemma_prime_row_sum(a, p, p);
    lemma_binomial_full(p);
    let s = binomial_sum(a, p, p);
    assert(binomial_sum(a, p, p + 1) == s + binomial(p, p) * pow(a, p));
    assert(binomial(p, p) * pow(a, p) == pow(a, p)) by (nonlinear_arith)
        requires
            binomial(p, p) == 1,
    ;
    lemma_small_mod(1, p);
    lemma_add_mod_noop(s, pow(a, p), p as int);
    lemma_add_mod_noop(1, pow(a, p), p as int);
}

/// Modulo a prime `p`, the `p`-th power of a natural number is the number.
pub proof fn lemma_power_of_prime(a: nat, p: nat)
    requires
        is_prime(p as int),
    ensures
        pow(a as int, p) % (p as int) == a % p,
    decreases a,
{
    if a == 0 {
        lemma0_pow(p);
    } else {
        let b = (a - 1) as nat;
        lemma_power_of_prime(b, p);
        lemma_freshman_step(b as int, p);
        lemma_add_mod_noop(pow(b as int, p), 1, p as int);
        lemma_add_mod_noop(b as int, 1, p as int);
    }
}

/// Fermat's little theorem: modulo a prime `p`, a number that `p` does not
/// divide, raised to the power `p - 1`, is one.
pub proof fn lemma_fermat_little(a: nat, p: nat)
    requires
        is_prime(p as int),
        a % p != 0,
    ensures
        pow(a as int, (p - 1) as nat) % (p as int) == 1,
{
    let e = (p - 1) as nat;
    let x = pow(a as int, e);
    lemma_power_of_prime(a, p);
    lemma_pow_adds(a as int, 1, e);
    lemma_pow1(a as int);
    assert(pow(a as int, p) == a * x);
    // a*x and a agree modulo p, so p divides a*(x - 1)
    vstd::arithmetic::div_mod::lemma_mod_equivalence(a * x, a as int, p as int);
    assert(a * (x - 1) == a * x - a) by (nonlinear_arith);
    lemma_euclid(p as int, a as int, x - 1);
    vstd::arithmetic::div_mod::lemma_mod_equivalence(x, 1, p as int);
    lemma_small_mod(1, p);
}

} // verus!
