//! Facts about modular arithmetic and exponentiation over the mathematical
//! integers that the executable layers rest on.

use vstd::arithmetic::div_mod::{
    lemma_add_mod_noop, lemma_fundamental_div_mod, lemma_mod_equivalence,
    lemma_mod_multiples_basic, lemma_mod_multiples_vanish, lemma_mod_twice,
    lemma_mul_mod_noop_general, lemma_small_mod, lemma_sub_mod_noop,
};
use vstd::arithmetic::mul::lemma_mul_is_associative;
use vstd::arithmetic::power::{
    lemma_pow1, lemma_pow_adds, lemma_pow_distributes, lemma_pow_mod_noop, pow,
};
use vstd::prelude::*;

verus! {

/// The magnitude of an integer.
pub open spec fn magnitude(a: int) -> int {
    if a < 0 {
        -a
    } else {
        a
    }
}

/// The quotient of `a` by `b` rounded toward zero, as machine division
/// does: the quotient of the magnitudes, negative when the signs differ.
pub open spec fn truncating_div(a: int, b: int) -> int {
    let q = magnitude(a) / magnitude(b);
    if (a < 0) == (b < 0) {
        q
    } else {
        -q
    }
}

/// The remainder of `a` by a positive `b` that machine division leaves: it
/// has the sign of `a`.
pub open spec fn truncating_rem(a: int, b: int) -> int {
    if a >= 0 {
        a % b
    } else {
        -((-a) % b)
    }
}

/// A value already in `[0, m)` is its own remainder.
pub proof fn lemma_mod_of_residue(x: int, m: int)
    requires
        0 <= x < m,
    ensures
        x % m == x,
{
    lemma_small_mod(x as nat, m as nat);
}

/// Shifting a truncated remainder by the modulus and reducing again gives
/// the Euclidean remainder.
pub proof fn lemma_double_reduction(a: int, m: int)
    requires
        0 < m,
    ensures
        -m < truncating_rem(a, m) < m,
        (truncating_rem(a, m) + m) % m == a % m,
{
    if a >= 0 {
        lemma_fundamental_div_mod(a, m);
        lemma_mod_of_residue(a % m, m);
        lemma_mod_multiples_vanish(1, a % m, m);
    } else {
        let t = (-a) % m;
        let q = (-a) / m;
        lemma_fundamental_div_mod(-a, m);
        assert(-a == m * q + t);
        assert(m - t == m * (q + 1) + a) by (nonlinear_arith)
            requires
                -a == m * q + t,
        ;
        lemma_mod_multiples_vanish(q + 1, a, m);
    }
}

/// A product is no larger in magnitude than the product of the bounds of
/// its factors.
pub proof fn lemma_product_magnitude(a: int, b: int, bound: int)
    requires
        -bound <= a <= bound,
        -bound <= b <= bound,
    ensures
        -(bound * bound) <= a * b <= bound * bound,
{
    assert(-(bound * bound) <= a * b <= bound * bound) by (nonlinear_arith)
        requires
            -bound <= a <= bound,
            -bound <= b <= bound,
    ;
}

/// Squaring the base halves the exponent: `b^(2k) == (b*b)^k`.
pub proof fn lemma_pow_of_square(b: int, k: nat)
    ensures
        pow(b * b, k) == pow(b, 2 * k),
{
    lemma_pow_distributes(b, b, k);
    lemma_pow_adds(b, k, k);
}

/// One round of square-and-multiply keeps `acc * base^e` unchanged modulo
/// `m`, while halving the exponent.
pub proof fn lemma_square_and_multiply_step(acc: int, base: int, e: nat, m: int)
    requires
        0 < m,
        0 < e,
    ensures
        ({
            let next_acc = if e % 2 == 1 {
                (acc * base) % m
            } else {
                acc
            };
            (next_acc * pow((base * base) % m, e / 2)) % m == (acc * pow(base, e)) % m
        }),
{
    let k = e / 2;
    let sq = pow(base * base, k);
    lemma_pow_of_square(base, k);
    lemma_pow_mod_noop(base * base, k, m);
    if e % 2 == 1 {
        assert(e == 2 * k + 1);
        lemma_pow_adds(base, 1, 2 * k);
        lemma_pow1(base);
        assert(pow(base, e) == base * sq);
        lemma_mul_is_associative(acc, base, sq);
        lemma_mul_mod_noop_general(acc * base, sq, m);
        lemma_mul_mod_noop_general((acc * base) % m, pow((base * base) % m, k), m);
    } else {
        assert(e == 2 * k);
        lemma_mul_mod_noop_general(acc, sq, m);
        lemma_mul_mod_noop_general(acc, pow((base * base) % m, k), m);
    }
}

/// Two integers are congruent modulo `m` when they leave the same
/// remainder.
pub open spec fn congruent(a: int, b: int, m: int) -> bool {
    a % m == b % m
}

/// Congruent integers are those whose difference is a multiple of the
/// modulus.
pub proof fn lemma_congruent_difference(a: int, b: int, m: int)
    requires
        0 < m,
    ensures
        congruent(a, b, m) <==> (a - b) % m == 0,
{
    lemma_mod_equivalence(a, b, m);
}

/// A remainder is congruent to what it is the remainder of.
pub proof fn lemma_congruent_reduced(a: int, m: int)
    requires
        0 < m,
    ensures
        congruent(a % m, a, m),
{
    lemma_mod_twice(a, m);
}

/// Two residues in `[0, m)` that are congruent are equal.
pub proof fn lemma_congruent_residues(a: int, b: int, m: int)
    requires
        0 <= a < m,
        0 <= b < m,
        congruent(a, b, m),
    ensures
        a == b,
{
    lemma_small_mod(a as nat, m as nat);
    lemma_small_mod(b as nat, m as nat);
}

/// Every multiple of the modulus leaves the remainder zero.
pub proof fn lemma_multiple_mod(m: int, k: int)
    requires
        0 < m,
    ensures
        (m * k) % m == 0,
{
    lemma_mod_multiples_basic(k, m);
    assert(m * k == k * m) by (nonlinear_arith);
}

/// What leaves the remainder zero is a multiple of the modulus.
pub proof fn lemma_mod_zero_multiple(x: int, m: int)
    requires
        0 < m,
        x % m == 0,
    ensures
        x == m * (x / m),
{
    lemma_fundamental_div_mod(x, m);
}

/// A combination `x + c*y` of two multiples of `m` is a multiple of `m`.
pub proof fn lemma_mod_zero_combination(x: int, y: int, c: int, m: int)
    requires
        0 < m,
        x % m == 0,
        y % m == 0,
    ensures
        (x + c * y) % m == 0,
{
    lemma_mod_zero_multiple(x, m);
    lemma_mod_zero_multiple(y, m);
    let kx = x / m;
    let ky = y / m;
    assert(x + c * y == m * (kx + c * ky)) by (nonlinear_arith)
        requires
            x == m * kx,
            y == m * ky,
    ;
    lemma_multiple_mod(m, kx + c * ky);
}

/// A combination of four multiples of `m` is a multiple of `m`.
pub proof fn lemma_mod_zero_combination4(
    e1: int,
    c1: int,
    e2: int,
    c2: int,
    e3: int,
    c3: int,
    e4: int,
    c4: int,
    m: int,
)
    requires
        0 < m,
        e1 % m == 0,
        e2 % m == 0,
        e3 % m == 0,
        e4 % m == 0,
    ensures
        (c1 * e1 + c2 * e2 + c3 * e3 + c4 * e4) % m == 0,
{
    lemma_small_mod(0, m as nat);
    lemma_mod_zero_combination(0, e1, c1, m);
    lemma_mod_zero_combination(c1 * e1, e2, c2, m);
    lemma_mod_zero_combination(c1 * e1 + c2 * e2, e3, c3, m);
    lemma_mod_zero_combination(c1 * e1 + c2 * e2 + c3 * e3, e4, c4, m);
}

/// Sums of congruent integers are congruent.
pub proof fn lemma_congruent_add(a: int, a2: int, b: int, b2: int, m: int)
    requires
        0 < m,
        congruent(a, a2, m),
        congruent(b, b2, m),
    ensures
        congruent(a + b, a2 + b2, m),
{
    lemma_add_mod_noop(a, b, m);
    lemma_add_mod_noop(a2, b2, m);
}

/// Differences of congruent integers are congruent.
pub proof fn lemma_congruent_sub(a: int, a2: int, b: int, b2: int, m: int)
    requires
        0 < m,
        congruent(a, a2, m),
        congruent(b, b2, m),
    ensures
        congruent(a - b, a2 - b2, m),
{
    lemma_sub_mod_noop(a, b, m);
    lemma_sub_mod_noop(a2, b2, m);
}

/// Products of congruent integers are congruent.
pub proof fn lemma_congruent_mul(a: int, a2: int, b: int, b2: int, m: int)
    requires
        0 < m,
        congruent(a, a2, m),
        congruent(b, b2, m),
    ensures
        congruent(a * b, a2 * b2, m),
{
    lemma_mul_mod_noop_general(a, b, m);
    lemma_mul_mod_noop_general(a2, b2, m);
}

} // verus!
