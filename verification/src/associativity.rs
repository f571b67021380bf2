//! The associative law of point addition over a field of odd prime order.
//!
//! A sum of two points is found along a line: the chord through them, or
//! the tangent where they coincide. The slope `s` of the line from
//! `(x1, y1)` through `(x2, y2)` satisfies two equations modulo the prime,
//! whichever of the two lines it is: the ordinates differ by `s` times the
//! difference of the abscissas, and the line meets the curve a third time.
//! Everything here follows from those two equations for the lines that an
//! addition of three points runs along.
//!
//! The proofs are identities between integer polynomials. Each product of
//! two sums is expanded over the monomials of its factors, which are given
//! names, and each product of two monomials is brought to one form, so that
//! in the end both sides are sums of the same monomials.

use crate::number_theory::{
    lemma_mod_of_residue, lemma_mod_zero_combination, lemma_mod_zero_combination4,
};
use crate::primes::{is_prime, lemma_euclid};
use vstd::prelude::*;

verus! {

/// How far `(x2, y2)` is from the line of slope `s` through `(x1, y1)`.
pub open spec fn rise_defect(s: int, x1: int, y1: int, x2: int, y2: int) -> int {
    s * x1 - s * x2 - y1 + y2
}

/// How far the line of slope `s` through `(x1, y1)` and a point of abscissa
/// `x2` is from meeting the curve a third time. For a chord this is the
/// difference of the two curve equations with `x2 - x1` taken out; for a
/// tangent, where `x2 = x1`, it is the equation of the tangent slope.
pub open spec fn secant_defect(s: int, x1: int, y1: int, x2: int, a: int) -> int {
    -(s * s * x1) + s * s * x2 + 2 * (s * y1) - x1 * x1 - x1 * x2 - x2 * x2 - a
}

/// The abscissa of a third point `x3` less that of the sum along the line
/// of slope `s` through the abscissas `x1` and `x2`.
pub open spec fn gap_x(s: int, x1: int, x2: int, x3: int) -> int {
    -(s * s) + x1 + x2 + x3
}

/// The ordinate of a third point `y3` less that of the sum along the line
/// of slope `s` from `(x1, y1)` through the abscissa `x2`.
pub open spec fn gap_y(s: int, x1: int, y1: int, x2: int, y3: int) -> int {
    s * s * s - 2 * (s * x1) - s * x2 + y1 + y3
}

/// The slope of the line from the sum along `s` to a third point of
/// abscissa `x3`, times `s - t`, where `t` is the slope of the line from the
/// second point to the third.
pub open spec fn turn(s: int, t: int, x1: int, x3: int) -> int {
    -(s * s) + s * t + x1 - x3
}

/// The equations of two lines that share their middle point give one
/// relation between the gaps from the sum along the first line to the far
/// end of the second.
#[verifier::rlimit(40)]
pub proof fn lemma_cross_relation(
    p: int,
    s: int,
    t: int,
    x1: int,
    y1: int,
    x2: int,
    y2: int,
    x3: int,
    y3: int,
    a: int,
)
    requires
        0 < p,
        rise_defect(s, x1, y1, x2, y2) % p == 0,
        rise_defect(t, x2, y2, x3, y3) % p == 0,
        secant_defect(s, x1, y1, x2, a) % p == 0,
        secant_defect(t, x2, y2, x3, a) % p == 0,
    ensures
        ((s - t) * gap_y(s, x1, y1, x2, y3) - turn(s, t, x1, x3) * gap_x(s, x1, x2, x3)) % p == 0,
{
    let l1 = rise_defect(s, x1, y1, x2, y2);
    let l3 = rise_defect(t, x2, y2, x3, y3);
    let g1 = secant_defect(s, x1, y1, x2, a);
    let g3 = secant_defect(t, x2, y2, x3, a);
    let aa = gap_y(s, x1, y1, x2, y3);
    let bb = gap_x(s, x1, x2, x3);
    let al = turn(s, t, x1, x3);
    let ds = s - t;
    let ss = s + t;
    // (s - t) * gap_y, turn * gap_x and the multiples of the two rise
    // defects, each as a sum of monomials
    let m_sss = s * s * s;
    let m_sx1 = s * x1;
    let m_sx2 = s * x2;
    assert(ds * aa == s * m_sss - 2 * (s * m_sx1) - s * m_sx2 + s * y1 + s * y3 - t * m_sss
        + 2 * (t * m_sx1) + t * m_sx2 - t * y1 - t * y3) by (nonlinear_arith)
        requires
            ds == s - t,
            aa == m_sss - 2 * m_sx1 - m_sx2 + y1 + y3,
    ;
    assert(s * m_sss == s * s * s * s) by (nonlinear_arith)
        requires
            m_sss == s * s * s,
    ;
    assert(s * m_sx1 == s * s * x1) by (nonlinear_arith)
        requires
            m_sx1 == s * x1,
    ;
    assert(s * m_sx2 == s * s * x2) by (nonlinear_arith)
        requires
            m_sx2 == s * x2,
    ;
    assert(t * m_sss == s * s * s * t) by (nonlinear_arith)
        requires
            m_sss == s * s * s,
    ;
    assert(t * m_sx1 == s * t * x1) by (nonlinear_arith)
        requires
            m_sx1 == s * x1,
    ;
    assert(t * m_sx2 == s * t * x2) by (nonlinear_arith)
        requires
            m_sx2 == s * x2,
    ;
    assert(ds * aa == s * s * s * s - s * s * s * t - 2 * (s * s * x1) - s * s * x2
        + 2 * (s * t * x1) + s * t * x2 + s * y1 + s * y3 - t * y1 - t * y3);
    let m_ss = s * s;
    let m_st = s * t;
    assert(al * bb == m_ss * m_ss - m_ss * x1 - m_ss * x2 - m_ss * x3 - m_st * m_ss + m_st * x1
        + m_st * x2 + m_st * x3 - x1 * m_ss + x1 * x1 + x1 * x2 + x1 * x3 + x3 * m_ss - x3 * x1
        - x3 * x2 - x3 * x3) by (nonlinear_arith)
        requires
            al == -(m_ss) + m_st + x1 - x3,
            bb == -(m_ss) + x1 + x2 + x3,
    ;
    assert(m_ss * m_ss == s * s * s * s) by (nonlinear_arith)
        requires
            m_ss == s * s,
    ;
    assert(m_st * m_ss == s * s * s * t) by (nonlinear_arith)
        requires
            m_st == s * t,
            m_ss == s * s,
    ;
    assert(x1 * m_ss == s * s * x1) by (nonlinear_arith)
        requires
            m_ss == s * s,
    ;
    assert(x3 * m_ss == s * s * x3) by (nonlinear_arith)
        requires
            m_ss == s * s,
    ;
    assert(x3 * x1 == x1 * x3) by (nonlinear_arith);
    assert(x3 * x2 == x2 * x3) by (nonlinear_arith);
    assert(al * bb == s * s * s * s - s * s * s * t - 2 * (s * s * x1) - s * s * x2 + s * t * x1
        + s * t * x2 + s * t * x3 + x1 * x1 + x1 * x2 - x2 * x3 - x3 * x3);
    assert(ss * l1 == s * m_sx1 - s * m_sx2 - s * y1 + s * y2 + t * m_sx1 - t * m_sx2 - t * y1
        + t * y2) by (nonlinear_arith)
        requires
            ss == s + t,
            l1 == m_sx1 - m_sx2 - y1 + y2,
    ;
    assert(ss * l1 == s * s * x1 - s * s * x2 + s * t * x1 - s * t * x2 - s * y1 + s * y2 - t * y1
        + t * y2);
    let m_tx2 = t * x2;
    let m_tx3 = t * x3;
    assert(ds * l3 == s * m_tx2 - s * m_tx3 - s * y2 + s * y3 - t * m_tx2 + t * m_tx3 + t * y2
        - t * y3) by (nonlinear_arith)
        requires
            ds == s - t,
            l3 == m_tx2 - m_tx3 - y2 + y3,
    ;
    assert(s * m_tx2 == s * t * x2) by (nonlinear_arith)
        requires
            m_tx2 == t * x2,
    ;
    assert(s * m_tx3 == s * t * x3) by (nonlinear_arith)
        requires
            m_tx3 == t * x3,
    ;
    assert(t * m_tx2 == t * t * x2) by (nonlinear_arith)
        requires
            m_tx2 == t * x2,
    ;
    assert(t * m_tx3 == t * t * x3) by (nonlinear_arith)
        requires
            m_tx3 == t * x3,
    ;
    assert(ds * l3 == s * t * x2 - s * t * x3 - s * y2 + s * y3 - t * t * x2 + t * t * x3 + t * y2
        - t * y3);
    assert(ds * aa - al * bb == ss * l1 + ds * l3 + (-1) * g3 + 1 * g1);
    lemma_mod_zero_combination4(l1, s + t, l3, s - t, g3, -1, g1, 1, p);
}

/// Where the sum along `s` and the third point have different abscissas,
/// the slope `g` of the chord between them is given by `turn`.
pub proof fn lemma_turn_of_chord(
    p: int,
    g: int,
    s: int,
    t: int,
    x1: int,
    y1: int,
    x2: int,
    x3: int,
    y3: int,
)
    requires
        is_prime(p),
        ((s - t) * gap_y(s, x1, y1, x2, y3) - turn(s, t, x1, x3) * gap_x(s, x1, x2, x3)) % p == 0,
        gap_x(s, x1, x2, x3) % p != 0,
        (g * gap_x(s, x1, x2, x3) - gap_y(s, x1, y1, x2, y3)) % p == 0,
    ensures
        (g * (s - t) - turn(s, t, x1, x3)) % p == 0,
{
    let aa = gap_y(s, x1, y1, x2, y3);
    let bb = gap_x(s, x1, x2, x3);
    let al = turn(s, t, x1, x3);
    let cross = (s - t) * aa - al * bb;
    let chord = g * bb - aa;
    assert(bb * (g * (s - t) - al) == cross + (s - t) * chord) by (nonlinear_arith)
        requires
            cross == (s - t) * aa - al * bb,
            chord == g * bb - aa,
    ;
    lemma_mod_zero_combination(cross, chord, s - t, p);
    lemma_euclid(p, bb, g * (s - t) - al);
}

/// Where the sum along `s` is the third point itself, the slope `g` of the
/// tangent there is given by `turn` as well.
#[verifier::rlimit(40)]
pub proof fn lemma_turn_of_tangent(
    p: int,
    g: int,
    s: int,
    t: int,
    x1: int,
    y1: int,
    x2: int,
    y2: int,
    x3: int,
    y3: int,
    a: int,
)
    requires
        is_prime(p),
        rise_defect(s, x1, y1, x2, y2) % p == 0,
        rise_defect(t, x2, y2, x3, y3) % p == 0,
        secant_defect(s, x1, y1, x2, a) % p == 0,
        gap_x(s, x1, x2, x3) % p == 0,
        gap_y(s, x1, y1, x2, y3) % p == 0,
        (2 * y3) % p != 0,
        (g * (2 * y3) - (3 * (x3 * x3) + a)) % p == 0,
    ensures
        (g * (s - t) - turn(s, t, x1, x3)) % p == 0,
{
    let l1 = rise_defect(s, x1, y1, x2, y2);
    let l3 = rise_defect(t, x2, y2, x3, y3);
    let g1 = secant_defect(s, x1, y1, x2, a);
    let aa = gap_y(s, x1, y1, x2, y3);
    let bb = gap_x(s, x1, x2, x3);
    let al = turn(s, t, x1, x3);
    let tangent = g * (2 * y3) - (3 * (x3 * x3) + a);
    let ds = s - t;
    let dx = x3 - x1;
    let ll = l1 + l3;
    let ca = -(2 * (s * t)) + x1 + 2 * x2 + 3 * x3;
    let cb = -(2 * (s * s * t)) + 2 * (s * x1) + s * x2 + 3 * (s * x3) + t * x1 + t * x2
        - 2 * (t * x3) - 2 * y1 - 2 * y3;
    let curve = 3 * (x3 * x3) + a;
    // what the tangent equation leaves, (s - t) * curve - 2 * y3 * turn, is
    // a combination of the two gaps, the two rise defects and the secant
    // defect, with the coefficients ca, cb, dx and -(s - t)
    let m_x3x3 = x3 * x3;
    assert(ds * curve == 3 * (s * m_x3x3) + s * a - 3 * (t * m_x3x3) - t * a) by (nonlinear_arith)
        requires
            ds == s - t,
            curve == 3 * m_x3x3 + a,
    ;
    assert(s * m_x3x3 == s * x3 * x3) by (nonlinear_arith)
        requires
            m_x3x3 == x3 * x3,
    ;
    assert(t * m_x3x3 == t * x3 * x3) by (nonlinear_arith)
        requires
            m_x3x3 == x3 * x3,
    ;
    assert(ds * curve == 3 * (s * x3 * x3) + s * a - 3 * (t * x3 * x3) - t * a);
    let m_ss = s * s;
    let m_st = s * t;
    assert(y3 * al == -(y3 * m_ss) + y3 * m_st + y3 * x1 - y3 * x3) by (nonlinear_arith)
        requires
            al == -(m_ss) + m_st + x1 - x3,
    ;
    assert(y3 * m_ss == s * s * y3) by (nonlinear_arith)
        requires
            m_ss == s * s,
    ;
    assert(y3 * m_st == s * t * y3) by (nonlinear_arith)
        requires
            m_st == s * t,
    ;
    assert(y3 * x1 == x1 * y3) by (nonlinear_arith);
    assert(y3 * x3 == x3 * y3) by (nonlinear_arith);
    assert(y3 * al == -(s * s * y3) + s * t * y3 + x1 * y3 - x3 * y3);
    let m_sss = s * s * s;
    let m_sx1 = s * x1;
    let m_sx2 = s * x2;
    assert(ca * aa == -(2 * (m_st * aa)) + x1 * aa + 2 * (x2 * aa)
        + 3 * (x3 * aa)) by (nonlinear_arith)
        requires
            ca == -(2 * m_st) + x1 + 2 * x2 + 3 * x3,
    ;
    assert(m_st * aa == m_st * m_sss - 2 * (m_st * m_sx1) - m_st * m_sx2 + m_st * y1
        + m_st * y3) by (nonlinear_arith)
        requires
            aa == m_sss - 2 * m_sx1 - m_sx2 + y1 + y3,
    ;
    assert(m_st * m_sss == s * s * s * s * t) by (nonlinear_arith)
        requires
            m_st == s * t,
            m_sss == s * s * s,
    ;
    assert(m_st * m_sx1 == s * s * t * x1) by (nonlinear_arith)
        requires
            m_st == s * t,
            m_sx1 == s * x1,
    ;
    assert(m_st * m_sx2 == s * s * t * x2) by (nonlinear_arith)
        requires
            m_st == s * t,
            m_sx2 == s * x2,
    ;
    assert(x1 * aa == x1 * m_sss - 2 * (x1 * m_sx1) - x1 * m_sx2 + x1 * y1
        + x1 * y3) by (nonlinear_arith)
        requires
            aa == m_sss - 2 * m_sx1 - m_sx2 + y1 + y3,
    ;
    assert(x1 * m_sss == s * s * s * x1) by (nonlinear_arith)
        requires
            m_sss == s * s * s,
    ;
    assert(x1 * m_sx1 == s * x1 * x1) by (nonlinear_arith)
        requires
            m_sx1 == s * x1,
    ;
    assert(x1 * m_sx2 == s * x1 * x2) by (nonlinear_arith)
        requires
            m_sx2 == s * x2,
    ;
    assert(x2 * aa == x2 * m_sss - 2 * (x2 * m_sx1) - x2 * m_sx2 + x2 * y1
        + x2 * y3) by (nonlinear_arith)
        requires
            aa == m_sss - 2 * m_sx1 - m_sx2 + y1 + y3,
    ;
    assert(x2 * m_sss == s * s * s * x2) by (nonlinear_arith)
        requires
            m_sss == s * s * s,
    ;
    assert(x2 * m_sx1 == s * x1 * x2) by (nonlinear_arith)
        requires
            m_sx1 == s * x1,
    ;
    assert(x2 * m_sx2 == s * x2 * x2) by (nonlinear_arith)
        requires
            m_sx2 == s * x2,
    ;
    assert(x3 * aa == x3 * m_sss - 2 * (x3 * m_sx1) - x3 * m_sx2 + x3 * y1
        + x3 * y3) by (nonlinear_arith)
        requires
            aa == m_sss - 2 * m_sx1 - m_sx2 + y1 + y3,
    ;
    assert(x3 * m_sss == s * s * s * x3) by (nonlinear_arith)
        requires
            m_sss == s * s * s,
    ;
    assert(x3 * m_sx1 == s * x1 * x3) by (nonlinear_arith)
        requires
            m_sx1 == s * x1,
    ;
    assert(x3 * m_sx2 == s * x2 * x3) by (nonlinear_arith)
        requires
            m_sx2 == s * x2,
    ;
    assert(ca * aa == -(2 * (s * s * s * s * t)) + s * s * s * x1 + 2 * (s * s * s * x2)
        + 3 * (s * s * s * x3) + 4 * (s * s * t * x1) + 2 * (s * s * t * x2) - 2 * (s * t * y1)
        - 2 * (s * t * y3) - 2 * (s * x1 * x1) - 5 * (s * x1 * x2) - 6 * (s * x1 * x3)
        - 2 * (s * x2 * x2) - 3 * (s * x2 * x3) + x1 * y1 + x1 * y3 + 2 * (x2 * y1) + 2 * (x2 * y3)
        + 3 * (x3 * y1) + 3 * (x3 * y3));
    let m_sst = s * s * t;
    let m_sx3 = s * x3;
    let m_tx1 = t * x1;
    let m_tx2 = t * x2;
    let m_tx3 = t * x3;
    assert(cb * bb == -(m_ss * cb) + x1 * cb + x2 * cb + x3 * cb) by (nonlinear_arith)
        requires
            bb == -(m_ss) + x1 + x2 + x3,
    ;
    assert(m_ss * cb == -(2 * (m_ss * m_sst)) + 2 * (m_ss * m_sx1) + m_ss * m_sx2
        + 3 * (m_ss * m_sx3) + m_ss * m_tx1 + m_ss * m_tx2 - 2 * (m_ss * m_tx3) - 2 * (m_ss * y1)
        - 2 * (m_ss * y3)) by (nonlinear_arith)
        requires
            cb == -(2 * m_sst) + 2 * m_sx1 + m_sx2 + 3 * m_sx3 + m_tx1 + m_tx2 - 2 * m_tx3 - 2 * y1 - 2 * y3,
    ;
    assert(m_ss * m_sst == s * s * s * s * t) by (nonlinear_arith)
        requires
            m_ss == s * s,
            m_sst == s * s * t,
    ;
    assert(m_ss * m_sx1 == s * s * s * x1) by (nonlinear_arith)
        requires
            m_ss == s * s,
            m_sx1 == s * x1,
    ;
    assert(m_ss * m_sx2 == s * s * s * x2) by (nonlinear_arith)
        requires
            m_ss == s * s,
            m_sx2 == s * x2,
    ;
    assert(m_ss * m_sx3 == s * s * s * x3) by (nonlinear_arith)
        requires
            m_ss == s * s,
            m_sx3 == s * x3,
    ;
    assert(m_ss * m_tx1 == s * s * t * x1) by (nonlinear_arith)
        requires
            m_ss == s * s,
            m_tx1 == t * x1,
    ;
    assert(m_ss * m_tx2 == s * s * t * x2) by (nonlinear_arith)
        requires
            m_ss == s * s,
            m_tx2 == t * x2,
    ;
    assert(m_ss * m_tx3 == s * s * t * x3) by (nonlinear_arith)
        requires
            m_ss == s * s,
            m_tx3 == t * x3,
    ;
    assert(x1 * cb == -(2 * (x1 * m_sst)) + 2 * (x1 * m_sx1) + x1 * m_sx2 + 3 * (x1 * m_sx3)
        + x1 * m_tx1 + x1 * m_tx2 - 2 * (x1 * m_tx3) - 2 * (x1 * y1)
        - 2 * (x1 * y3)) by (nonlinear_arith)
        requires
            cb == -(2 * m_sst) + 2 * m_sx1 + m_sx2 + 3 * m_sx3 + m_tx1 + m_tx2 - 2 * m_tx3 - 2 * y1 - 2 * y3,
    ;
    assert(x1 * m_sst == s * s * t * x1) by (nonlinear_arith)
        requires
            m_sst == s * s * t,
    ;
    assert(x1 * m_sx3 == s * x1 * x3) by (nonlinear_arith)
        requires
            m_sx3 == s * x3,
    ;
    assert(x1 * m_tx1 == t * x1 * x1) by (nonlinear_arith)
        requires
            m_tx1 == t * x1,
    ;
    assert(x1 * m_tx2 == t * x1 * x2) by (nonlinear_arith)
        requires
            m_tx2 == t * x2,
    ;
    assert(x1 * m_tx3 == t * x1 * x3) by (nonlinear_arith)
        requires
            m_tx3 == t * x3,
    ;
    assert(x2 * cb == -(2 * (x2 * m_sst)) + 2 * (x2 * m_sx1) + x2 * m_sx2 + 3 * (x2 * m_sx3)
        + x2 * m_tx1 + x2 * m_tx2 - 2 * (x2 * m_tx3) - 2 * (x2 * y1)
        - 2 * (x2 * y3)) by (nonlinear_arith)
        requires
            cb == -(2 * m_sst) + 2 * m_sx1 + m_sx2 + 3 * m_sx3 + m_tx1 + m_tx2 - 2 * m_tx3 - 2 * y1 - 2 * y3,
    ;
    assert(x2 * m_sst == s * s * t * x2) by (nonlinear_arith)
        requires
            m_sst == s * s * t,
    ;
    assert(x2 * m_sx3 == s * x2 * x3) by (nonlinear_arith)
        requires
            m_sx3 == s * x3,
    ;
    assert(x2 * m_tx1 == t * x1 * x2) by (nonlinear_arith)
        requires
            m_tx1 == t * x1,
    ;
    assert(x2 * m_tx2 == t * x2 * x2) by (nonlinear_arith)
        requires
            m_tx2 == t * x2,
    ;
    assert(x2 * m_tx3 == t * x2 * x3) by (nonlinear_arith)
        requires
            m_tx3 == t * x3,
    ;
    assert(x3 * cb == -(2 * (x3 * m_sst)) + 2 * (x3 * m_sx1) + x3 * m_sx2 + 3 * (x3 * m_sx3)
        + x3 * m_tx1 + x3 * m_tx2 - 2 * (x3 * m_tx3) - 2 * (x3 * y1)
        - 2 * (x3 * y3)) by (nonlinear_arith)
        requires
            cb == -(2 * m_sst) + 2 * m_sx1 + m_sx2 + 3 * m_sx3 + m_tx1 + m_tx2 - 2 * m_tx3 - 2 * y1 - 2 * y3,
    ;
    assert(x3 * m_sst == s * s * t * x3) by (nonlinear_arith)
        requires
            m_sst == s * s * t,
    ;
    assert(x3 * m_sx3 == s * x3 * x3) by (nonlinear_arith)
        requires
            m_sx3 == s * x3,
    ;
    assert(x3 * m_tx1 == t * x1 * x3) by (nonlinear_arith)
        requires
            m_tx1 == t * x1,
    ;
    assert(x3 * m_tx2 == t * x2 * x3) by (nonlinear_arith)
        requires
            m_tx2 == t * x2,
    ;
    assert(x3 * m_tx3 == t * x3 * x3) by (nonlinear_arith)
        requires
            m_tx3 == t * x3,
    ;
    assert(cb * bb == 2 * (s * s * s * s * t) - 2 * (s * s * s * x1) - s * s * s * x2
        - 3 * (s * s * s * x3) - 3 * (s * s * t * x1) - 3 * (s * s * t * x2) + 2 * (s * s * y1)
        + 2 * (s * s * y3) + 2 * (s * x1 * x1) + 3 * (s * x1 * x2) + 5 * (s * x1 * x3) + s * x2 * x2
        + 4 * (s * x2 * x3) + 3 * (s * x3 * x3) + t * x1 * x1 + 2 * (t * x1 * x2) - t * x1 * x3
        + t * x2 * x2 - t * x2 * x3 - 2 * (t * x3 * x3) - 2 * (x1 * y1) - 2 * (x1 * y3)
        - 2 * (x2 * y1) - 2 * (x2 * y3) - 2 * (x3 * y1) - 2 * (x3 * y3));
    assert(dx * ll == -(x1 * m_sx1) + x1 * m_sx2 - x1 * m_tx2 + x1 * m_tx3 + x1 * y1 - x1 * y3
        + x3 * m_sx1 - x3 * m_sx2 + x3 * m_tx2 - x3 * m_tx3 - x3 * y1
        + x3 * y3) by (nonlinear_arith)
        requires
            dx == -(x1) + x3,
            ll == m_sx1 - m_sx2 + m_tx2 - m_tx3 - y1 + y3,
    ;
    assert(dx * ll == -(s * x1 * x1) + s * x1 * x2 + s * x1 * x3 - s * x2 * x3 - t * x1 * x2
        + t * x1 * x3 + t * x2 * x3 - t * x3 * x3 + x1 * y1 - x1 * y3 - x3 * y1 + x3 * y3);
    let m_ssx1 = s * s * x1;
    let m_ssx2 = s * s * x2;
    let m_sy1 = s * y1;
    let m_x1x1 = x1 * x1;
    let m_x1x2 = x1 * x2;
    let m_x2x2 = x2 * x2;
    assert(ds * g1 == -(s * m_ssx1) + s * m_ssx2 + 2 * (s * m_sy1) - s * m_x1x1 - s * m_x1x2
        - s * m_x2x2 - s * a + t * m_ssx1 - t * m_ssx2 - 2 * (t * m_sy1) + t * m_x1x1 + t * m_x1x2
        + t * m_x2x2 + t * a) by (nonlinear_arith)
        requires
            ds == s - t,
            g1 == -(m_ssx1) + m_ssx2 + 2 * m_sy1 - m_x1x1 - m_x1x2 - m_x2x2 - a,
    ;
    assert(s * m_ssx1 == s * s * s * x1) by (nonlinear_arith)
        requires
            m_ssx1 == s * s * x1,
    ;
    assert(s * m_ssx2 == s * s * s * x2) by (nonlinear_arith)
        requires
            m_ssx2 == s * s * x2,
    ;
    assert(s * m_sy1 == s * s * y1) by (nonlinear_arith)
        requires
            m_sy1 == s * y1,
    ;
    assert(s * m_x1x1 == s * x1 * x1) by (nonlinear_arith)
        requires
            m_x1x1 == x1 * x1,
    ;
    assert(s * m_x1x2 == s * x1 * x2) by (nonlinear_arith)
        requires
            m_x1x2 == x1 * x2,
    ;
    assert(s * m_x2x2 == s * x2 * x2) by (nonlinear_arith)
        requires
            m_x2x2 == x2 * x2,
    ;
    assert(t * m_ssx1 == s * s * t * x1) by (nonlinear_arith)
        requires
            m_ssx1 == s * s * x1,
    ;
    assert(t * m_ssx2 == s * s * t * x2) by (nonlinear_arith)
        requires
            m_ssx2 == s * s * x2,
    ;
    assert(t * m_sy1 == s * t * y1) by (nonlinear_arith)
        requires
            m_sy1 == s * y1,
    ;
    assert(t * m_x1x1 == t * x1 * x1) by (nonlinear_arith)
        requires
            m_x1x1 == x1 * x1,
    ;
    assert(t * m_x1x2 == t * x1 * x2) by (nonlinear_arith)
        requires
            m_x1x2 == x1 * x2,
    ;
    assert(t * m_x2x2 == t * x2 * x2) by (nonlinear_arith)
        requires
            m_x2x2 == x2 * x2,
    ;
    assert(ds * g1 == -(s * s * s * x1) + s * s * s * x2 + s * s * t * x1 - s * s * t * x2
        + 2 * (s * s * y1) - 2 * (s * t * y1) - s * x1 * x1 - s * x1 * x2 - s * x2 * x2 - s * a
        + t * x1 * x1 + t * x1 * x2 + t * x2 * x2 + t * a);
    assert(ds * curve - 2 * (y3 * al) == ca * aa + cb * bb + dx * ll + (-1) * (ds * g1));
    // the two paths and the two gaps are multiples of p, and so is their
    // combination
    lemma_mod_zero_combination(l1, l3, 1, p);
    assert(l1 + 1 * l3 == ll);
    lemma_mod_zero_combination4(aa, ca, bb, cb, ll, dx, g1, -ds, p);
    assert((-ds) * g1 == (-1) * (ds * g1)) by (nonlinear_arith);
    let rest = ds * curve - 2 * (y3 * al);
    assert(rest % p == 0);
    assert((2 * y3) * (g * ds - al) == rest + ds * tangent) by (nonlinear_arith)
        requires
            rest == ds * curve - 2 * (y3 * al),
            tangent == g * (2 * y3) - curve,
    ;
    lemma_mod_zero_combination(rest, tangent, ds, p);
    lemma_euclid(p, 2 * y3, g * ds - al);
}

/// What two lines that share their middle point leave between their far
/// ends: the sum of their rise defects.
pub open spec fn path_defect(s: int, t: int, x1: int, y1: int, x2: int, x3: int, y3: int) -> int {
    s * x1 - s * x2 + t * x2 - t * x3 - y1 + y3
}

/// The abscissa of the sum of three points, added along the slope `s` and
/// then along the slope `g`.
pub open spec fn sum_x(g: int, s: int, x1: int, x2: int, x3: int) -> int {
    g * g - s * s + x1 + x2 - x3
}

/// The ordinate of the sum of three points, added along the slope `s` and
/// then along the slope `g`, reckoned from the third point.
pub open spec fn sum_y(g: int, s: int, x1: int, x2: int, x3: int, y3: int) -> int {
    g * (x3 - sum_x(g, s, x1, x2, x3)) - y3
}

/// A polynomial identity behind the agreement of the ordinates.
#[verifier::rlimit(40)]
proof fn lemma_path_identity(s: int, t: int, x1: int, y1: int, x2: int, x3: int, y3: int)
    ensures
        ({
            let al = turn(s, t, x1, x3);
            let alp = turn(t, s, x3, x1);
            let ds = s - t;
            al * x3 + alp * x1 + al * al - (ds * ds) * (s * s - x1 - x2 + x3) - ds * (y3 - y1) == -(ds
                * path_defect(s, t, x1, y1, x2, x3, y3))
        }),
{
    let al = turn(s, t, x1, x3);
    let alp = turn(t, s, x3, x1);
    let ds = s - t;
    let dd = ds * ds;
    let path = path_defect(s, t, x1, y1, x2, x3, y3);
    let ux = s * s - x1 - x2 + x3;
    let dy = y3 - y1;
    // both sides as sums of monomials
    assert(ds * ds == s * s - s * t - t * s + t * t) by (nonlinear_arith)
        requires
            ds == s - t,
    ;
    assert(t * s == s * t) by (nonlinear_arith);
    assert(ds * ds == s * s - 2 * (s * t) + t * t);
    let m_ss = s * s;
    let m_st = s * t;
    assert(al * x3 == -(m_ss * x3) + m_st * x3 + x1 * x3 - x3 * x3) by (nonlinear_arith)
        requires
            al == -(m_ss) + m_st + x1 - x3,
    ;
    assert(al * x3 == -(s * s * x3) + s * t * x3 + x1 * x3 - x3 * x3);
    let m_tt = t * t;
    assert(alp * x1 == m_st * x1 - m_tt * x1 - x1 * x1 + x3 * x1) by (nonlinear_arith)
        requires
            alp == m_st - m_tt - x1 + x3,
    ;
    assert(x3 * x1 == x1 * x3) by (nonlinear_arith);
    assert(alp * x1 == s * t * x1 - t * t * x1 - x1 * x1 + x1 * x3);
    assert(al * al == m_ss * m_ss - m_ss * m_st - m_ss * x1 + m_ss * x3 - m_st * m_ss + m_st * m_st
        + m_st * x1 - m_st * x3 - x1 * m_ss + x1 * m_st + x1 * x1 - x1 * x3 + x3 * m_ss - x3 * m_st
        - x3 * x1 + x3 * x3) by (nonlinear_arith)
        requires
            al == -(m_ss) + m_st + x1 - x3,
    ;
    assert(m_ss * m_ss == s * s * s * s) by (nonlinear_arith)
        requires
            m_ss == s * s,
    ;
    assert(m_ss * m_st == s * s * s * t) by (nonlinear_arith)
        requires
            m_ss == s * s,
            m_st == s * t,
    ;
    assert(m_st * m_ss == s * s * s * t) by (nonlinear_arith)
        requires
            m_st == s * t,
            m_ss == s * s,
    ;
    assert(m_st * m_st == s * s * t * t) by (nonlinear_arith)
        requires
            m_st == s * t,
    ;
    assert(x1 * m_ss == s * s * x1) by (nonlinear_arith)
        requires
            m_ss == s * s,
    ;
    assert(x1 * m_st == s * t * x1) by (nonlinear_arith)
        requires
            m_st == s * t,
    ;
    assert(x3 * m_ss == s * s * x3) by (nonlinear_arith)
        requires
            m_ss == s * s,
    ;
    assert(x3 * m_st == s * t * x3) by (nonlinear_arith)
        requires
            m_st == s * t,
    ;
    assert(al * al == s * s * s * s - 2 * (s * s * s * t) + s * s * t * t - 2 * (s * s * x1)
        + 2 * (s * s * x3) + 2 * (s * t * x1) - 2 * (s * t * x3) + x1 * x1 - 2 * (x1 * x3)
        + x3 * x3);
    assert(dd * ux == m_ss * m_ss - m_ss * x1 - m_ss * x2 + m_ss * x3 - 2 * (m_st * m_ss)
        + 2 * (m_st * x1) + 2 * (m_st * x2) - 2 * (m_st * x3) + m_tt * m_ss - m_tt * x1 - m_tt * x2
        + m_tt * x3) by (nonlinear_arith)
        requires
            dd == m_ss - 2 * m_st + m_tt,
            ux == m_ss - x1 - x2 + x3,
    ;
    assert(m_tt * m_ss == s * s * t * t) by (nonlinear_arith)
        requires
            m_tt == t * t,
            m_ss == s * s,
    ;
    assert(dd * ux == s * s * s * s - 2 * (s * s * s * t) + s * s * t * t - s * s * x1 - s * s * x2
        + s * s * x3 + 2 * (s * t * x1) + 2 * (s * t * x2) - 2 * (s * t * x3) - t * t * x1
        - t * t * x2 + t * t * x3);
    assert(ds * dy == -(s * y1) + s * y3 + t * y1 - t * y3) by (nonlinear_arith)
        requires
            ds == s - t,
            dy == -(y1) + y3,
    ;
    assert(ds * dy == -(s * y1) + s * y3 + t * y1 - t * y3);
    let m_sx1 = s * x1;
    let m_sx2 = s * x2;
    let m_tx2 = t * x2;
    let m_tx3 = t * x3;
    assert(ds * path == s * m_sx1 - s * m_sx2 + s * m_tx2 - s * m_tx3 - s * y1 + s * y3 - t * m_sx1
        + t * m_sx2 - t * m_tx2 + t * m_tx3 + t * y1 - t * y3) by (nonlinear_arith)
        requires
            ds == s - t,
            path == m_sx1 - m_sx2 + m_tx2 - m_tx3 - y1 + y3,
    ;
    assert(s * m_sx1 == s * s * x1) by (nonlinear_arith)
        requires
            m_sx1 == s * x1,
    ;
    assert(s * m_sx2 == s * s * x2) by (nonlinear_arith)
        requires
            m_sx2 == s * x2,
    ;
    assert(s * m_tx2 == s * t * x2) by (nonlinear_arith)
        requires
            m_tx2 == t * x2,
    ;
    assert(s * m_tx3 == s * t * x3) by (nonlinear_arith)
        requires
            m_tx3 == t * x3,
    ;
    assert(t * m_sx1 == s * t * x1) by (nonlinear_arith)
        requires
            m_sx1 == s * x1,
    ;
    assert(t * m_sx2 == s * t * x2) by (nonlinear_arith)
        requires
            m_sx2 == s * x2,
    ;
    assert(t * m_tx2 == t * t * x2) by (nonlinear_arith)
        requires
            m_tx2 == t * x2,
    ;
    assert(t * m_tx3 == t * t * x3) by (nonlinear_arith)
        requires
            m_tx3 == t * x3,
    ;
    assert(ds * path == s * s * x1 - s * s * x2 - s * t * x1 + 2 * (s * t * x2) - s * t * x3
        - s * y1 + s * y3 - t * t * x2 + t * t * x3 + t * y1 - t * y3);
    assert(al * x3 + alp * x1 + al * al - dd * ux - ds * dy == -(ds * path));
}

/// The two ways of adding three points arrive at the same point.
///
/// One way adds along the slope `s` and then along `g`, the other, taken
/// from the far end, along `t` and then along `h`. Each second slope is
/// given by `turn`, and the slopes `s` and `t` differ.
#[verifier::rlimit(40)]
pub proof fn lemma_sums_agree(
    p: int,
    g: int,
    h: int,
    s: int,
    t: int,
    x1: int,
    y1: int,
    x2: int,
    x3: int,
    y3: int,
)
    requires
        is_prime(p),
        (s - t) % p != 0,
        path_defect(s, t, x1, y1, x2, x3, y3) % p == 0,
        (g * (s - t) - turn(s, t, x1, x3)) % p == 0,
        (h * (t - s) - turn(t, s, x3, x1)) % p == 0,
    ensures
        (sum_x(g, s, x1, x2, x3) - sum_x(h, t, x3, x2, x1)) % p == 0,
        (sum_y(g, s, x1, x2, x3, y3) - sum_y(h, t, x3, x2, x1, y1)) % p == 0,
{
    let al = turn(s, t, x1, x3);
    let alp = turn(t, s, x3, x1);
    let ds = s - t;
    let dd = ds * ds;
    let gs = g * ds;
    let hs = h * (t - s);
    let ra = gs - al;
    let rap = hs - alp;
    let u5 = sum_x(g, s, x1, x2, x3);
    let u5p = sum_x(h, t, x3, x2, x1);
    let v5 = sum_y(g, s, x1, x2, x3, y3);
    let v5p = sum_y(h, t, x3, x2, x1, y1);
    let path = path_defect(s, t, x1, y1, x2, x3, y3);
    let e = al - alp;
    let gg = g * g;
    let hh = h * h;
    // the two turns add up to -(s - t)^2
    assert(dd == s * s - 2 * (s * t) + t * t) by (nonlinear_arith)
        requires
            dd == (s - t) * (s - t),
    ;
    assert(t * s == s * t) by (nonlinear_arith);
    assert(al + alp == -dd);
    // the abscissas
    assert(u5 - u5p == gg - hh + e);
    assert(dd * (gg - hh + e) == dd * gg - dd * hh + dd * e) by (nonlinear_arith);
    assert(dd * gg == gs * gs) by (nonlinear_arith)
        requires
            dd == ds * ds,
            gg == g * g,
            gs == g * ds,
    ;
    assert(dd * hh == hs * hs) by (nonlinear_arith)
        requires
            dd == ds * ds,
            hh == h * h,
            hs == h * (t - s),
            ds == s - t,
    ;
    assert((gs + al) * ra == gs * gs - al * al) by (nonlinear_arith)
        requires
            ra == gs - al,
    ;
    assert((hs + alp) * rap == hs * hs - alp * alp) by (nonlinear_arith)
        requires
            rap == hs - alp,
    ;
    assert(al * al - alp * alp + dd * e == 0) by (nonlinear_arith)
        requires
            e == al - alp,
            al + alp == -dd,
    ;
    lemma_mod_of_residue(0, p);
    lemma_mod_zero_combination(0, ra, gs + al, p);
    lemma_mod_zero_combination(0 + (gs + al) * ra, rap, -(hs + alp), p);
    assert((-(hs + alp)) * rap == -((hs + alp) * rap)) by (nonlinear_arith);
    assert(dd * (u5 - u5p) == 0 + (gs + al) * ra + (-(hs + alp)) * rap);
    assert(dd * (u5 - u5p) == ds * (ds * (u5 - u5p))) by (nonlinear_arith)
        requires
            dd == ds * ds,
    ;
    lemma_euclid(p, ds, ds * (u5 - u5p));
    lemma_euclid(p, ds, u5 - u5p);
    // the ordinates
    let back = x3 - u5;
    let backp = x1 - u5p;
    assert(ds * (v5 - v5p) == gs * back + hs * backp - ds * (y3 - y1)) by (nonlinear_arith)
        requires
            v5 == g * back - y3,
            v5p == h * backp - y1,
            gs == g * ds,
            hs == h * (t - s),
            ds == s - t,
    ;
    assert(gs * back + hs * backp == back * ra + backp * rap + al * x3 + alp * x1 - (al + alp) * u5
        + alp * (u5 - u5p)) by (nonlinear_arith)
        requires
            ra == gs - al,
            rap == hs - alp,
            back == x3 - u5,
            backp == x1 - u5p,
    ;
    let ux = s * s - x1 - x2 + x3;
    assert(u5 == gg - ux);
    assert((al + alp) * u5 == -(gs * gs) + dd * ux) by (nonlinear_arith)
        requires
            al + alp == -dd,
            u5 == gg - ux,
            dd * gg == gs * gs,
    ;
    lemma_path_identity(s, t, x1, y1, x2, x3, y3);
    assert(ds * (v5 - v5p) == back * ra + backp * rap + alp * (u5 - u5p) + (gs + al) * ra + (-ds)
        * path) by (nonlinear_arith)
        requires
            ds * (v5 - v5p) == gs * back + hs * backp - ds * (y3 - y1),
            gs * back + hs * backp == back * ra + backp * rap + al * x3 + alp * x1 - (al + alp)
                * u5 + alp * (u5 - u5p),
            (al + alp) * u5 == -(gs * gs) + dd * ux,
            (gs + al) * ra == gs * gs - al * al,
            al * x3 + alp * x1 + al * al - dd * ux - ds * (y3 - y1) == -(ds * path),
    ;
    lemma_mod_zero_combination4(ra, back, rap, backp, u5 - u5p, alp, ra, gs + al, p);
    lemma_mod_zero_combination(
        back * ra + backp * rap + alp * (u5 - u5p) + (gs + al) * ra,
        path,
        -ds,
        p,
    );
    lemma_euclid(p, ds, v5 - v5p);
}

/// Where two lines that share their middle point have one slope, and the
/// sum along the first is not at the abscissa of the far end of the second,
/// the far end is the near end.
pub proof fn lemma_one_slope(
    p: int,
    s: int,
    t: int,
    x1: int,
    y1: int,
    x2: int,
    y2: int,
    x3: int,
    y3: int,
)
    requires
        is_prime(p),
        (s - t) % p == 0,
        rise_defect(s, x1, y1, x2, y2) % p == 0,
        rise_defect(t, x2, y2, x3, y3) % p == 0,
        ((s - t) * gap_y(s, x1, y1, x2, y3) - turn(s, t, x1, x3) * gap_x(s, x1, x2, x3)) % p == 0,
        gap_x(s, x1, x2, x3) % p != 0,
    ensures
        (x3 - x1) % p == 0,
        (y3 - y1) % p == 0,
{
    let l1 = rise_defect(s, x1, y1, x2, y2);
    let l3 = rise_defect(t, x2, y2, x3, y3);
    let aa = gap_y(s, x1, y1, x2, y3);
    let bb = gap_x(s, x1, x2, x3);
    let al = turn(s, t, x1, x3);
    let ds = s - t;
    let cross = ds * aa - al * bb;
    lemma_mod_of_residue(0, p);
    lemma_mod_zero_combination(0, ds, aa, p);
    assert(0 + aa * ds == ds * aa) by (nonlinear_arith);
    lemma_mod_zero_combination(ds * aa, cross, -1, p);
    assert(ds * aa + (-1) * cross == bb * al);
    lemma_euclid(p, bb, al);
    // turn is x1 - x3 less s times the difference of the slopes
    assert(x3 - x1 == (-1) * al + (-s) * ds) by (nonlinear_arith)
        requires
            al == -(s * s) + s * t + x1 - x3,
            ds == s - t,
    ;
    lemma_mod_zero_combination(0, al, -1, p);
    lemma_mod_zero_combination(0 + (-1) * al, ds, -s, p);
    // and the rise along both lines is s times the run
    let run = x3 - x1;
    let far = x3 - x2;
    assert(y3 - y1 == l1 + 1 * l3 + s * run + (-far) * ds) by (nonlinear_arith)
        requires
            l1 == s * x1 - s * x2 - y1 + y2,
            l3 == t * x2 - t * x3 - y2 + y3,
            run == x3 - x1,
            far == x3 - x2,
            ds == s - t,
    ;
    lemma_mod_zero_combination(l1, l3, 1, p);
    lemma_mod_zero_combination4(l1 + 1 * l3, 1, run, s, ds, -far, ds, 0, p);
}

/// The sum along a line is not the far end of a second line of the same
/// slope at a point of non-zero ordinate.
pub proof fn lemma_one_slope_at_sum(
    p: int,
    s: int,
    t: int,
    x1: int,
    y1: int,
    x2: int,
    y2: int,
    x3: int,
    y3: int,
)
    requires
        is_prime(p),
        (s - t) % p == 0,
        rise_defect(s, x1, y1, x2, y2) % p == 0,
        rise_defect(t, x2, y2, x3, y3) % p == 0,
        gap_x(s, x1, x2, x3) % p == 0,
        gap_y(s, x1, y1, x2, y3) % p == 0,
    ensures
        (2 * y3) % p == 0,
{
    let l1 = rise_defect(s, x1, y1, x2, y2);
    let l3 = rise_defect(t, x2, y2, x3, y3);
    let aa = gap_y(s, x1, y1, x2, y3);
    let bb = gap_x(s, x1, x2, x3);
    let ds = s - t;
    let far = x3 - x2;
    assert(2 * y3 == aa + 1 * l1 + 1 * l3 + s * bb + (-far) * ds) by (nonlinear_arith)
        requires
            l1 == s * x1 - s * x2 - y1 + y2,
            l3 == t * x2 - t * x3 - y2 + y3,
            aa == s * s * s - 2 * (s * x1) - s * x2 + y1 + y3,
            bb == -(s * s) + x1 + x2 + x3,
            far == x3 - x2,
            ds == s - t,
    ;
    lemma_mod_zero_combination(aa, l1, 1, p);
    lemma_mod_zero_combination4(aa + 1 * l1, 1, l3, 1, bb, s, ds, -far, p);
}

} // verus!
