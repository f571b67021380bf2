//! Curves over a field of prime order.
//!
//! Over such a field the chord and tangent constructions always land on the
//! curve again, so that addition refuses nothing but a doubling in the field
//! of two elements; the sum does not depend on the order of the summands;
//! and adding a point and then its inverse leads back to where one started.
//! The proofs work with the residues as integers: each relation between
//! field elements is a congruence modulo the prime, and each step is an
//! identity between integer polynomials.

use crate::ellipticcurvepoint::{
    chord_slope, identity, is_identity, lemma_add_inverse, lifted_point_add, point_add, point_neg,
    point_new, reflected_third_point, satisfies_equation, tangent_slope, well_formed, PointValue,
};
use crate::error::MathError;
use crate::fieldelement::{field_div, lemma_div_then_mul, FieldElement, FieldValue};
use crate::modular::DivInFiniteField;
use crate::number_theory::{
    congruent, lemma_congruent_add, lemma_congruent_difference, lemma_congruent_mul,
    lemma_congruent_reduced, lemma_congruent_residues, lemma_congruent_sub,
    lemma_mod_of_residue, lemma_mod_zero_combination, lemma_mod_zero_combination4,
};
use crate::primes::{is_prime, lemma_euclid};
use vstd::arithmetic::div_mod::{lemma_mod_add_multiples_vanish, lemma_mod_bound};
use vstd::prelude::*;

verus! {

/// What the curve equation leaves over at `(x, y)`: `y^2 - x^3 - a*x - b`.
pub open spec fn curve_residual(x: int, y: int, a: int, b: int) -> int {
    y * y - x * x * x - a * x - b
}

/// How far the line of slope `s` through `(x1, y1)` is from meeting the
/// curve at the abscissa `x1 - k` as well:
/// `s^2*k - 2*s*y1 + 3*x1^2 - 3*x1*k + k^2 + a`.
pub open spec fn line_defect(s: int, x1: int, y1: int, k: int, a: int) -> int {
    s * s * k - 2 * (s * y1) + 3 * (x1 * x1) - 3 * (x1 * k) + k * k + a
}

/// Moving along the line of slope `s` from `(x1, y1)` to the abscissa
/// `x1 - k`, and mirroring the ordinate, changes the residual of the curve
/// equation by `k` times the defect of the line.
pub proof fn lemma_residual_along_line(s: int, x1: int, y1: int, k: int, a: int, b: int)
    ensures
        curve_residual(x1 - k, s * k - y1, a, b) == curve_residual(x1, y1, a, b) + k * line_defect(
            s,
            x1,
            y1,
            k,
            a,
        ),
{
    let t = s * k;
    let u = s * s;
    let kk = k * k;
    let xx = x1 * x1;
    assert((t - y1) * (t - y1) == t * t - 2 * (t * y1) + y1 * y1) by (nonlinear_arith);
    assert(t * t == u * kk) by (nonlinear_arith)
        requires
            t == s * k,
            u == s * s,
            kk == k * k,
    ;
    assert(t * y1 == k * (s * y1)) by (nonlinear_arith)
        requires
            t == s * k,
    ;
    assert((x1 - k) * (x1 - k) == xx - 2 * (x1 * k) + kk) by (nonlinear_arith)
        requires
            xx == x1 * x1,
            kk == k * k,
    ;
    assert((xx - 2 * (x1 * k) + kk) * (x1 - k) == xx * x1 - 3 * (xx * k) + 3 * (x1 * kk) - kk * k)
        by (nonlinear_arith)
        requires
            xx == x1 * x1,
            kk == k * k,
    ;
    assert(a * (x1 - k) == a * x1 - a * k) by (nonlinear_arith);
    let m = line_defect(s, x1, y1, k, a);
    assert(k * m == u * kk - 2 * (k * (s * y1)) + 3 * (xx * k) - 3 * (x1 * kk) + kk * k + a * k)
        by (nonlinear_arith)
        requires
            m == u * k - 2 * (s * y1) + 3 * xx - 3 * (x1 * k) + kk + a,
            kk == k * k,
            xx == x1 * x1,
    ;
}

/// For the chord through two points of the curve whose abscissas differ by
/// `d`, `d` times the defect at `k = 2*x1 + x2 - s^2` combines the two curve
/// equations and the equation of the slope.
pub proof fn lemma_chord_defect(s: int, x1: int, y1: int, x2: int, y2: int, a: int, b: int)
    ensures
        (x2 - x1) * line_defect(s, x1, y1, 2 * x1 + x2 - s * s, a) == curve_residual(x1, y1, a, b)
            - curve_residual(x2, y2, a, b) - (s * (x2 - x1) + y1 + y2) * (s * (x2 - x1) - (y2
            - y1)),
{
    let d = x2 - x1;
    let u = s * s;
    let k = 2 * x1 + x2 - u;
    let t = s * d;
    let m = line_defect(s, x1, y1, k, a);
    // the defect, with k written out
    assert(u * k == 2 * (u * x1) + u * x2 - u * u) by (nonlinear_arith)
        requires
            k == 2 * x1 + x2 - u,
    ;
    assert(x1 * k == 2 * (x1 * x1) + x1 * x2 - u * x1) by (nonlinear_arith)
        requires
            k == 2 * x1 + x2 - u,
    ;
    assert(k * k == 4 * (x1 * x1) + 4 * (x1 * x2) + x2 * x2 - 4 * (u * x1) - 2 * (u * x2) + u * u)
        by (nonlinear_arith)
        requires
            k == 2 * x1 + x2 - u,
    ;
    assert(m == -(u * d) - 2 * (s * y1) + x1 * x1 + x1 * x2 + x2 * x2 + a) by (nonlinear_arith)
        requires
            m == u * k - 2 * (s * y1) + 3 * (x1 * x1) - 3 * (x1 * k) + k * k + a,
            u * k == 2 * (u * x1) + u * x2 - u * u,
            x1 * k == 2 * (x1 * x1) + x1 * x2 - u * x1,
            k * k == 4 * (x1 * x1) + 4 * (x1 * x2) + x2 * x2 - 4 * (u * x1) - 2 * (u * x2) + u * u,
            d == x2 - x1,
    ;
    // the product of the two factors of the slope equation
    assert((t + y1 + y2) * (t - (y2 - y1)) == t * t + 2 * (t * y1) - y2 * y2 + y1 * y1)
        by (nonlinear_arith);
    assert(t * t == d * (u * d)) by (nonlinear_arith)
        requires
            t == s * d,
            u == s * s,
    ;
    assert(t * y1 == d * (s * y1)) by (nonlinear_arith)
        requires
            t == s * d,
    ;
    // the difference of the two cubes
    assert(x2 * x2 * x2 - x1 * x1 * x1 == d * (x1 * x1 + x1 * x2 + x2 * x2)) by (nonlinear_arith)
        requires
            d == x2 - x1,
    ;
    assert(a * x2 - a * x1 == d * a) by (nonlinear_arith)
        requires
            d == x2 - x1,
    ;
    assert(d * m == -(d * (u * d)) - 2 * (d * (s * y1)) + d * (x1 * x1 + x1 * x2 + x2 * x2) + d
        * a) by (nonlinear_arith)
        requires
            m == -(u * d) - 2 * (s * y1) + (x1 * x1 + x1 * x2 + x2 * x2) + a,
    ;
}

/// The line of slope `s` through two points of the curve, of abscissas
/// `x1` and `x2` that differ modulo the prime, meets the curve a third time
/// at `x3 = s^2 - x1 - x2`; with `y3 = s*(x1 - x3) - y1` the point
/// `(x3, y3)` is the mirror image of that third point and lies on the curve.
pub proof fn lemma_chord_lands_on_curve(
    p: int,
    s: int,
    x1: int,
    y1: int,
    x2: int,
    y2: int,
    a: int,
    b: int,
)
    requires
        is_prime(p),
        curve_residual(x1, y1, a, b) % p == 0,
        curve_residual(x2, y2, a, b) % p == 0,
        (x2 - x1) % p != 0,
        (s * (x2 - x1) - (y2 - y1)) % p == 0,
    ensures
        ({
            let x3 = s * s - x1 - x2;
            curve_residual(x3, s * (x1 - x3) - y1, a, b) % p == 0
        }),
{
    let k = 2 * x1 + x2 - s * s;
    let m = line_defect(s, x1, y1, k, a);
    let e1 = curve_residual(x1, y1, a, b);
    let e2 = curve_residual(x2, y2, a, b);
    let l = s * (x2 - x1) - (y2 - y1);
    lemma_chord_defect(s, x1, y1, x2, y2, a, b);
    lemma_mod_zero_combination4(e1, 1, e2, -1, l, -(s * (x2 - x1) + y1 + y2), e1, 0, p);
    assert((x2 - x1) * m == 1 * e1 + (-1) * e2 + (-(s * (x2 - x1) + y1 + y2)) * l + 0 * e1)
        by (nonlinear_arith)
        requires
            (x2 - x1) * m == e1 - e2 - (s * (x2 - x1) + y1 + y2) * l,
    ;
    lemma_euclid(p, x2 - x1, m);
    lemma_residual_along_line(s, x1, y1, k, a, b);
    lemma_mod_zero_combination(e1, m, k, p);
}

/// The tangent of slope `s` at a point of the curve meets the curve again
/// at `x3 = s^2 - 2*x1`; with `y3 = s*(x1 - x3) - y1` the point `(x3, y3)`
/// is the mirror image of that further point and lies on the curve.
pub proof fn lemma_tangent_lands_on_curve(p: int, s: int, x1: int, y1: int, a: int, b: int)
    requires
        0 < p,
        curve_residual(x1, y1, a, b) % p == 0,
        (s * (2 * y1) - (3 * (x1 * x1) + a)) % p == 0,
    ensures
        ({
            let x3 = s * s - 2 * x1;
            curve_residual(x3, s * (x1 - x3) - y1, a, b) % p == 0
        }),
{
    let u = s * s;
    let k = 3 * x1 - u;
    let m = line_defect(s, x1, y1, k, a);
    let h = s * (2 * y1) - (3 * (x1 * x1) + a);
    let e1 = curve_residual(x1, y1, a, b);
    assert(u * k - 3 * (x1 * k) + k * k == 0) by (nonlinear_arith)
        requires
            k == 3 * x1 - u,
    ;
    assert(s * (2 * y1) == 2 * (s * y1)) by (nonlinear_arith);
    assert(m == -h);
    lemma_residual_along_line(s, x1, y1, k, a, b);
    lemma_mod_zero_combination(e1, h, -k, p);
    assert(k * m == (-k) * h) by (nonlinear_arith)
        requires
            m == -h,
    ;
}

/// A residue of the field of `p` elements.
pub open spec fn in_field(v: FieldValue, p: int) -> bool {
    v.valid() && v.prime == p
}

/// A point whose coordinates and coefficients are residues of the field of
/// `p` elements.
pub open spec fn over_field(pt: PointValue<FieldValue>, p: int) -> bool {
    in_field(pt.x, p) && in_field(pt.y, p) && in_field(pt.a, p) && in_field(pt.b, p)
}

/// The residues of a point satisfy the curve equation modulo the prime.
pub open spec fn on_curve_mod(pt: PointValue<FieldValue>) -> bool {
    curve_residual(pt.x.num, pt.y.num, pt.a.num, pt.b.num) % pt.a.prime == 0
}

/// The residue `n` modulo `p`, as an element of the field.
pub open spec fn residue(n: int, p: int) -> FieldValue {
    FieldValue { num: n % p, prime: p }
}

/// The point that an addition along a line of slope `s` through `pt`
/// arrives at, when the other point on the line has abscissa `qx`.
pub open spec fn third_point(s: FieldValue, pt: PointValue<FieldValue>, qx: FieldValue) -> PointValue<
    FieldValue,
> {
    let p = pt.a.prime;
    let x3 = residue(s.num * s.num - pt.x.num - qx.num, p);
    let y3 = residue(s.num * (pt.x.num - x3.num) - pt.y.num, p);
    PointValue { x: x3, y: y3, a: pt.a, b: pt.b }
}

/// Congruent coordinates leave congruent residuals.
pub proof fn lemma_residual_congruent(
    x: int,
    x2: int,
    y: int,
    y2: int,
    a: int,
    b: int,
    p: int,
)
    requires
        0 < p,
        congruent(x, x2, p),
        congruent(y, y2, p),
    ensures
        congruent(curve_residual(x, y, a, b), curve_residual(x2, y2, a, b), p),
{
    lemma_congruent_mul(y, y2, y, y2, p);
    lemma_congruent_mul(x, x2, x, x2, p);
    lemma_congruent_mul(x * x, x2 * x2, x, x2, p);
    lemma_congruent_mul(a, a, x, x2, p);
    lemma_congruent_sub(y * y, y2 * y2, x * x * x, x2 * x2 * x2, p);
    lemma_congruent_sub(y * y - x * x * x, y2 * y2 - x2 * x2 * x2, a * x, a * x2, p);
    lemma_congruent_sub(
        y * y - x * x * x - a * x,
        y2 * y2 - x2 * x2 * x2 - a * x2,
        b,
        b,
        p,
    );
}

/// Over a field, the curve equation in field arithmetic holds exactly when
/// the residues satisfy it modulo the prime.
pub proof fn lemma_equation_in_field<T: DivInFiniteField>(pt: PointValue<FieldValue>, p: int)
    requires
        over_field(pt, p),
    ensures
        satisfies_equation::<FieldElement<T>>(pt) == Ok::<bool, MathError>(on_curve_mod(pt)),
{
    let x = pt.x.num;
    let y = pt.y.num;
    let a = pt.a.num;
    let b = pt.b.num;
    let square = (x * x) % p;
    let cube = (square * x) % p;
    let linear = (a * x) % p;
    let sum = (cube + linear) % p;
    let right = (sum + b) % p;
    lemma_congruent_reduced(x * x, p);
    lemma_congruent_mul(square, x * x, x, x, p);
    lemma_congruent_reduced(square * x, p);
    lemma_congruent_reduced(a * x, p);
    lemma_congruent_add(cube, x * x * x, linear, a * x, p);
    lemma_congruent_reduced(cube + linear, p);
    lemma_congruent_add(sum, x * x * x + a * x, b, b, p);
    lemma_congruent_reduced(sum + b, p);
    lemma_congruent_reduced(y * y, p);
    lemma_mod_bound(y * y, p);
    lemma_mod_bound(sum + b, p);
    lemma_congruent_difference(y * y, x * x * x + a * x + b, p);
    if congruent(y * y, x * x * x + a * x + b, p) {
        lemma_congruent_residues((y * y) % p, right, p);
    }
}

/// The coordinates that an addition along a line arrives at.
pub proof fn lemma_third_point_in_field<T: DivInFiniteField>(
    s: FieldValue,
    pt: PointValue<FieldValue>,
    qx: FieldValue,
    p: int,
)
    requires
        in_field(s, p),
        over_field(pt, p),
        in_field(qx, p),
    ensures
        reflected_third_point::<FieldElement<T>>(Ok(s), pt, qx) == point_new::<FieldElement<T>>(
            third_point(s, pt, qx),
        ),
        over_field(third_point(s, pt, qx), p),
        congruent(third_point(s, pt, qx).x.num, s.num * s.num - pt.x.num - qx.num, p),
        congruent(
            third_point(s, pt, qx).y.num,
            s.num * (pt.x.num - (s.num * s.num - pt.x.num - qx.num)) - pt.y.num,
            p,
        ),
{
    let x1 = pt.x.num;
    let y1 = pt.y.num;
    let x2 = qx.num;
    let sn = s.num;
    // the abscissa
    let square = (sn * sn) % p;
    let first = (square - x1) % p;
    let x3 = (first - x2) % p;
    lemma_congruent_reduced(sn * sn, p);
    lemma_congruent_sub(square, sn * sn, x1, x1, p);
    lemma_congruent_reduced(square - x1, p);
    lemma_congruent_sub(first, sn * sn - x1, x2, x2, p);
    lemma_congruent_reduced(first - x2, p);
    lemma_congruent_reduced(sn * sn - x1 - x2, p);
    lemma_mod_bound(sn * sn, p);
    lemma_mod_bound(square - x1, p);
    lemma_mod_bound(first - x2, p);
    lemma_mod_bound(sn * sn - x1 - x2, p);
    lemma_congruent_residues(x3, (sn * sn - x1 - x2) % p, p);
    // the ordinate
    let back = (x1 - x3) % p;
    let climb = (sn * back) % p;
    let y3 = (climb - y1) % p;
    lemma_congruent_reduced(x1 - x3, p);
    lemma_congruent_mul(sn, sn, back, x1 - x3, p);
    lemma_congruent_reduced(sn * back, p);
    lemma_congruent_sub(climb, sn * (x1 - x3), y1, y1, p);
    lemma_congruent_reduced(climb - y1, p);
    lemma_congruent_reduced(sn * (x1 - x3) - y1, p);
    lemma_mod_bound(x1 - x3, p);
    lemma_mod_bound(sn * back, p);
    lemma_mod_bound(climb - y1, p);
    lemma_mod_bound(sn * (x1 - x3) - y1, p);
    lemma_congruent_residues(y3, (sn * (x1 - x3) - y1) % p, p);
    // with the abscissa before its reduction
    let x3_full = sn * sn - x1 - x2;
    lemma_congruent_sub(x1, x1, x3, x3_full, p);
    lemma_congruent_mul(sn, sn, x1 - x3, x1 - x3_full, p);
    lemma_congruent_sub(sn * (x1 - x3), sn * (x1 - x3_full), y1, y1, p);
}

/// Over a prime field, the chord through two points of different abscissa
/// has a slope, and the slope satisfies the equation of the chord.
pub proof fn lemma_chord_slope_in_field<T: DivInFiniteField>(
    pt: PointValue<FieldValue>,
    qt: PointValue<FieldValue>,
    p: int,
)
    requires
        is_prime(p),
        over_field(pt, p),
        over_field(qt, p),
        pt.x != qt.x,
    ensures
        chord_slope::<FieldElement<T>>(pt, qt) is Ok,
        in_field(chord_slope::<FieldElement<T>>(pt, qt)->Ok_0, p),
        (qt.x.num - pt.x.num) % p != 0,
        (chord_slope::<FieldElement<T>>(pt, qt)->Ok_0.num * (qt.x.num - pt.x.num) - (qt.y.num
            - pt.y.num)) % p == 0,
{
    let rise = residue(qt.y.num - pt.y.num, p);
    let run = residue(qt.x.num - pt.x.num, p);
    lemma_mod_bound(qt.y.num - pt.y.num, p);
    lemma_mod_bound(qt.x.num - pt.x.num, p);
    if run.num == 0 {
        lemma_congruent_difference(qt.x.num, pt.x.num, p);
        lemma_congruent_residues(qt.x.num, pt.x.num, p);
    }
    lemma_div_then_mul(rise, run);
    let slope = field_div(rise, run)->Ok_0;
    lemma_mod_bound(rise.num * vstd::arithmetic::power::pow(run.num, (p - 2) as nat), p);
    // slope * run is the rise, and run and rise are the two differences
    lemma_mod_of_residue(rise.num, p);
    lemma_congruent_reduced(slope.num * run.num, p);
    lemma_congruent_reduced(qt.x.num - pt.x.num, p);
    lemma_congruent_reduced(qt.y.num - pt.y.num, p);
    lemma_congruent_mul(slope.num, slope.num, run.num, qt.x.num - pt.x.num, p);
    lemma_congruent_difference(
        slope.num * (qt.x.num - pt.x.num),
        qt.y.num - pt.y.num,
        p,
    );
}

/// Twice a non-zero residue is not zero modulo an odd prime.
pub proof fn lemma_double_is_not_zero(y: int, p: int)
    requires
        is_prime(p),
        p != 2,
        0 < y < p,
    ensures
        (y + y) % p != 0,
{
    if (y + y) % p == 0 {
        assert(2 * y == y + y);
        lemma_euclid(p, 2, y);
        lemma_mod_of_residue(2, p);
        lemma_mod_of_residue(y, p);
    }
}

/// Over a field of odd prime order, the tangent at a point of non-zero
/// ordinate has a slope, and the slope satisfies the equation of the
/// tangent.
pub proof fn lemma_tangent_slope_in_field<T: DivInFiniteField>(
    pt: PointValue<FieldValue>,
    p: int,
)
    requires
        is_prime(p),
        p != 2,
        over_field(pt, p),
        pt.y.num != 0,
    ensures
        tangent_slope::<FieldElement<T>>(pt) is Ok,
        in_field(tangent_slope::<FieldElement<T>>(pt)->Ok_0, p),
        (tangent_slope::<FieldElement<T>>(pt)->Ok_0.num * (2 * pt.y.num) - (3 * (pt.x.num
            * pt.x.num) + pt.a.num)) % p == 0,
{
    let x = pt.x.num;
    let y = pt.y.num;
    let a = pt.a.num;
    let square = (x * x) % p;
    let twice = (square + square) % p;
    let thrice = (twice + square) % p;
    let numerator = residue(thrice + a, p);
    let denominator = residue(y + y, p);
    lemma_mod_bound(x * x, p);
    lemma_mod_bound(square + square, p);
    lemma_mod_bound(twice + square, p);
    lemma_mod_bound(thrice + a, p);
    lemma_mod_bound(y + y, p);
    lemma_double_is_not_zero(y, p);
    lemma_div_then_mul(numerator, denominator);
    let slope = field_div(numerator, denominator)->Ok_0;
    lemma_mod_bound(
        numerator.num * vstd::arithmetic::power::pow(denominator.num, (p - 2) as nat),
        p,
    );
    // the numerator is 3*x^2 + a, the denominator 2*y
    lemma_congruent_reduced(x * x, p);
    lemma_congruent_add(square, x * x, square, x * x, p);
    lemma_congruent_reduced(square + square, p);
    lemma_congruent_add(twice, x * x + x * x, square, x * x, p);
    lemma_congruent_reduced(twice + square, p);
    lemma_congruent_add(thrice, x * x + x * x + x * x, a, a, p);
    lemma_congruent_reduced(thrice + a, p);
    lemma_congruent_reduced(y + y, p);
    lemma_mod_of_residue(numerator.num, p);
    lemma_congruent_reduced(slope.num * denominator.num, p);
    lemma_congruent_mul(slope.num, slope.num, denominator.num, 2 * y, p);
    lemma_congruent_difference(slope.num * (2 * y), 3 * (x * x) + a, p);
}

/// In the field of two elements twice anything is zero, so the tangent at
/// a point of non-zero ordinate has no slope.
pub proof fn lemma_tangent_slope_in_field_of_two<T: DivInFiniteField>(pt: PointValue<FieldValue>)
    requires
        over_field(pt, 2),
        pt.y.num != 0,
    ensures
        tangent_slope::<FieldElement<T>>(pt) == Err::<FieldValue, MathError>(
            MathError::DivisionByZeroError,
        ),
{
    assert(pt.y.num == 1);
    assert((1 + 1) % 2 == 0int);
}

/// A well-formed point over a field is the identity or satisfies the curve
/// equation modulo the prime.
pub proof fn lemma_well_formed_in_field<T: DivInFiniteField>(pt: PointValue<FieldValue>, p: int)
    requires
        over_field(pt, p),
    ensures
        well_formed::<FieldElement<T>>(pt) <==> is_identity::<FieldElement<T>>(pt) || on_curve_mod(
            pt,
        ),
{
    lemma_equation_in_field::<T>(pt, p);
}

/// An addition along a line whose slope satisfies the chord equation
/// arrives at a point of the curve.
pub proof fn lemma_chord_arrives<T: DivInFiniteField>(
    s: FieldValue,
    pt: PointValue<FieldValue>,
    qt: PointValue<FieldValue>,
    p: int,
)
    requires
        is_prime(p),
        in_field(s, p),
        over_field(pt, p),
        over_field(qt, p),
        pt.a == qt.a,
        pt.b == qt.b,
        on_curve_mod(pt),
        on_curve_mod(qt),
        (qt.x.num - pt.x.num) % p != 0,
        (s.num * (qt.x.num - pt.x.num) - (qt.y.num - pt.y.num)) % p == 0,
    ensures
        on_curve_mod(third_point(s, pt, qt.x)),
        reflected_third_point::<FieldElement<T>>(Ok(s), pt, qt.x) == Ok::<
            PointValue<FieldValue>,
            MathError,
        >(third_point(s, pt, qt.x)),
{
    let r = third_point(s, pt, qt.x);
    let x3 = s.num * s.num - pt.x.num - qt.x.num;
    let y3 = s.num * (pt.x.num - x3) - pt.y.num;
    lemma_third_point_in_field::<T>(s, pt, qt.x, p);
    lemma_chord_lands_on_curve(
        p,
        s.num,
        pt.x.num,
        pt.y.num,
        qt.x.num,
        qt.y.num,
        pt.a.num,
        pt.b.num,
    );
    lemma_residual_congruent(r.x.num, x3, r.y.num, y3, pt.a.num, pt.b.num, p);
    lemma_equation_in_field::<T>(r, p);
}

/// An addition along a line whose slope satisfies the tangent equation
/// arrives at a point of the curve.
pub proof fn lemma_tangent_arrives<T: DivInFiniteField>(
    s: FieldValue,
    pt: PointValue<FieldValue>,
    p: int,
)
    requires
        0 < p,
        in_field(s, p),
        over_field(pt, p),
        on_curve_mod(pt),
        (s.num * (2 * pt.y.num) - (3 * (pt.x.num * pt.x.num) + pt.a.num)) % p == 0,
    ensures
        on_curve_mod(third_point(s, pt, pt.x)),
        reflected_third_point::<FieldElement<T>>(Ok(s), pt, pt.x) == Ok::<
            PointValue<FieldValue>,
            MathError,
        >(third_point(s, pt, pt.x)),
{
    let r = third_point(s, pt, pt.x);
    let x3 = s.num * s.num - 2 * pt.x.num;
    let y3 = s.num * (pt.x.num - x3) - pt.y.num;
    lemma_third_point_in_field::<T>(s, pt, pt.x, p);
    lemma_tangent_lands_on_curve(p, s.num, pt.x.num, pt.y.num, pt.a.num, pt.b.num);
    lemma_residual_congruent(r.x.num, x3, r.y.num, y3, pt.a.num, pt.b.num, p);
    lemma_equation_in_field::<T>(r, p);
}

/// Over a field of prime order, two well-formed points of one curve always
/// have a sum, and the sum is again a well-formed point over the field.
/// The one exception is the field of two elements, where a point of
/// non-zero ordinate cannot be doubled: its tangent has no slope.
pub proof fn lemma_add_in_prime_field<T: DivInFiniteField>(
    pt: PointValue<FieldValue>,
    qt: PointValue<FieldValue>,
    p: int,
)
    requires
        is_prime(p),
        over_field(pt, p),
        over_field(qt, p),
        well_formed::<FieldElement<T>>(pt),
        well_formed::<FieldElement<T>>(qt),
        pt.a == qt.a,
        pt.b == qt.b,
    ensures
        if p == 2 && pt == qt && !is_identity::<FieldElement<T>>(pt) && pt.y.num != 0 {
            point_add::<FieldElement<T>>(pt, qt) == Err::<PointValue<FieldValue>, MathError>(
                MathError::DivisionByZeroError,
            )
        } else {
            &&& point_add::<FieldElement<T>>(pt, qt) is Ok
            &&& over_field(point_add::<FieldElement<T>>(pt, qt)->Ok_0, p)
            &&& well_formed::<FieldElement<T>>(point_add::<FieldElement<T>>(pt, qt)->Ok_0)
        },
{
    lemma_well_formed_in_field::<T>(pt, p);
    lemma_well_formed_in_field::<T>(qt, p);
    if is_identity::<FieldElement<T>>(pt) || is_identity::<FieldElement<T>>(qt) {
    } else if pt.x != qt.x {
        lemma_chord_slope_in_field::<T>(pt, qt, p);
        let s = chord_slope::<FieldElement<T>>(pt, qt)->Ok_0;
        lemma_chord_arrives::<T>(s, pt, qt, p);
        lemma_third_point_in_field::<T>(s, pt, qt.x, p);
        lemma_well_formed_in_field::<T>(third_point(s, pt, qt.x), p);
    } else if pt.y != qt.y || pt.y.num == 0 {
        lemma_mod_of_residue(0, p);
    } else if p == 2 {
        lemma_tangent_slope_in_field_of_two::<T>(pt);
    } else {
        lemma_tangent_slope_in_field::<T>(pt, p);
        let s = tangent_slope::<FieldElement<T>>(pt)->Ok_0;
        lemma_tangent_arrives::<T>(s, pt, p);
        lemma_third_point_in_field::<T>(s, pt, pt.x, p);
        lemma_well_formed_in_field::<T>(third_point(s, pt, pt.x), p);
    }
}

/// The slope of a chord does not depend on the end from which it is taken.
pub proof fn lemma_chord_slope_symmetric<T: DivInFiniteField>(
    pt: PointValue<FieldValue>,
    qt: PointValue<FieldValue>,
    p: int,
)
    requires
        is_prime(p),
        over_field(pt, p),
        over_field(qt, p),
        pt.x != qt.x,
    ensures
        chord_slope::<FieldElement<T>>(pt, qt) == chord_slope::<FieldElement<T>>(qt, pt),
{
    lemma_chord_slope_in_field::<T>(pt, qt, p);
    lemma_chord_slope_in_field::<T>(qt, pt, p);
    let s = chord_slope::<FieldElement<T>>(pt, qt)->Ok_0;
    let t = chord_slope::<FieldElement<T>>(qt, pt)->Ok_0;
    let d = qt.x.num - pt.x.num;
    let n = qt.y.num - pt.y.num;
    let forth = s.num * d - n;
    let back = t.num * (pt.x.num - qt.x.num) - (pt.y.num - qt.y.num);
    // (s - t) * d is the sum of the two chord equations
    assert(d * (s.num - t.num) == forth + 1 * back) by (nonlinear_arith)
        requires
            forth == s.num * d - n,
            back == t.num * (pt.x.num - qt.x.num) - (pt.y.num - qt.y.num),
            d == qt.x.num - pt.x.num,
            n == qt.y.num - pt.y.num,
    ;
    lemma_mod_zero_combination(forth, back, 1, p);
    lemma_euclid(p, d, s.num - t.num);
    lemma_congruent_difference(s.num, t.num, p);
    lemma_congruent_residues(s.num, t.num, p);
}

/// Over a field of prime order, the sum of two points of one curve does not
/// depend on their order.
pub proof fn lemma_add_commutative<T: DivInFiniteField>(
    pt: PointValue<FieldValue>,
    qt: PointValue<FieldValue>,
    p: int,
)
    requires
        is_prime(p),
        over_field(pt, p),
        over_field(qt, p),
        pt.a == qt.a,
        pt.b == qt.b,
    ensures
        point_add::<FieldElement<T>>(pt, qt) == point_add::<FieldElement<T>>(qt, pt),
{
    if is_identity::<FieldElement<T>>(pt) || is_identity::<FieldElement<T>>(qt) {
    } else if pt.x != qt.x {
        lemma_chord_slope_symmetric::<T>(pt, qt, p);
        lemma_chord_slope_in_field::<T>(pt, qt, p);
        let s = chord_slope::<FieldElement<T>>(pt, qt)->Ok_0;
        lemma_third_point_in_field::<T>(s, pt, qt.x, p);
        lemma_third_point_in_field::<T>(s, qt, pt.x, p);
        let r = third_point(s, pt, qt.x);
        let r2 = third_point(s, qt, pt.x);
        let x3 = s.num * s.num - pt.x.num - qt.x.num;
        assert(s.num * s.num - qt.x.num - pt.x.num == x3);
        assert(r.x == r2.x);
        // the two ordinates differ by the chord equation
        let y3 = s.num * (pt.x.num - x3) - pt.y.num;
        let y3_back = s.num * (qt.x.num - x3) - qt.y.num;
        let chord = s.num * (qt.x.num - pt.x.num) - (qt.y.num - pt.y.num);
        assert(y3_back - y3 == chord) by (nonlinear_arith)
            requires
                y3 == s.num * (pt.x.num - x3) - pt.y.num,
                y3_back == s.num * (qt.x.num - x3) - qt.y.num,
                chord == s.num * (qt.x.num - pt.x.num) - (qt.y.num - pt.y.num),
        ;
        lemma_congruent_difference(y3_back, y3, p);
        lemma_congruent_residues(r2.y.num, r.y.num, p);
    } else {
    }
}

/// The inverse of a point over a field: its ordinate is negated modulo the
/// prime. It lies on the curve when the point does.
pub proof fn lemma_neg_in_field<T: DivInFiniteField>(pt: PointValue<FieldValue>, p: int)
    requires
        over_field(pt, p),
    ensures
        point_neg::<FieldElement<T>>(pt) == Ok::<PointValue<FieldValue>, MathError>(
            PointValue { x: pt.x, y: residue(-pt.y.num, p), a: pt.a, b: pt.b },
        ),
        over_field(point_neg::<FieldElement<T>>(pt)->Ok_0, p),
        on_curve_mod(pt) ==> on_curve_mod(point_neg::<FieldElement<T>>(pt)->Ok_0),
{
    let y = pt.y.num;
    let negated = (-y) % p;
    lemma_mod_bound(-y, p);
    lemma_congruent_reduced(-y, p);
    lemma_residual_congruent(pt.x.num, pt.x.num, negated, -y, pt.a.num, pt.b.num, p);
    assert((-y) * (-y) == y * y) by (nonlinear_arith);
}

/// Over a field, a point and its inverse add up to the identity, unless
/// the ordinate is half the modulus: such an ordinate is its own negative
/// without being zero, so that the point is added to itself along its
/// tangent. Among the prime fields only that of two elements has one.
pub proof fn lemma_add_inverse_in_field<T: DivInFiniteField>(pt: PointValue<FieldValue>, p: int)
    requires
        over_field(pt, p),
        2 * pt.y.num != p,
    ensures
        point_neg::<FieldElement<T>>(pt) is Ok,
        point_add::<FieldElement<T>>(pt, point_neg::<FieldElement<T>>(pt)->Ok_0) == Ok::<
            PointValue<FieldValue>,
            MathError,
        >(identity::<FieldElement<T>>(pt.a, pt.b)),
{
    lemma_neg_in_field::<T>(pt, p);
    let y = pt.y.num;
    if y != 0 {
        // the negative of y is p - y
        lemma_mod_add_multiples_vanish(-y, p);
        lemma_mod_of_residue(p - y, p);
    }
    lemma_add_inverse::<FieldElement<T>>(pt);
}

/// The chord back from a sum to the inverse of one summand.
///
/// Let `(u, v)` be the sum of `(x1, y1)` and `(x2, y2)` along a chord of
/// slope `s`, and let `t` be the slope of the chord from `(u, v)` to
/// `(x2, n)` with `n = -y2`. Then `t = -s`, and that chord arrives at
/// `(x1, y1)`. All equalities are congruences modulo the prime.
pub proof fn lemma_chord_back(
    p: int,
    s: int,
    t: int,
    x1: int,
    y1: int,
    x2: int,
    y2: int,
    u: int,
    v: int,
    n: int,
)
    requires
        is_prime(p),
        (s * (x2 - x1) - (y2 - y1)) % p == 0,
        (u - (s * s - x1 - x2)) % p == 0,
        (v - (s * (x1 - (s * s - x1 - x2)) - y1)) % p == 0,
        (n + y2) % p == 0,
        (x2 - u) % p != 0,
        (t * (x2 - u) - (n - v)) % p == 0,
    ensures
        ({
            let x5 = t * t - u - x2;
            &&& (x5 - x1) % p == 0
            &&& (t * (u - x5) - v - y1) % p == 0
        }),
{
    let d = x2 - u;
    let x3 = s * s - x1 - x2;
    let y3 = s * (x1 - x3) - y1;
    let back = t * d - (n - v);
    let forth = s * (x2 - x1) - (y2 - y1);
    let ev = v - y3;
    let eu = u - x3;
    let en = n + y2;
    let w = t + s;
    // d * (t + s) combines the two chord equations
    assert(d * w == 1 * back + 1 * forth + (-1) * ev + (-s) * eu + en) by (nonlinear_arith)
        requires
            d == x2 - u,
            back == t * d - (n - v),
            forth == s * (x2 - x1) - (y2 - y1),
            y3 == s * (x1 - x3) - y1,
            ev == v - y3,
            eu == u - x3,
            en == n + y2,
            w == t + s,
    ;
    lemma_mod_zero_combination4(back, 1, forth, 1, ev, -1, eu, -s, p);
    lemma_mod_zero_combination(1 * back + 1 * forth + (-1) * ev + (-s) * eu, en, 1, p);
    lemma_euclid(p, d, w);
    // the abscissa
    let x5 = t * t - u - x2;
    assert(x5 - x1 == 0 + (t - s) * w + (-1) * eu) by (nonlinear_arith)
        requires
            x5 == t * t - u - x2,
            eu == u - x3,
            x3 == s * s - x1 - x2,
            w == t + s,
    ;
    lemma_mod_of_residue(0, p);
    lemma_mod_zero_combination(0, w, t - s, p);
    lemma_mod_zero_combination(0 + (t - s) * w, eu, -1, p);
    // the ordinate
    let y5 = t * (u - x5) - v;
    assert(y5 - y1 == (u - x5) * w + (-s) * (x1 - x5) + (-s) * eu + (-1) * ev) by (nonlinear_arith)
        requires
            y5 == t * (u - x5) - v,
            ev == v - y3,
            y3 == s * (x1 - x3) - y1,
            eu == u - x3,
            w == t + s,
    ;
    lemma_mod_zero_combination(0, x5 - x1, -1, p);
    assert(0 + (-1) * (x5 - x1) == x1 - x5);
    lemma_mod_zero_combination4(w, u - x5, x1 - x5, -s, eu, -s, ev, -1, p);
}

/// Where the chord through two points of the curve arrives at the abscissa
/// of the second, `s^2 = x1 + 2*x2`, it is the tangent there.
pub proof fn lemma_chord_is_tangent(
    p: int,
    s: int,
    x1: int,
    y1: int,
    x2: int,
    y2: int,
    a: int,
    b: int,
)
    requires
        is_prime(p),
        curve_residual(x1, y1, a, b) % p == 0,
        curve_residual(x2, y2, a, b) % p == 0,
        (x2 - x1) % p != 0,
        (s * (x2 - x1) - (y2 - y1)) % p == 0,
        (s * s - x1 - 2 * x2) % p == 0,
    ensures
        (s * (2 * y2) - (3 * (x2 * x2) + a)) % p == 0,
{
    let e1 = curve_residual(x1, y1, a, b);
    let e2 = curve_residual(x2, y2, a, b);
    let forth = s * (x2 - x1) - (y2 - y1);
    let back = s * (x1 - x2) - (y1 - y2);
    let k = 2 * x2 + x1 - s * s;
    let m = line_defect(s, x2, y2, k, a);
    let c = s * (x1 - x2) + y2 + y1;
    // seen from the second point, the chord has no defect
    lemma_chord_defect(s, x2, y2, x1, y1, a, b);
    lemma_mod_of_residue(0, p);
    lemma_mod_zero_combination(0, forth, -1, p);
    assert(back == 0 + (-1) * forth) by (nonlinear_arith)
        requires
            forth == s * (x2 - x1) - (y2 - y1),
            back == s * (x1 - x2) - (y1 - y2),
    ;
    lemma_mod_zero_combination4(e2, 1, e1, -1, back, -c, e2, 0, p);
    assert((x1 - x2) * m == 1 * e2 + (-1) * e1 + (-c) * back + 0 * e2) by (nonlinear_arith)
        requires
            (x1 - x2) * m == e2 - e1 - c * back,
    ;
    if (x1 - x2) % p == 0 {
        lemma_mod_zero_combination(0, x1 - x2, -1, p);
        assert(0 + (-1) * (x1 - x2) == x2 - x1);
    }
    lemma_euclid(p, x1 - x2, m);
    // and k is a multiple of p
    let h = s * (2 * y2) - (3 * (x2 * x2) + a);
    let ek = s * s - x1 - 2 * x2;
    assert(h == (-1) * m + (-(s * s - 3 * x2 + k)) * ek) by (nonlinear_arith)
        requires
            h == s * (2 * y2) - (3 * (x2 * x2) + a),
            m == s * s * k - 2 * (s * y2) + 3 * (x2 * x2) - 3 * (x2 * k) + k * k + a,
            k == 2 * x2 + x1 - s * s,
            ek == s * s - x1 - 2 * x2,
    ;
    lemma_mod_zero_combination(0, m, -1, p);
    lemma_mod_zero_combination(0 + (-1) * m, ek, -(s * s - 3 * x2 + k), p);
}

/// The tangent back from a sum that is the inverse of one summand.
///
/// Let the line of slope `s` from `(x1, y1)` through `(x2, y2)` be tangent
/// at the latter and arrive at its abscissa again, and let `t` be the slope
/// of the tangent at `(x2, n)` with `n = -y2`. Then `t = -s`, and that
/// tangent arrives at `(x1, y1)`. All equalities are congruences modulo the
/// prime.
pub proof fn lemma_tangent_back(
    p: int,
    s: int,
    t: int,
    x1: int,
    y1: int,
    x2: int,
    y2: int,
    n: int,
    a: int,
)
    requires
        is_prime(p),
        (s * (x2 - x1) - (y2 - y1)) % p == 0,
        (s * s - x1 - 2 * x2) % p == 0,
        (s * (2 * y2) - (3 * (x2 * x2) + a)) % p == 0,
        (n + y2) % p == 0,
        (2 * y2) % p != 0,
        (t * (2 * n) - (3 * (x2 * x2) + a)) % p == 0,
    ensures
        ({
            let x5 = t * t - 2 * x2;
            &&& (x5 - x1) % p == 0
            &&& (t * (x2 - x5) - n - y1) % p == 0
        }),
{
    let forth = s * (x2 - x1) - (y2 - y1);
    let es = s * s - x1 - 2 * x2;
    let hs = s * (2 * y2) - (3 * (x2 * x2) + a);
    let ht = t * (2 * n) - (3 * (x2 * x2) + a);
    let en = n + y2;
    let w = t + s;
    // 2*y2 * (t + s) combines the two tangent equations
    assert((2 * y2) * w == 1 * hs + (-1) * ht + (2 * t) * en + 0 * en) by (nonlinear_arith)
        requires
            hs == s * (2 * y2) - (3 * (x2 * x2) + a),
            ht == t * (2 * n) - (3 * (x2 * x2) + a),
            en == n + y2,
            w == t + s,
    ;
    lemma_mod_zero_combination4(hs, 1, ht, -1, en, 2 * t, en, 0, p);
    lemma_euclid(p, 2 * y2, w);
    // the abscissa
    let x5 = t * t - 2 * x2;
    assert(x5 - x1 == 0 + (t - s) * w + 1 * es) by (nonlinear_arith)
        requires
            x5 == t * t - 2 * x2,
            es == s * s - x1 - 2 * x2,
            w == t + s,
    ;
    lemma_mod_of_residue(0, p);
    lemma_mod_zero_combination(0, w, t - s, p);
    lemma_mod_zero_combination(0 + (t - s) * w, es, 1, p);
    // the ordinate
    let y5 = t * (x2 - x5) - n;
    assert(y5 - y1 == (x2 - x5) * w + s * (x5 - x1) + (-1) * forth + (-1) * en) by (nonlinear_arith)
        requires
            y5 == t * (x2 - x5) - n,
            forth == s * (x2 - x1) - (y2 - y1),
            en == n + y2,
            w == t + s,
    ;
    lemma_mod_zero_combination4(w, x2 - x5, x5 - x1, s, forth, -1, en, -1, p);
}

/// Two points of the curve with one abscissa have equal or opposite
/// ordinates.
pub proof fn lemma_same_abscissa(p: int, x: int, y1: int, y2: int, a: int, b: int)
    requires
        is_prime(p),
        curve_residual(x, y1, a, b) % p == 0,
        curve_residual(x, y2, a, b) % p == 0,
    ensures
        (y1 - y2) % p == 0 || (y1 + y2) % p == 0,
{
    let e1 = curve_residual(x, y1, a, b);
    let e2 = curve_residual(x, y2, a, b);
    assert((y1 - y2) * (y1 + y2) == e1 + (-1) * e2) by (nonlinear_arith)
        requires
            e1 == y1 * y1 - x * x * x - a * x - b,
            e2 == y2 * y2 - x * x * x - a * x - b,
    ;
    lemma_mod_zero_combination(e1, e2, -1, p);
    lemma_euclid(p, y1 - y2, y1 + y2);
}

/// A point of a curve over a field is singular when both its ordinate and
/// the derivative `3*x^2 + a` of the cubic vanish: the curve has no tangent
/// there, and its points do not form a group.
pub open spec fn singular(pt: PointValue<FieldValue>) -> bool {
    pt.y.num == 0 && (3 * (pt.x.num * pt.x.num) + pt.a.num) % pt.a.prime == 0
}

/// The hypotheses under which an addition is followed back: two points of
/// one curve over a field of odd prime order, neither the identity, the
/// second not singular, on a curve that the sentinel `(0, 0)` does not lie
/// on.
pub open spec fn followed_back(
    pt: PointValue<FieldValue>,
    qt: PointValue<FieldValue>,
    p: int,
) -> bool {
    &&& is_prime(p)
    &&& p != 2
    &&& over_field(pt, p)
    &&& over_field(qt, p)
    &&& pt.a == qt.a
    &&& pt.b == qt.b
    &&& pt.b.num != 0
    &&& on_curve_mod(pt)
    &&& on_curve_mod(qt)
    &&& !singular(qt)
}

/// A point of a curve that the sentinel does not lie on is not the
/// identity.
pub proof fn lemma_not_the_sentinel<T: DivInFiniteField>(pt: PointValue<FieldValue>, p: int)
    requires
        0 < p,
        over_field(pt, p),
        on_curve_mod(pt),
        pt.b.num != 0,
    ensures
        !is_identity::<FieldElement<T>>(pt),
{
    if is_identity::<FieldElement<T>>(pt) {
        assert(curve_residual(0, 0, pt.a.num, pt.b.num) == -pt.b.num) by (nonlinear_arith)
            requires
                curve_residual(0, 0, pt.a.num, pt.b.num) == 0 * 0 - 0 * 0 * 0 - pt.a.num * 0
                    - pt.b.num,
        ;
        lemma_congruent_difference(0, pt.b.num, p);
        lemma_mod_of_residue(0, p);
        lemma_congruent_residues(0, pt.b.num, p);
    }
}

/// The way back from a sum: if the line of slope `s` from `P` through `Q`
/// arrives at `R`, then `R + (-Q)` is `P`.
pub proof fn lemma_way_back<T: DivInFiniteField>(
    s: FieldValue,
    pt: PointValue<FieldValue>,
    qt: PointValue<FieldValue>,
    p: int,
)
    requires
        followed_back(pt, qt, p),
        in_field(s, p),
        on_curve_mod(third_point(s, pt, qt.x)),
        (s.num * (qt.x.num - pt.x.num) - (qt.y.num - pt.y.num)) % p == 0,
        (s.num * s.num - pt.x.num - 2 * qt.x.num) % p == 0 ==> (s.num * (2 * qt.y.num) - (3 * (
            qt.x.num * qt.x.num) + qt.a.num)) % p == 0,
    ensures
        point_neg::<FieldElement<T>>(qt) is Ok,
        point_add::<FieldElement<T>>(
            third_point(s, pt, qt.x),
            point_neg::<FieldElement<T>>(qt)->Ok_0,
        ) == Ok::<PointValue<FieldValue>, MathError>(pt),
{
    let x1 = pt.x.num;
    let y1 = pt.y.num;
    let x2 = qt.x.num;
    let y2 = qt.y.num;
    let a = pt.a.num;
    lemma_neg_in_field::<T>(qt, p);
    let nq = point_neg::<FieldElement<T>>(qt)->Ok_0;
    let n = nq.y.num;
    lemma_congruent_reduced(-y2, p);
    lemma_congruent_difference(n, -y2, p);
    lemma_third_point_in_field::<T>(s, pt, qt.x, p);
    let r = third_point(s, pt, qt.x);
    let u = r.x.num;
    let v = r.y.num;
    let x3 = s.num * s.num - x1 - x2;
    let y3 = s.num * (x1 - x3) - y1;
    lemma_congruent_difference(u, x3, p);
    lemma_congruent_difference(v, y3, p);
    lemma_not_the_sentinel::<T>(r, p);
    lemma_not_the_sentinel::<T>(nq, p);
    lemma_well_formed_in_field::<T>(pt, p);
    if r.x != nq.x {
        lemma_chord_slope_in_field::<T>(r, nq, p);
        let t = chord_slope::<FieldElement<T>>(r, nq)->Ok_0;
        lemma_chord_back(p, s.num, t.num, x1, y1, x2, y2, u, v, n);
        lemma_third_point_in_field::<T>(t, r, nq.x, p);
        let arrival = third_point(t, r, nq.x);
        let x5 = t.num * t.num - u - x2;
        lemma_congruent_difference(x5, x1, p);
        lemma_congruent_residues(arrival.x.num, x1, p);
        lemma_congruent_difference(t.num * (u - x5) - v, y1, p);
        lemma_congruent_residues(arrival.y.num, y1, p);
        assert(arrival == pt);
    } else {
        // R has the abscissa of Q; then it is the inverse of Q
        let forth = s.num * (x2 - x1) - (y2 - y1);
        let eu = u - x3;
        let ev = v - y3;
        assert(u == x2);
        assert(s.num * s.num - x1 - 2 * x2 == (-1) * eu + 0 * eu);
        lemma_mod_of_residue(0, p);
        lemma_mod_zero_combination(0, eu, -1, p);
        assert(0 + (-1) * eu == (-1) * eu + 0 * eu);
        assert(v + y2 == 1 * ev + (-1) * forth + s.num * eu + 0 * eu) by (nonlinear_arith)
            requires
                ev == v - y3,
                y3 == s.num * (x1 - x3) - y1,
                forth == s.num * (x2 - x1) - (y2 - y1),
                eu == u - x3,
                u == x2,
        ;
        lemma_mod_zero_combination4(ev, 1, forth, -1, eu, s.num, eu, 0, p);
        lemma_congruent_difference(v, -y2, p);
        lemma_congruent_residues(v, n, p);
        assert(r == nq);
        // Q is not singular, so its ordinate is not zero
        if y2 == 0 {
            assert(s.num * (2 * y2) == 0) by (nonlinear_arith)
                requires
                    y2 == 0,
            ;
            lemma_mod_zero_combination(0, s.num * (2 * y2) - (3 * (x2 * x2) + a), -1, p);
        }
        assert(n != 0) by {
            if n == 0 {
                lemma_congruent_difference(y2, 0, p);
                lemma_congruent_residues(y2, 0, p);
            }
        }
        lemma_double_is_not_zero(y2, p);
        assert(2 * y2 == y2 + y2);
        lemma_tangent_slope_in_field::<T>(nq, p);
        let t = tangent_slope::<FieldElement<T>>(nq)->Ok_0;
        lemma_tangent_back(p, s.num, t.num, x1, y1, x2, y2, n, a);
        lemma_third_point_in_field::<T>(t, nq, nq.x, p);
        let arrival = third_point(t, nq, nq.x);
        let x5 = t.num * t.num - 2 * x2;
        assert(t.num * t.num - x2 - x2 == x5);
        lemma_congruent_difference(x5, x1, p);
        lemma_congruent_residues(arrival.x.num, x1, p);
        lemma_congruent_difference(t.num * (x2 - x5) - n, y1, p);
        lemma_congruent_residues(arrival.y.num, y1, p);
        assert(arrival == pt);
    }
}

/// Adding a point and then its inverse leaves the first summand as it was:
/// `(P + Q) + (-Q) == P + (Q + (-Q))`, both sides being `P`.
///
/// This holds for any two well-formed points of one curve over a field of
/// odd prime order, provided that the sentinel `(0, 0)` does not lie on the
/// curve and that `Q` is not a singular point of it.
pub proof fn lemma_add_then_subtract<T: DivInFiniteField>(
    pt: PointValue<FieldValue>,
    qt: PointValue<FieldValue>,
    p: int,
)
    requires
        is_prime(p),
        p != 2,
        over_field(pt, p),
        over_field(qt, p),
        well_formed::<FieldElement<T>>(pt),
        well_formed::<FieldElement<T>>(qt),
        pt.a == qt.a,
        pt.b == qt.b,
        pt.b.num != 0,
        is_identity::<FieldElement<T>>(qt) || !singular(qt),
    ensures
        lifted_point_add::<FieldElement<T>>(
            point_add::<FieldElement<T>>(pt, qt),
            point_neg::<FieldElement<T>>(qt),
        ) == Ok::<PointValue<FieldValue>, MathError>(pt),
        lifted_point_add::<FieldElement<T>>(
            Ok(pt),
            lifted_point_add::<FieldElement<T>>(Ok(qt), point_neg::<FieldElement<T>>(qt)),
        ) == Ok::<PointValue<FieldValue>, MathError>(pt),
{
    // on the right, Q and its inverse cancel
    assert(2 * qt.y.num != p) by {
        if 2 * qt.y.num == p {
            assert(p % 2 == 0);
        }
    }
    lemma_add_inverse_in_field::<T>(qt, p);
    lemma_subtract_after_add::<T>(pt, qt, p);
}

/// Adding a point and then its inverse leaves the first summand as it
/// was.
pub proof fn lemma_subtract_after_add<T: DivInFiniteField>(
    pt: PointValue<FieldValue>,
    qt: PointValue<FieldValue>,
    p: int,
)
    requires
        is_prime(p),
        p != 2,
        over_field(pt, p),
        over_field(qt, p),
        well_formed::<FieldElement<T>>(pt),
        well_formed::<FieldElement<T>>(qt),
        pt.a == qt.a,
        pt.b == qt.b,
        pt.b.num != 0,
        is_identity::<FieldElement<T>>(qt) || !singular(qt),
    ensures
        lifted_point_add::<FieldElement<T>>(
            point_add::<FieldElement<T>>(pt, qt),
            point_neg::<FieldElement<T>>(qt),
        ) == Ok::<PointValue<FieldValue>, MathError>(pt),
{
    let x1 = pt.x.num;
    let y1 = pt.y.num;
    let x2 = qt.x.num;
    let y2 = qt.y.num;
    lemma_well_formed_in_field::<T>(pt, p);
    lemma_well_formed_in_field::<T>(qt, p);
    lemma_neg_in_field::<T>(qt, p);
    let nq = point_neg::<FieldElement<T>>(qt)->Ok_0;
    lemma_mod_of_residue(0, p);
    if is_identity::<FieldElement<T>>(qt) {
        // the inverse of the identity is the identity
    } else if is_identity::<FieldElement<T>>(pt) {
        assert(2 * y2 != p) by {
            if 2 * y2 == p {
                assert(p % 2 == 0);
            }
        }
        lemma_add_inverse_in_field::<T>(qt, p);
    } else if pt.x == qt.x && pt.y != qt.y {
        // P is the inverse of Q
        lemma_same_abscissa(p, x1, y1, y2, pt.a.num, pt.b.num);
        if (y1 - y2) % p == 0 {
            lemma_congruent_difference(y1, y2, p);
            lemma_congruent_residues(y1, y2, p);
        }
        lemma_congruent_difference(y1, -y2, p);
        lemma_congruent_reduced(-y2, p);
        lemma_congruent_residues(y1, nq.y.num, p);
        assert(nq == pt);
    } else if pt.x != qt.x {
        lemma_chord_slope_in_field::<T>(pt, qt, p);
        let s = chord_slope::<FieldElement<T>>(pt, qt)->Ok_0;
        lemma_chord_arrives::<T>(s, pt, qt, p);
        if (s.num * s.num - x1 - 2 * x2) % p == 0 {
            lemma_chord_is_tangent(p, s.num, x1, y1, x2, y2, pt.a.num, pt.b.num);
        }
        lemma_way_back::<T>(s, pt, qt, p);
    } else if pt.y.num == 0 {
        // P is Q and its own inverse
        assert(nq == pt);
    } else {
        lemma_tangent_slope_in_field::<T>(pt, p);
        let s = tangent_slope::<FieldElement<T>>(pt)->Ok_0;
        lemma_tangent_arrives::<T>(s, pt, p);
        assert(s.num * (x2 - x1) - (y2 - y1) == 0) by (nonlinear_arith)
            requires
                x2 == x1,
                y2 == y1,
        ;
        lemma_way_back::<T>(s, pt, qt, p);
    }
}

} // verus!
