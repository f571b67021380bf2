//! The points of a curve over a field of odd prime order form a group.
//!
//! This needs a curve without singular points, and one that the sentinel
//! `(0, 0)` does not lie on, so that no point of the curve is mistaken for
//! the identity. On such a curve addition is associative.

use crate::associativity::{
    gap_x, gap_y, lemma_cross_relation, lemma_one_slope,
    lemma_one_slope_at_sum, lemma_sums_agree, lemma_turn_of_chord, lemma_turn_of_tangent,
    path_defect, rise_defect, secant_defect, sum_x, sum_y, turn,
};
use crate::ellipticcurvepoint::{
    chord_slope, identity, is_identity, lemma_add_associative_with_identity, lifted_point_add,
    point_add, point_neg, tangent_slope, well_formed, PointValue,
};
use crate::error::MathError;
use crate::fieldelement::{FieldElement, FieldValue};
use crate::modular::DivInFiniteField;
use crate::number_theory::{
    congruent, lemma_congruent_difference, lemma_congruent_reduced, lemma_congruent_residues,
    lemma_mod_of_residue, lemma_mod_zero_combination, lemma_mod_zero_combination4,
};
use crate::prime_curve::{
    curve_residual, in_field, lemma_add_commutative, lemma_add_in_prime_field,
    lemma_add_inverse_in_field, lemma_chord_arrives, lemma_chord_defect,
    lemma_chord_slope_in_field, lemma_chord_slope_symmetric, lemma_neg_in_field,
    lemma_not_the_sentinel, lemma_same_abscissa, lemma_subtract_after_add,
    lemma_tangent_arrives, lemma_tangent_slope_in_field, lemma_third_point_in_field,
    lemma_well_formed_in_field, line_defect, on_curve_mod, over_field, singular, third_point,
};
use crate::primes::{is_prime, lemma_euclid};
use vstd::arithmetic::div_mod::lemma_mod_add_multiples_vanish;
use vstd::prelude::*;

verus! {

/// The cubic `x^3 + a*x + b` and its derivative both vanish at `x`: the
/// curve has a singular point there.
pub open spec fn singular_abscissa(x: int, a: int, b: int, p: int) -> bool {
    (x * x * x + a * x + b) % p == 0 && (3 * (x * x) + a) % p == 0
}

/// The curve has no singular point.
pub open spec fn smooth(a: int, b: int, p: int) -> bool {
    forall|x: int| !#[trigger] singular_abscissa(x, a, b, p)
}

/// A curve whose discriminant `4*a^3 + 27*b^2` is not a multiple of the
/// prime has no singular point.
pub proof fn lemma_smooth_by_discriminant(a: int, b: int, p: int)
    requires
        0 < p,
        (4 * (a * a * a) + 27 * (b * b)) % p != 0,
    ensures
        smooth(a, b, p),
{
    assert forall|x: int| !#[trigger] singular_abscissa(x, a, b, p) by {
        let f = a * x + b + x * x * x;
        let fp = a + 3 * (x * x);
        // the discriminant is a combination of the cubic and its derivative
        let c1 = -(18 * (a * x)) + 27 * b;
        let c2 = 4 * (a * a) + 6 * (a * x * x) - 9 * (b * x);
        let m_ax = a * x;
        let m_xxx = x * x * x;
        assert(c1 * f == -(18 * (m_ax * m_ax)) - 18 * (m_ax * b) - 18 * (m_ax * m_xxx)
            + 27 * (b * m_ax) + 27 * (b * b) + 27 * (b * m_xxx)) by (nonlinear_arith)
            requires
                c1 == -(18 * m_ax) + 27 * b,
                f == m_ax + b + m_xxx,
        ;
        assert(m_ax * m_ax == a * a * x * x) by (nonlinear_arith)
            requires
                m_ax == a * x,
        ;
        assert(m_ax * b == a * b * x) by (nonlinear_arith)
            requires
                m_ax == a * x,
        ;
        assert(m_ax * m_xxx == a * x * x * x * x) by (nonlinear_arith)
            requires
                m_ax == a * x,
                m_xxx == x * x * x,
        ;
        assert(b * m_ax == a * b * x) by (nonlinear_arith)
            requires
                m_ax == a * x,
        ;
        assert(b * m_xxx == b * x * x * x) by (nonlinear_arith)
            requires
                m_xxx == x * x * x,
        ;
        assert(c1 * f == -(18 * (a * a * x * x)) + 9 * (a * b * x) - 18 * (a * x * x * x * x)
            + 27 * (b * b) + 27 * (b * x * x * x));
        let m_aa = a * a;
        let m_axx = a * x * x;
        let m_bx = b * x;
        let m_xx = x * x;
        assert(c2 * fp == 4 * (m_aa * a) + 12 * (m_aa * m_xx) + 6 * (m_axx * a)
            + 18 * (m_axx * m_xx) - 9 * (m_bx * a) - 27 * (m_bx * m_xx)) by (nonlinear_arith)
            requires
                c2 == 4 * m_aa + 6 * m_axx - 9 * m_bx,
                fp == a + 3 * m_xx,
        ;
        assert(m_aa * m_xx == a * a * x * x) by (nonlinear_arith)
            requires
                m_aa == a * a,
                m_xx == x * x,
        ;
        assert(m_axx * a == a * a * x * x) by (nonlinear_arith)
            requires
                m_axx == a * x * x,
        ;
        assert(m_axx * m_xx == a * x * x * x * x) by (nonlinear_arith)
            requires
                m_axx == a * x * x,
                m_xx == x * x,
        ;
        assert(m_bx * a == a * b * x) by (nonlinear_arith)
            requires
                m_bx == b * x,
        ;
        assert(m_bx * m_xx == b * x * x * x) by (nonlinear_arith)
            requires
                m_bx == b * x,
                m_xx == x * x,
        ;
        assert(c2 * fp == 4 * (a * a * a) + 18 * (a * a * x * x) - 9 * (a * b * x)
            + 18 * (a * x * x * x * x) - 27 * (b * x * x * x));
        assert(c1 * f + c2 * fp == 4 * (a * a * a) + 27 * (b * b));
        if singular_abscissa(x, a, b, p) {
            lemma_mod_of_residue(0, p);
            lemma_mod_zero_combination(0, f, c1, p);
            lemma_mod_zero_combination(0 + c1 * f, fp, c2, p);
        }
    }
}

/// The curves whose points form a group under the addition of this crate:
/// over a field of odd prime order, without singular points, and not
/// through `(0, 0)`, which stands for the identity.
pub open spec fn group_curve(a: FieldValue, b: FieldValue, p: int) -> bool {
    &&& is_prime(p)
    &&& p != 2
    &&& in_field(a, p)
    &&& in_field(b, p)
    &&& b.num != 0
    &&& smooth(a.num, b.num, p)
}

/// A well-formed point of the curve with coefficients `a` and `b`.
pub open spec fn on_group_curve<T: DivInFiniteField>(
    pt: PointValue<FieldValue>,
    a: FieldValue,
    b: FieldValue,
    p: int,
) -> bool {
    &&& over_field(pt, p)
    &&& pt.a == a
    &&& pt.b == b
    &&& well_formed::<FieldElement<T>>(pt)
}

/// Two points that add along a line: neither is the identity, and they are
/// not inverse to each other.
pub open spec fn proper_pair<T: DivInFiniteField>(
    pt: PointValue<FieldValue>,
    qt: PointValue<FieldValue>,
) -> bool {
    &&& !is_identity::<FieldElement<T>>(pt)
    &&& !is_identity::<FieldElement<T>>(qt)
    &&& !(pt.x == qt.x && pt.y != qt.y)
    &&& !(pt.x == qt.x && pt.y.num == 0)
}

/// The slope of the line along which two points add: of their chord, or of
/// the tangent where they coincide.
pub open spec fn line_slope<T: DivInFiniteField>(
    pt: PointValue<FieldValue>,
    qt: PointValue<FieldValue>,
) -> FieldValue {
    if pt.x != qt.x {
        chord_slope::<FieldElement<T>>(pt, qt)->Ok_0
    } else {
        tangent_slope::<FieldElement<T>>(pt)->Ok_0
    }
}

/// The sum of a proper pair, as the point that their line arrives at.
pub open spec fn line_sum<T: DivInFiniteField>(
    pt: PointValue<FieldValue>,
    qt: PointValue<FieldValue>,
) -> PointValue<FieldValue> {
    third_point(line_slope::<T>(pt, qt), pt, qt.x)
}

/// A point of a smooth curve is not singular.
pub proof fn lemma_not_singular<T: DivInFiniteField>(
    pt: PointValue<FieldValue>,
    a: FieldValue,
    b: FieldValue,
    p: int,
)
    requires
        group_curve(a, b, p),
        on_group_curve::<T>(pt, a, b, p),
    ensures
        is_identity::<FieldElement<T>>(pt) || !singular(pt),
        !is_identity::<FieldElement<T>>(pt) ==> on_curve_mod(pt),
{
    lemma_well_formed_in_field::<T>(pt, p);
    if !is_identity::<FieldElement<T>>(pt) && singular(pt) {
        let x = pt.x.num;
        let cubic = x * x * x + a.num * x + b.num;
        assert(cubic == 0 + (-1) * curve_residual(x, 0, a.num, b.num)) by (nonlinear_arith)
            requires
                cubic == x * x * x + a.num * x + b.num,
                curve_residual(x, 0, a.num, b.num) == 0 * 0 - x * x * x - a.num * x - b.num,
        ;
        lemma_mod_of_residue(0, p);
        lemma_mod_zero_combination(0, curve_residual(x, 0, a.num, b.num), -1, p);
        assert(singular_abscissa(x, a.num, b.num, p));
    }
}

/// The line of a chord meets the curve a third time: its secant defect is
/// a multiple of the prime.
pub proof fn lemma_secant_defect_of_chord(
    p: int,
    s: int,
    x1: int,
    y1: int,
    x2: int,
    y2: int,
    a: int,
    b: int,
)
    requires
        is_prime(p),
        curve_residual(x1, y1, a, b) % p == 0,
        curve_residual(x2, y2, a, b) % p == 0,
        (x2 - x1) % p != 0,
        (s * (x2 - x1) - (y2 - y1)) % p == 0,
    ensures
        rise_defect(s, x1, y1, x2, y2) % p == 0,
        secant_defect(s, x1, y1, x2, a) % p == 0,
{
    let d = x2 - x1;
    let k = 2 * x1 + x2 - s * s;
    let m = line_defect(s, x1, y1, k, a);
    let e1 = curve_residual(x1, y1, a, b);
    let e2 = curve_residual(x2, y2, a, b);
    let l = s * d - (y2 - y1);
    let c = s * d + y1 + y2;
    lemma_chord_defect(s, x1, y1, x2, y2, a, b);
    lemma_mod_zero_combination4(e1, 1, e2, -1, l, -c, e1, 0, p);
    assert(d * m == 1 * e1 + (-1) * e2 + (-c) * l + 0 * e1) by (nonlinear_arith)
        requires
            d * m == e1 - e2 - c * l,
    ;
    lemma_euclid(p, d, m);
    // the defect at k is the secant defect with its sign changed
    let u = s * s;
    assert(u * k == 2 * (u * x1) + u * x2 - u * u) by (nonlinear_arith)
        requires
            k == 2 * x1 + x2 - u,
    ;
    assert(x1 * k == 2 * (x1 * x1) + x1 * x2 - u * x1) by (nonlinear_arith)
        requires
            k == 2 * x1 + x2 - u,
    ;
    assert(k * k == 4 * (x1 * x1) + 4 * (x1 * x2) + x2 * x2 - 4 * (u * x1) - 2 * (u * x2) + u * u)
        by (nonlinear_arith)
        requires
            k == 2 * x1 + x2 - u,
    ;
    assert(m == -secant_defect(s, x1, y1, x2, a));
    lemma_mod_of_residue(0, p);
    lemma_mod_zero_combination(0, m, -1, p);
    assert(rise_defect(s, x1, y1, x2, y2) == 0 + (-1) * l) by (nonlinear_arith)
        requires
            l == s * (x2 - x1) - (y2 - y1),
            rise_defect(s, x1, y1, x2, y2) == s * x1 - s * x2 - y1 + y2,
    ;
    lemma_mod_zero_combination(0, l, -1, p);
}

/// A proper pair adds along its line: the sum is the point that the line
/// arrives at, a point of the curve other than the identity, and the slope
/// satisfies the two equations of the line.
pub proof fn lemma_line_sum<T: DivInFiniteField>(
    pt: PointValue<FieldValue>,
    qt: PointValue<FieldValue>,
    a: FieldValue,
    b: FieldValue,
    p: int,
)
    requires
        group_curve(a, b, p),
        on_group_curve::<T>(pt, a, b, p),
        on_group_curve::<T>(qt, a, b, p),
        proper_pair::<T>(pt, qt),
    ensures
        in_field(line_slope::<T>(pt, qt), p),
        point_add::<FieldElement<T>>(pt, qt) == Ok::<PointValue<FieldValue>, MathError>(
            line_sum::<T>(pt, qt),
        ),
        on_group_curve::<T>(line_sum::<T>(pt, qt), a, b, p),
        !is_identity::<FieldElement<T>>(line_sum::<T>(pt, qt)),
        on_curve_mod(line_sum::<T>(pt, qt)),
        rise_defect(line_slope::<T>(pt, qt).num, pt.x.num, pt.y.num, qt.x.num, qt.y.num) % p == 0,
        secant_defect(line_slope::<T>(pt, qt).num, pt.x.num, pt.y.num, qt.x.num, a.num) % p == 0,
        pt.x != qt.x ==> (qt.x.num - pt.x.num) % p != 0,
        pt.x == qt.x ==> pt == qt && (2 * pt.y.num) % p != 0,
        congruent(
            line_sum::<T>(pt, qt).x.num,
            line_slope::<T>(pt, qt).num * line_slope::<T>(pt, qt).num - pt.x.num - qt.x.num,
            p,
        ),
        congruent(
            line_sum::<T>(pt, qt).y.num,
            line_slope::<T>(pt, qt).num * (pt.x.num - (line_slope::<T>(pt, qt).num * line_slope::<
                T,
            >(pt, qt).num - pt.x.num - qt.x.num)) - pt.y.num,
            p,
        ),
{
    let s = line_slope::<T>(pt, qt);
    let r = line_sum::<T>(pt, qt);
    lemma_well_formed_in_field::<T>(pt, p);
    lemma_well_formed_in_field::<T>(qt, p);
    if pt.x != qt.x {
        lemma_chord_slope_in_field::<T>(pt, qt, p);
        lemma_chord_arrives::<T>(s, pt, qt, p);
        lemma_secant_defect_of_chord(
            p,
            s.num,
            pt.x.num,
            pt.y.num,
            qt.x.num,
            qt.y.num,
            a.num,
            b.num,
        );
    } else {
        assert(pt == qt);
        lemma_tangent_slope_in_field::<T>(pt, p);
        lemma_tangent_arrives::<T>(s, pt, p);
        let x = pt.x.num;
        let y = pt.y.num;
        assert(secant_defect(s.num, x, y, x, a.num) == s.num * (2 * y) - (3 * (x * x) + a.num))
            by (nonlinear_arith)
            requires
                secant_defect(s.num, x, y, x, a.num) == -(s.num * s.num * x) + s.num * s.num * x
                    + 2 * (s.num * y) - x * x - x * x - x * x - a.num,
        ;
        lemma_mod_of_residue(0, p);
        assert(rise_defect(s.num, x, y, x, y) == 0);
        assert(2 * y == y + y);
        crate::prime_curve::lemma_double_is_not_zero(y, p);
    }
    lemma_third_point_in_field::<T>(s, pt, qt.x, p);
    lemma_not_the_sentinel::<T>(r, p);
    lemma_well_formed_in_field::<T>(r, p);
}

/// The second of two additions: where `P + Q` and `R` form a proper pair,
/// the slope of their line, times the difference of the slopes of the
/// lines from `P` to `Q` and from `Q` to `R`, is the turn; the sum has the
/// coordinates `sum_x` and `sum_y`; and the two first slopes only agree
/// where `R` is `P`.
pub proof fn lemma_second_slope<T: DivInFiniteField>(
    pt: PointValue<FieldValue>,
    qt: PointValue<FieldValue>,
    rt: PointValue<FieldValue>,
    a: FieldValue,
    b: FieldValue,
    p: int,
)
    requires
        group_curve(a, b, p),
        on_group_curve::<T>(pt, a, b, p),
        on_group_curve::<T>(qt, a, b, p),
        on_group_curve::<T>(rt, a, b, p),
        proper_pair::<T>(pt, qt),
        proper_pair::<T>(qt, rt),
        proper_pair::<T>(line_sum::<T>(pt, qt), rt),
    ensures
        ({
            let s = line_slope::<T>(pt, qt).num;
            let t = line_slope::<T>(qt, rt).num;
            let at = line_sum::<T>(pt, qt);
            let g = line_slope::<T>(at, rt).num;
            let sum = line_sum::<T>(at, rt);
            &&& point_add::<FieldElement<T>>(at, rt) == Ok::<PointValue<FieldValue>, MathError>(
                sum,
            )
            &&& on_group_curve::<T>(sum, a, b, p)
            &&& (g * (s - t) - turn(s, t, pt.x.num, rt.x.num)) % p == 0
            &&& congruent(sum.x.num, sum_x(g, s, pt.x.num, qt.x.num, rt.x.num), p)
            &&& congruent(sum.y.num, sum_y(g, s, pt.x.num, qt.x.num, rt.x.num, rt.y.num), p)
            &&& ((s - t) % p == 0 ==> rt == pt)
        }),
{
    let sv = line_slope::<T>(pt, qt);
    let tv = line_slope::<T>(qt, rt);
    let at = line_sum::<T>(pt, qt);
    let gv = line_slope::<T>(at, rt);
    let sum = line_sum::<T>(at, rt);
    let s = sv.num;
    let t = tv.num;
    let g = gv.num;
    let x1 = pt.x.num;
    let y1 = pt.y.num;
    let x2 = qt.x.num;
    let y2 = qt.y.num;
    let x3 = rt.x.num;
    let y3 = rt.y.num;
    let u = at.x.num;
    let v = at.y.num;
    lemma_line_sum::<T>(pt, qt, a, b, p);
    lemma_line_sum::<T>(qt, rt, a, b, p);
    lemma_line_sum::<T>(at, rt, a, b, p);
    lemma_cross_relation(p, s, t, x1, y1, x2, y2, x3, y3, a.num);
    let big_u = s * s - x1 - x2;
    let big_v = s * (x1 - big_u) - y1;
    let eu = u - big_u;
    let ev = v - big_v;
    lemma_congruent_difference(u, big_u, p);
    lemma_congruent_difference(v, big_v, p);
    let gx = gap_x(s, x1, x2, x3);
    let gy = gap_y(s, x1, y1, x2, y3);
    let rise = rise_defect(g, u, v, x3, y3);
    assert(gx == (x3 - u) + eu);
    assert(s * (x1 - big_u) == 2 * (s * x1) + s * x2 - s * s * s) by (nonlinear_arith)
        requires
            big_u == s * s - x1 - x2,
    ;
    assert(gy == (y3 - v) + ev);
    if at.x != rt.x {
        // a chord from the first sum to the third point
        if gx % p == 0 {
            lemma_mod_zero_combination(gx, eu, -1, p);
        }
        assert(g * gx - gy == (-1) * rise + g * eu + (-1) * ev + 0 * ev) by (nonlinear_arith)
            requires
                gx == (x3 - u) + eu,
                gy == (y3 - v) + ev,
                rise == g * u - g * x3 - v + y3,
        ;
        lemma_mod_zero_combination4(rise, -1, eu, g, ev, -1, ev, 0, p);
        lemma_turn_of_chord(p, g, s, t, x1, y1, x2, x3, y3);
        if (s - t) % p == 0 {
            lemma_one_slope(p, s, t, x1, y1, x2, y2, x3, y3);
            lemma_congruent_difference(x3, x1, p);
            lemma_congruent_residues(x3, x1, p);
            lemma_congruent_difference(y3, y1, p);
            lemma_congruent_residues(y3, y1, p);
            assert(rt == pt);
        }
    } else {
        // the first sum is the third point: a tangent
        assert(at == rt);
        assert(gx == eu);
        assert(gy == ev);
        assert(secant_defect(g, x3, y3, x3, a.num) == g * (2 * y3) - (3 * (x3 * x3) + a.num))
            by (nonlinear_arith)
            requires
                secant_defect(g, x3, y3, x3, a.num) == -(g * g * x3) + g * g * x3 + 2 * (g * y3)
                    - x3 * x3 - x3 * x3 - x3 * x3 - a.num,
        ;
        lemma_turn_of_tangent(p, g, s, t, x1, y1, x2, y2, x3, y3, a.num);
        if (s - t) % p == 0 {
            lemma_one_slope_at_sum(p, s, t, x1, y1, x2, y2, x3, y3);
        }
    }
    // the coordinates of the sum
    let x5 = g * g - u - x3;
    let y5 = g * (u - x5) - v;
    lemma_congruent_difference(sum.x.num, x5, p);
    lemma_congruent_difference(sum.y.num, y5, p);
    let sx = sum_x(g, s, x1, x2, x3);
    let sy = sum_y(g, s, x1, x2, x3, y3);
    assert(sum.x.num - sx == (sum.x.num - x5) + (-1) * eu);
    lemma_mod_zero_combination(sum.x.num - x5, eu, -1, p);
    lemma_congruent_difference(sum.x.num, sx, p);
    assert(sum.y.num - sy == 1 * (sum.y.num - y5) + 1 * rise + g * eu + 0 * eu) by (nonlinear_arith)
        requires
            y5 == g * (u - x5) - v,
            sy == g * (x3 - sx) - y3,
            sx == x5 + eu,
            rise == g * u - g * x3 - v + y3,
    ;
    lemma_mod_zero_combination4(sum.y.num - y5, 1, rise, 1, eu, g, eu, 0, p);
    lemma_congruent_difference(sum.y.num, sy, p);
}

/// The order of a proper pair does not matter: to its being proper, to the
/// slope of its line, or to its sum.
pub proof fn lemma_line_symmetric<T: DivInFiniteField>(
    pt: PointValue<FieldValue>,
    qt: PointValue<FieldValue>,
    a: FieldValue,
    b: FieldValue,
    p: int,
)
    requires
        group_curve(a, b, p),
        on_group_curve::<T>(pt, a, b, p),
        on_group_curve::<T>(qt, a, b, p),
        proper_pair::<T>(pt, qt),
    ensures
        proper_pair::<T>(qt, pt),
        line_slope::<T>(qt, pt) == line_slope::<T>(pt, qt),
        line_sum::<T>(qt, pt) == line_sum::<T>(pt, qt),
{
    if pt.x != qt.x {
        lemma_chord_slope_symmetric::<T>(pt, qt, p);
    }
    lemma_line_sum::<T>(pt, qt, a, b, p);
    lemma_line_sum::<T>(qt, pt, a, b, p);
    lemma_add_commutative::<T>(pt, qt, p);
}

/// Three points add to the same sum either way, where each of the four
/// additions is that of a proper pair.
pub proof fn lemma_associative_along_lines<T: DivInFiniteField>(
    pt: PointValue<FieldValue>,
    qt: PointValue<FieldValue>,
    rt: PointValue<FieldValue>,
    a: FieldValue,
    b: FieldValue,
    p: int,
)
    requires
        group_curve(a, b, p),
        on_group_curve::<T>(pt, a, b, p),
        on_group_curve::<T>(qt, a, b, p),
        on_group_curve::<T>(rt, a, b, p),
        proper_pair::<T>(pt, qt),
        proper_pair::<T>(qt, rt),
        proper_pair::<T>(line_sum::<T>(pt, qt), rt),
        proper_pair::<T>(pt, line_sum::<T>(qt, rt)),
    ensures
        point_add::<FieldElement<T>>(line_sum::<T>(pt, qt), rt) == point_add::<FieldElement<T>>(
            pt,
            line_sum::<T>(qt, rt),
        ),
{
    let at = line_sum::<T>(pt, qt);
    let bt = line_sum::<T>(qt, rt);
    lemma_line_sum::<T>(pt, qt, a, b, p);
    lemma_line_sum::<T>(qt, rt, a, b, p);
    lemma_line_symmetric::<T>(pt, qt, a, b, p);
    lemma_line_symmetric::<T>(qt, rt, a, b, p);
    lemma_line_symmetric::<T>(pt, bt, a, b, p);
    lemma_add_commutative::<T>(pt, bt, p);
    lemma_line_sum::<T>(bt, pt, a, b, p);
    lemma_second_slope::<T>(pt, qt, rt, a, b, p);
    lemma_second_slope::<T>(rt, qt, pt, a, b, p);
    let s = line_slope::<T>(pt, qt).num;
    let t = line_slope::<T>(qt, rt).num;
    let g = line_slope::<T>(at, rt).num;
    let h = line_slope::<T>(bt, pt).num;
    let left = line_sum::<T>(at, rt);
    let right = line_sum::<T>(bt, pt);
    let x1 = pt.x.num;
    let y1 = pt.y.num;
    let x2 = qt.x.num;
    let y2 = qt.y.num;
    let x3 = rt.x.num;
    let y3 = rt.y.num;
    if (s - t) % p == 0 {
        // the third point is the first
        assert(rt == pt);
        lemma_add_commutative::<T>(at, pt, p);
    } else {
        let l1 = rise_defect(s, x1, y1, x2, y2);
        let l3 = rise_defect(t, x2, y2, x3, y3);
        assert(path_defect(s, t, x1, y1, x2, x3, y3) == l1 + 1 * l3);
        lemma_mod_zero_combination(l1, l3, 1, p);
        lemma_sums_agree(p, g, h, s, t, x1, y1, x2, x3, y3);
        let lx = sum_x(g, s, x1, x2, x3);
        let rx = sum_x(h, t, x3, x2, x1);
        let ly = sum_y(g, s, x1, x2, x3, y3);
        let ry = sum_y(h, t, x3, x2, x1, y1);
        lemma_congruent_difference(lx, rx, p);
        lemma_congruent_difference(ly, ry, p);
        lemma_congruent_residues(left.x.num, right.x.num, p);
        lemma_congruent_residues(left.y.num, right.y.num, p);
        assert(left == right);
    }
}

/// The sum of two points of a group curve is a point of the curve.
pub proof fn lemma_sum_on_group_curve<T: DivInFiniteField>(
    pt: PointValue<FieldValue>,
    qt: PointValue<FieldValue>,
    a: FieldValue,
    b: FieldValue,
    p: int,
)
    requires
        group_curve(a, b, p),
        on_group_curve::<T>(pt, a, b, p),
        on_group_curve::<T>(qt, a, b, p),
    ensures
        point_add::<FieldElement<T>>(pt, qt) is Ok,
        on_group_curve::<T>(point_add::<FieldElement<T>>(pt, qt)->Ok_0, a, b, p),
        !is_identity::<FieldElement<T>>(pt) && !is_identity::<FieldElement<T>>(qt) && !is_identity::<
            FieldElement<T>,
        >(point_add::<FieldElement<T>>(pt, qt)->Ok_0) ==> proper_pair::<T>(pt, qt)
            && point_add::<FieldElement<T>>(pt, qt)->Ok_0 == line_sum::<T>(pt, qt),
{
    lemma_add_in_prime_field::<T>(pt, qt, p);
    lemma_mod_of_residue(0, p);
    if !is_identity::<FieldElement<T>>(pt) && !is_identity::<FieldElement<T>>(qt) && !is_identity::<
        FieldElement<T>,
    >(point_add::<FieldElement<T>>(pt, qt)->Ok_0) {
        assert(proper_pair::<T>(pt, qt));
        lemma_line_sum::<T>(pt, qt, a, b, p);
    }
}

/// The inverse of a point of a group curve is a point of the curve, and
/// the inverse of the inverse is the point.
pub proof fn lemma_neg_on_group_curve<T: DivInFiniteField>(
    pt: PointValue<FieldValue>,
    a: FieldValue,
    b: FieldValue,
    p: int,
)
    requires
        group_curve(a, b, p),
        on_group_curve::<T>(pt, a, b, p),
    ensures
        point_neg::<FieldElement<T>>(pt) is Ok,
        on_group_curve::<T>(point_neg::<FieldElement<T>>(pt)->Ok_0, a, b, p),
        point_neg::<FieldElement<T>>(point_neg::<FieldElement<T>>(pt)->Ok_0) == Ok::<
            PointValue<FieldValue>,
            MathError,
        >(pt),
        is_identity::<FieldElement<T>>(point_neg::<FieldElement<T>>(pt)->Ok_0) == is_identity::<
            FieldElement<T>,
        >(pt),
{
    lemma_neg_in_field::<T>(pt, p);
    let nt = point_neg::<FieldElement<T>>(pt)->Ok_0;
    lemma_neg_in_field::<T>(nt, p);
    lemma_well_formed_in_field::<T>(pt, p);
    lemma_well_formed_in_field::<T>(nt, p);
    lemma_mod_of_residue(0, p);
    let y = pt.y.num;
    if y != 0 {
        // the negative of y is p - y, and the negative of that is y
        lemma_mod_add_multiples_vanish(-y, p);
        lemma_mod_of_residue(p - y, p);
        lemma_mod_add_multiples_vanish(-(p - y), p);
        lemma_mod_of_residue(y, p);
    }
}

/// Two points that add up to the identity are inverse to each other.
pub proof fn lemma_zero_sum<T: DivInFiniteField>(
    pt: PointValue<FieldValue>,
    qt: PointValue<FieldValue>,
    a: FieldValue,
    b: FieldValue,
    p: int,
)
    requires
        group_curve(a, b, p),
        on_group_curve::<T>(pt, a, b, p),
        on_group_curve::<T>(qt, a, b, p),
        point_add::<FieldElement<T>>(pt, qt) is Ok,
        is_identity::<FieldElement<T>>(point_add::<FieldElement<T>>(pt, qt)->Ok_0),
    ensures
        point_neg::<FieldElement<T>>(pt) == Ok::<PointValue<FieldValue>, MathError>(qt),
{
    lemma_neg_in_field::<T>(pt, p);
    lemma_mod_of_residue(0, p);
    lemma_well_formed_in_field::<T>(pt, p);
    lemma_well_formed_in_field::<T>(qt, p);
    if is_identity::<FieldElement<T>>(pt) || is_identity::<FieldElement<T>>(qt) {
    } else if pt.x == qt.x && pt.y != qt.y {
        let y1 = pt.y.num;
        let y2 = qt.y.num;
        lemma_same_abscissa(p, pt.x.num, y1, y2, a.num, b.num);
        if (y1 - y2) % p == 0 {
            lemma_congruent_difference(y1, y2, p);
            lemma_congruent_residues(y1, y2, p);
        }
        assert(y2 - (-y1) == y1 + y2);
        lemma_congruent_difference(y2, -y1, p);
        lemma_congruent_reduced(-y1, p);
        lemma_congruent_residues(y2, (-y1) % p, p);
    } else if pt.x == qt.x && pt.y.num == 0 {
    } else {
        lemma_line_sum::<T>(pt, qt, a, b, p);
    }
}

/// Adding a point of a group curve and then its inverse leaves the first
/// summand as it was.
pub proof fn lemma_cancel<T: DivInFiniteField>(
    pt: PointValue<FieldValue>,
    qt: PointValue<FieldValue>,
    a: FieldValue,
    b: FieldValue,
    p: int,
)
    requires
        group_curve(a, b, p),
        on_group_curve::<T>(pt, a, b, p),
        on_group_curve::<T>(qt, a, b, p),
    ensures
        lifted_point_add::<FieldElement<T>>(
            point_add::<FieldElement<T>>(pt, qt),
            point_neg::<FieldElement<T>>(qt),
        ) == Ok::<PointValue<FieldValue>, MathError>(pt),
{
    lemma_not_singular::<T>(qt, a, b, p);
    lemma_subtract_after_add::<T>(pt, qt, p);
}

/// A point of a group curve and its inverse add up to the identity, in
/// either order.
pub proof fn lemma_inverse<T: DivInFiniteField>(
    pt: PointValue<FieldValue>,
    a: FieldValue,
    b: FieldValue,
    p: int,
)
    requires
        group_curve(a, b, p),
        on_group_curve::<T>(pt, a, b, p),
    ensures
        point_neg::<FieldElement<T>>(pt) is Ok,
        point_add::<FieldElement<T>>(pt, point_neg::<FieldElement<T>>(pt)->Ok_0) == Ok::<
            PointValue<FieldValue>,
            MathError,
        >(identity::<FieldElement<T>>(a, b)),
        point_add::<FieldElement<T>>(point_neg::<FieldElement<T>>(pt)->Ok_0, pt) == Ok::<
            PointValue<FieldValue>,
            MathError,
        >(identity::<FieldElement<T>>(a, b)),
{
    assert(2 * pt.y.num != p) by {
        if 2 * pt.y.num == p {
            assert(p % 2 == 0);
        }
    }
    lemma_add_inverse_in_field::<T>(pt, p);
    lemma_neg_in_field::<T>(pt, p);
    lemma_add_commutative::<T>(pt, point_neg::<FieldElement<T>>(pt)->Ok_0, p);
}

/// Where the first two of three points add up to the inverse of the third,
/// the last two add up to the inverse of the first: both ways of adding
/// the three give the identity.
pub proof fn lemma_associative_to_identity<T: DivInFiniteField>(
    pt: PointValue<FieldValue>,
    qt: PointValue<FieldValue>,
    rt: PointValue<FieldValue>,
    a: FieldValue,
    b: FieldValue,
    p: int,
)
    requires
        group_curve(a, b, p),
        on_group_curve::<T>(pt, a, b, p),
        on_group_curve::<T>(qt, a, b, p),
        on_group_curve::<T>(rt, a, b, p),
        point_add::<FieldElement<T>>(pt, qt) is Ok,
        point_add::<FieldElement<T>>(point_add::<FieldElement<T>>(pt, qt)->Ok_0, rt) == Ok::<
            PointValue<FieldValue>,
            MathError,
        >(identity::<FieldElement<T>>(a, b)),
    ensures
        point_add::<FieldElement<T>>(qt, rt) is Ok,
        point_add::<FieldElement<T>>(pt, point_add::<FieldElement<T>>(qt, rt)->Ok_0) == Ok::<
            PointValue<FieldValue>,
            MathError,
        >(identity::<FieldElement<T>>(a, b)),
{
    lemma_sum_on_group_curve::<T>(pt, qt, a, b, p);
    let at = point_add::<FieldElement<T>>(pt, qt)->Ok_0;
    lemma_mod_of_residue(0, p);
    // the third point is the inverse of the first sum
    lemma_zero_sum::<T>(at, rt, a, b, p);
    lemma_neg_on_group_curve::<T>(pt, a, b, p);
    let np = point_neg::<FieldElement<T>>(pt)->Ok_0;
    // the first sum less the first point is the second point
    lemma_cancel::<T>(qt, pt, a, b, p);
    lemma_add_commutative::<T>(qt, pt, p);
    assert(point_add::<FieldElement<T>>(at, np) == Ok::<PointValue<FieldValue>, MathError>(qt));
    lemma_add_commutative::<T>(at, np, p);
    // so the second point and the inverse of the first sum add up to the
    // inverse of the first point
    lemma_cancel::<T>(np, at, a, b, p);
    assert(point_add::<FieldElement<T>>(qt, rt) == Ok::<PointValue<FieldValue>, MathError>(np));
    lemma_inverse::<T>(pt, a, b, p);
}

/// Addition on a group curve is associative.
///
/// For any three well-formed points of one curve over a field of odd prime
/// order, where the curve has no singular point and does not pass through
/// `(0, 0)`, adding the first two and then the third gives what adding the
/// first to the sum of the last two gives.
pub proof fn lemma_add_associative<T: DivInFiniteField>(
    pt: PointValue<FieldValue>,
    qt: PointValue<FieldValue>,
    rt: PointValue<FieldValue>,
    a: FieldValue,
    b: FieldValue,
    p: int,
)
    requires
        group_curve(a, b, p),
        on_group_curve::<T>(pt, a, b, p),
        on_group_curve::<T>(qt, a, b, p),
        on_group_curve::<T>(rt, a, b, p),
    ensures
        lifted_point_add::<FieldElement<T>>(point_add::<FieldElement<T>>(pt, qt), Ok(rt))
            == lifted_point_add::<FieldElement<T>>(Ok(pt), point_add::<FieldElement<T>>(qt, rt)),
        lifted_point_add::<FieldElement<T>>(point_add::<FieldElement<T>>(pt, qt), Ok(rt)) is Ok,
{
    lemma_sum_on_group_curve::<T>(pt, qt, a, b, p);
    lemma_sum_on_group_curve::<T>(qt, rt, a, b, p);
    let at = point_add::<FieldElement<T>>(pt, qt)->Ok_0;
    let bt = point_add::<FieldElement<T>>(qt, rt)->Ok_0;
    lemma_sum_on_group_curve::<T>(at, rt, a, b, p);
    lemma_sum_on_group_curve::<T>(pt, bt, a, b, p);
    let left = point_add::<FieldElement<T>>(at, rt)->Ok_0;
    let right = point_add::<FieldElement<T>>(pt, bt)->Ok_0;
    lemma_mod_of_residue(0, p);
    if is_identity::<FieldElement<T>>(pt) || is_identity::<FieldElement<T>>(qt) || is_identity::<
        FieldElement<T>,
    >(rt) {
        lemma_add_associative_with_identity::<FieldElement<T>>(pt, qt, rt);
    } else if is_identity::<FieldElement<T>>(at) {
        // Q is the inverse of P, and P + (-P + R) is R
        lemma_zero_sum::<T>(pt, qt, a, b, p);
        lemma_neg_on_group_curve::<T>(pt, a, b, p);
        lemma_cancel::<T>(rt, qt, a, b, p);
        lemma_add_commutative::<T>(rt, qt, p);
        lemma_add_commutative::<T>(pt, bt, p);
    } else if is_identity::<FieldElement<T>>(bt) {
        // R is the inverse of Q, and (P + Q) + (-Q) is P
        lemma_zero_sum::<T>(qt, rt, a, b, p);
        lemma_cancel::<T>(pt, qt, a, b, p);
    } else if is_identity::<FieldElement<T>>(left) {
        lemma_associative_to_identity::<T>(pt, qt, rt, a, b, p);
    } else if is_identity::<FieldElement<T>>(right) {
        // the same, read from the other end
        lemma_add_commutative::<T>(pt, bt, p);
        lemma_add_commutative::<T>(qt, rt, p);
        lemma_add_commutative::<T>(pt, qt, p);
        lemma_add_commutative::<T>(at, rt, p);
        lemma_associative_to_identity::<T>(rt, qt, pt, a, b, p);
    } else {
        lemma_associative_along_lines::<T>(pt, qt, rt, a, b, p);
    }
}

/// The points of a group curve form a commutative group under addition:
/// any two have a sum on the curve, the identity is neutral, every point
/// has an inverse on the curve, and addition is commutative and
/// associative.
pub proof fn lemma_commutative_group<T: DivInFiniteField>(
    pt: PointValue<FieldValue>,
    qt: PointValue<FieldValue>,
    rt: PointValue<FieldValue>,
    a: FieldValue,
    b: FieldValue,
    p: int,
)
    requires
        group_curve(a, b, p),
        on_group_curve::<T>(pt, a, b, p),
        on_group_curve::<T>(qt, a, b, p),
        on_group_curve::<T>(rt, a, b, p),
    ensures
        point_add::<FieldElement<T>>(pt, qt) is Ok,
        on_group_curve::<T>(point_add::<FieldElement<T>>(pt, qt)->Ok_0, a, b, p),
        on_group_curve::<T>(identity::<FieldElement<T>>(a, b), a, b, p),
        point_add::<FieldElement<T>>(pt, identity::<FieldElement<T>>(a, b)) == Ok::<
            PointValue<FieldValue>,
            MathError,
        >(pt),
        point_neg::<FieldElement<T>>(pt) is Ok,
        on_group_curve::<T>(point_neg::<FieldElement<T>>(pt)->Ok_0, a, b, p),
        point_add::<FieldElement<T>>(pt, point_neg::<FieldElement<T>>(pt)->Ok_0) == Ok::<
            PointValue<FieldValue>,
            MathError,
        >(identity::<FieldElement<T>>(a, b)),
        point_add::<FieldElement<T>>(pt, qt) == point_add::<FieldElement<T>>(qt, pt),
        lifted_point_add::<FieldElement<T>>(point_add::<FieldElement<T>>(pt, qt), Ok(rt))
            == lifted_point_add::<FieldElement<T>>(Ok(pt), point_add::<FieldElement<T>>(qt, rt)),
{
    lemma_sum_on_group_curve::<T>(pt, qt, a, b, p);
    lemma_mod_of_residue(0, p);
    lemma_neg_on_group_curve::<T>(pt, a, b, p);
    lemma_inverse::<T>(pt, a, b, p);
    lemma_add_commutative::<T>(pt, qt, p);
    lemma_add_associative::<T>(pt, qt, rt, a, b, p);
}

} // verus!
