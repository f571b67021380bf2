//! Points of a short-Weierstrass curve `y^2 = x^3 + a*x + b`, and their
//! group law.
//!
//! A point carries its coordinates and the coefficients of its curve. The
//! identity of the group, the point at infinity, is written as the point
//! whose two coordinates are the zero of the domain of `a`. The view of a
//! point is the [`PointValue`] of the models of its four parts, and
//! [`point_add`] defines the sum of two views.

use crate::coordinate::Coordinate;
use crate::error::MathError;
use vstd::prelude::*;
use vstd::std_specs::cmp::PartialEqSpecImpl;

verus! {

/// The mathematical content of a point: coordinates `x`, `y` and curve
/// coefficients `a`, `b`.
pub struct PointValue<M> {
    pub x: M,
    pub y: M,
    pub a: M,
    pub b: M,
}

/// The sum of two outcomes: the first refusal, if there is one.
pub open spec fn lifted_add<T: Coordinate>(
    l: Result<T::Model, MathError>,
    r: Result<T::Model, MathError>,
) -> Result<T::Model, MathError> {
    match (l, r) {
        (Ok(u), Ok(v)) => T::add_spec(u, v),
        (Err(e), _) => Err(e),
        (_, Err(e)) => Err(e),
    }
}

/// The difference of two outcomes: the first refusal, if there is one.
pub open spec fn lifted_sub<T: Coordinate>(
    l: Result<T::Model, MathError>,
    r: Result<T::Model, MathError>,
) -> Result<T::Model, MathError> {
    match (l, r) {
        (Ok(u), Ok(v)) => T::sub_spec(u, v),
        (Err(e), _) => Err(e),
        (_, Err(e)) => Err(e),
    }
}

/// The product of two outcomes: the first refusal, if there is one.
pub open spec fn lifted_mul<T: Coordinate>(
    l: Result<T::Model, MathError>,
    r: Result<T::Model, MathError>,
) -> Result<T::Model, MathError> {
    match (l, r) {
        (Ok(u), Ok(v)) => T::mul_spec(u, v),
        (Err(e), _) => Err(e),
        (_, Err(e)) => Err(e),
    }
}

/// The quotient of two outcomes: the first refusal, if there is one.
pub open spec fn lifted_div<T: Coordinate>(
    l: Result<T::Model, MathError>,
    r: Result<T::Model, MathError>,
) -> Result<T::Model, MathError> {
    match (l, r) {
        (Ok(u), Ok(v)) => T::div_spec(u, v),
        (Err(e), _) => Err(e),
        (_, Err(e)) => Err(e),
    }
}

/// The identity of the curve with coefficients `a` and `b`.
pub open spec fn identity<T: Coordinate>(a: T::Model, b: T::Model) -> PointValue<T::Model> {
    PointValue { x: T::zero_of(a), y: T::zero_of(a), a, b }
}

/// Whether a point is the identity of its curve.
pub open spec fn is_identity<T: Coordinate>(p: PointValue<T::Model>) -> bool {
    p.x == T::zero_of(p.a) && p.y == T::zero_of(p.a)
}

/// The left side of the curve equation, `y^2`.
pub open spec fn equation_left<T: Coordinate>(p: PointValue<T::Model>) -> Result<
    T::Model,
    MathError,
> {
    T::mul_spec(p.y, p.y)
}

/// The right side of the curve equation, `x^3 + a*x + b`.
pub open spec fn equation_right<T: Coordinate>(p: PointValue<T::Model>) -> Result<
    T::Model,
    MathError,
> {
    lifted_add::<T>(
        lifted_add::<T>(lifted_mul::<T>(T::mul_spec(p.x, p.x), Ok(p.x)), T::mul_spec(p.a, p.x)),
        Ok(p.b),
    )
}

/// Whether the coordinates satisfy the curve equation, in the arithmetic of
/// the coordinate domain; the refusal, where that arithmetic refuses.
pub open spec fn satisfies_equation<T: Coordinate>(p: PointValue<T::Model>) -> Result<
    bool,
    MathError,
> {
    match equation_left::<T>(p) {
        Err(e) => Err(e),
        Ok(left) => match equation_right::<T>(p) {
            Err(e) => Err(e),
            Ok(right) => Ok(left == right),
        },
    }
}

/// A point is well formed when it is the identity or lies on its curve.
pub open spec fn well_formed<T: Coordinate>(p: PointValue<T::Model>) -> bool {
    is_identity::<T>(p) || satisfies_equation::<T>(p) == Ok::<bool, MathError>(true)
}

/// Construction succeeds for the identity and for points on the curve.
pub open spec fn point_new<T: Coordinate>(p: PointValue<T::Model>) -> Result<
    PointValue<T::Model>,
    MathError,
> {
    if is_identity::<T>(p) {
        Ok(p)
    } else {
        match satisfies_equation::<T>(p) {
            Err(e) => Err(e),
            Ok(true) => Ok(p),
            Ok(false) => Err(MathError::NotOnCurveError),
        }
    }
}

/// The slope of the chord through two points of different `x`:
/// `(q.y - p.y) / (q.x - p.x)`.
pub open spec fn chord_slope<T: Coordinate>(
    p: PointValue<T::Model>,
    q: PointValue<T::Model>,
) -> Result<T::Model, MathError> {
    lifted_div::<T>(T::sub_spec(q.y, p.y), T::sub_spec(q.x, p.x))
}

/// The slope of the tangent at a point: `(3*x^2 + a) / (2*y)`.
pub open spec fn tangent_slope<T: Coordinate>(p: PointValue<T::Model>) -> Result<
    T::Model,
    MathError,
> {
    let square = T::mul_spec(p.x, p.x);
    lifted_div::<T>(
        lifted_add::<T>(lifted_add::<T>(lifted_add::<T>(square, square), square), Ok(p.a)),
        T::add_spec(p.y, p.y),
    )
}

/// The third point of the curve on the line of slope `s` through `p` and a
/// point of abscissa `qx`, reflected in the x-axis:
/// `x3 = s^2 - p.x - qx`, `y3 = s*(p.x - x3) - p.y`.
pub open spec fn reflected_third_point<T: Coordinate>(
    slope: Result<T::Model, MathError>,
    p: PointValue<T::Model>,
    qx: T::Model,
) -> Result<PointValue<T::Model>, MathError> {
    let x3 = lifted_sub::<T>(lifted_sub::<T>(lifted_mul::<T>(slope, slope), Ok(p.x)), Ok(qx));
    let y3 = lifted_sub::<T>(lifted_mul::<T>(slope, lifted_sub::<T>(Ok(p.x), x3)), Ok(p.y));
    match (x3, y3) {
        (Ok(x), Ok(y)) => point_new::<T>(PointValue { x, y, a: p.a, b: p.b }),
        (Err(e), _) => Err(e),
        (_, Err(e)) => Err(e),
    }
}

/// The sum of two points.
///
/// Points of different curves do not add. The identity leaves the other
/// point unchanged. Two points of equal `x` and different `y` are inverse
/// to each other. Two points of different `x` add along their chord. A
/// point added to itself is the identity if its `y` is zero, where the
/// tangent is vertical, and follows its tangent otherwise.
pub open spec fn point_add<T: Coordinate>(
    p: PointValue<T::Model>,
    q: PointValue<T::Model>,
) -> Result<PointValue<T::Model>, MathError> {
    if p.a != q.a || p.b != q.b {
        Err(MathError::CurveMismatchError)
    } else if is_identity::<T>(p) {
        Ok(q)
    } else if is_identity::<T>(q) {
        Ok(p)
    } else if p.x == q.x && p.y != q.y {
        Ok(identity::<T>(p.a, p.b))
    } else if p.x != q.x {
        reflected_third_point::<T>(chord_slope::<T>(p, q), p, q.x)
    } else if p.y == T::zero_of(p.a) {
        Ok(identity::<T>(p.a, p.b))
    } else {
        reflected_third_point::<T>(tangent_slope::<T>(p), p, p.x)
    }
}

/// The inverse of a point: the same `x`, and `y` negated.
pub open spec fn point_neg<T: Coordinate>(p: PointValue<T::Model>) -> Result<
    PointValue<T::Model>,
    MathError,
> {
    match T::sub_spec(T::zero_of(p.a), p.y) {
        Ok(y) => Ok(PointValue { x: p.x, y, a: p.a, b: p.b }),
        Err(e) => Err(e),
    }
}

/// The sum of two outcomes of earlier additions: the first refusal, if
/// there is one.
pub open spec fn lifted_point_add<T: Coordinate>(
    l: Result<PointValue<T::Model>, MathError>,
    r: Result<PointValue<T::Model>, MathError>,
) -> Result<PointValue<T::Model>, MathError> {
    match (l, r) {
        (Ok(p), Ok(q)) => point_add::<T>(p, q),
        (Err(e), _) => Err(e),
        (_, Err(e)) => Err(e),
    }
}

/// A sum lies on the curve of its summands, and is well formed when they
/// are.
pub proof fn lemma_add_stays_on_curve<T: Coordinate>(
    p: PointValue<T::Model>,
    q: PointValue<T::Model>,
)
    requires
        point_add::<T>(p, q) is Ok,
    ensures
        point_add::<T>(p, q)->Ok_0.a == p.a,
        point_add::<T>(p, q)->Ok_0.b == p.b,
        well_formed::<T>(p) && well_formed::<T>(q) ==> well_formed::<T>(point_add::<T>(p, q)->Ok_0),
{
}

/// The identity of its curve, added on either side, leaves a point as it
/// is.
pub proof fn lemma_add_identity<T: Coordinate>(p: PointValue<T::Model>)
    ensures
        point_add::<T>(p, identity::<T>(p.a, p.b)) == Ok::<PointValue<T::Model>, MathError>(p),
        point_add::<T>(identity::<T>(p.a, p.b), p) == Ok::<PointValue<T::Model>, MathError>(p),
{
}

/// A point and its inverse add up to the identity.
///
/// The inverse has to exist, which over raw integers excludes the one `y`
/// whose negative does not fit. And a non-zero `y` must differ from its
/// negative, which holds over the integers and in every field but that of
/// two elements: there a point is its own inverse, and adding it to itself
/// is a doubling.
pub proof fn lemma_add_inverse<T: Coordinate>(p: PointValue<T::Model>)
    requires
        T::valid(p.a),
        T::valid(p.y),
        point_neg::<T>(p) is Ok,
        point_neg::<T>(p)->Ok_0.y != p.y || p.y == T::zero_of(p.a),
    ensures
        point_add::<T>(p, point_neg::<T>(p)->Ok_0) == Ok::<PointValue<T::Model>, MathError>(
            identity::<T>(p.a, p.b),
        ),
{
    let q = point_neg::<T>(p)->Ok_0;
    T::lemma_zero_minus_zero(p.a);
    if is_identity::<T>(q) {
        T::lemma_negative_is_zero(p.a, p.y);
    }
}

/// Over raw 32-bit integers every well-formed point has an inverse, and
/// the two add up to the identity.
pub proof fn lemma_add_inverse_i32(p: PointValue<int>)
    requires
        <i32 as Coordinate>::valid(p.y),
        well_formed::<i32>(p),
    ensures
        point_neg::<i32>(p) == Ok::<PointValue<int>, MathError>(
            PointValue { x: p.x, y: -p.y, a: p.a, b: p.b },
        ),
        point_add::<i32>(p, point_neg::<i32>(p)->Ok_0) == Ok::<PointValue<int>, MathError>(
            identity::<i32>(p.a, p.b),
        ),
{
    // the square of the least ordinate does not fit, so no point has it
    assert(p.y == i32::MIN ==> p.y * p.y == 0x4000_0000_0000_0000) by (nonlinear_arith);
}

/// Over raw 64-bit integers every well-formed point has an inverse, and
/// the two add up to the identity.
pub proof fn lemma_add_inverse_i64(p: PointValue<int>)
    requires
        <i64 as Coordinate>::valid(p.y),
        well_formed::<i64>(p),
    ensures
        point_neg::<i64>(p) == Ok::<PointValue<int>, MathError>(
            PointValue { x: p.x, y: -p.y, a: p.a, b: p.b },
        ),
        point_add::<i64>(p, point_neg::<i64>(p)->Ok_0) == Ok::<PointValue<int>, MathError>(
            identity::<i64>(p.a, p.b),
        ),
{
    assert(p.y == i64::MIN ==> p.y * p.y == 0x4000_0000_0000_0000_0000_0000_0000_0000)
        by (nonlinear_arith);
}

/// Addition is associative wherever one of the three points is the
/// identity of the common curve.
pub proof fn lemma_add_associative_with_identity<T: Coordinate>(
    p: PointValue<T::Model>,
    q: PointValue<T::Model>,
    r: PointValue<T::Model>,
)
    requires
        p.a == q.a && q.a == r.a,
        p.b == q.b && q.b == r.b,
        is_identity::<T>(p) || is_identity::<T>(q) || is_identity::<T>(r),
    ensures
        lifted_point_add::<T>(point_add::<T>(p, q), Ok(r)) == lifted_point_add::<T>(
            Ok(p),
            point_add::<T>(q, r),
        ),
{
    if point_add::<T>(p, q) is Ok {
        lemma_add_stays_on_curve::<T>(p, q);
    }
    if point_add::<T>(q, r) is Ok {
        lemma_add_stays_on_curve::<T>(q, r);
    }
}

/// A point of the curve `y^2 = x^3 + a*x + b`, or the identity of its group.
///
/// Values are immutable: addition returns a new point.
#[derive(Debug)]
pub struct EllipticCurvePoint<T: Coordinate> {
    a: T,
    b: T,
    x: T,
    y: T,
}

impl<T: Coordinate> View for EllipticCurvePoint<T> {
    type V = PointValue<T::Model>;

    closed spec fn view(&self) -> PointValue<T::Model> {
        PointValue { x: self.x.model(), y: self.y.model(), a: self.a.model(), b: self.b.model() }
    }
}

/// The outcome of an operation, with the point replaced by its view.
pub open spec fn view_of<T: Coordinate>(r: Result<EllipticCurvePoint<T>, MathError>) -> Result<
    PointValue<T::Model>,
    MathError,
> {
    match r {
        Ok(p) => Ok(p@),
        Err(e) => Err(e),
    }
}

impl<T: Coordinate> EllipticCurvePoint<T> {
    /// Every point that executable code holds is the identity or lies on its
    /// curve.
    #[verifier::type_invariant]
    pub open spec fn wf(self) -> bool {
        well_formed::<T>(self@)
    }

    /// Two points with the same view are the same point.
    pub proof fn lemma_view_injective(p: Self, q: Self)
        requires
            p@ == q@,
        ensures
            p == q,
    {
        T::lemma_model_injective(p.x, q.x);
        T::lemma_model_injective(p.y, q.y);
        T::lemma_model_injective(p.a, q.a);
        T::lemma_model_injective(p.b, q.b);
    }

    /// Makes the point `(x, y)` of the curve with coefficients `a` and `b`.
    /// The identity is always accepted; any other pair must satisfy the
    /// curve equation.
    pub fn new(x: T, y: T, a: T, b: T) -> (r: Result<Self, MathError>)
        ensures
            view_of(r) == point_new::<T>(
                PointValue { x: x.model(), y: y.model(), a: a.model(), b: b.model() },
            ),
    {
        let zero = a.zero_like();
        if x.same(zero) && y.same(zero) {
            return Ok(EllipticCurvePoint { a, b, x, y });
        }
        let left = y.mul(y)?;
        let square = x.mul(x)?;
        let cube = square.mul(x)?;
        let linear = a.mul(x)?;
        let right = cube.add(linear)?.add(b)?;
        if left.same(right) {
            Ok(EllipticCurvePoint { a, b, x, y })
        } else {
            Err(MathError::NotOnCurveError)
        }
    }

    /// The identity of the curve with coefficients `a` and `b`.
    pub fn new_infinity(a: T, b: T) -> (r: Self)
        ensures
            r@ == identity::<T>(a.model(), b.model()),
    {
        let zero = a.zero_like();
        EllipticCurvePoint { a, b, x: zero, y: zero }
    }

    /// The first coordinate.
    pub fn x(&self) -> (r: T)
        ensures
            r.model() == self@.x,
    {
        self.x
    }

    /// The second coordinate.
    pub fn y(&self) -> (r: T)
        ensures
            r.model() == self@.y,
    {
        self.y
    }

    /// The coefficient of `x` in the curve equation.
    pub fn a(&self) -> (r: T)
        ensures
            r.model() == self@.a,
    {
        self.a
    }

    /// The constant term of the curve equation.
    pub fn b(&self) -> (r: T)
        ensures
            r.model() == self@.b,
    {
        self.b
    }

    /// Whether the point is the identity of its curve.
    pub fn is_infinity(&self) -> (r: bool)
        ensures
            r == is_identity::<T>(self@),
    {
        let zero = self.a.zero_like();
        self.x.same(zero) && self.y.same(zero)
    }

    /// The sum of two points of one curve.
    pub fn add(self, other: Self) -> (r: Result<Self, MathError>)
        ensures
            view_of(r) == point_add::<T>(self@, other@),
    {
        if !self.a.same(other.a) || !self.b.same(other.b) {
            return Err(MathError::CurveMismatchError);
        }
        if self.is_infinity() {
            return Ok(other);
        }
        if other.is_infinity() {
            return Ok(self);
        }
        if self.x.same(other.x) && !self.y.same(other.y) {
            return Ok(Self::new_infinity(self.a, self.b));
        }
        if !self.x.same(other.x) {
            let rise = other.y.sub(self.y)?;
            let run = other.x.sub(self.x)?;
            let slope = rise.div(run)?;
            return self.reflected_third_point(slope, other.x);
        }
        if self.y.same(self.a.zero_like()) {
            return Ok(Self::new_infinity(self.a, self.b));
        }
        let square = self.x.mul(self.x)?;
        let numerator = square.add(square)?.add(square)?.add(self.a)?;
        let denominator = self.y.add(self.y)?;
        let slope = numerator.div(denominator)?;
        self.reflected_third_point(slope, self.x)
    }

    /// Completes an addition once the slope of the line is known.
    fn reflected_third_point(self, slope: T, qx: T) -> (r: Result<Self, MathError>)
        ensures
            view_of(r) == reflected_third_point::<T>(
                Ok::<T::Model, MathError>(slope.model()),
                self@,
                qx.model(),
            ),
    {
        let x = slope.mul(slope)?.sub(self.x)?.sub(qx)?;
        let y = slope.mul(self.x.sub(x)?)?.sub(self.y)?;
        Self::new(x, y, self.a, self.b)
    }
}

impl<T: Coordinate> Clone for EllipticCurvePoint<T> {
    fn clone(&self) -> (r: Self)
        ensures
            r == *self,
    {
        *self
    }
}

impl<T: Coordinate> Copy for EllipticCurvePoint<T> {

}

impl<T: Coordinate> PartialEq for EllipticCurvePoint<T> {
    /// Two points are equal when coordinates and coefficients all agree.
    fn eq(&self, other: &Self) -> (r: bool) {
        proof {
            if self@ == other@ {
                Self::lemma_view_injective(*self, *other);
            }
        }
        self.x.same(other.x) && self.y.same(other.y) && self.a.same(other.a) && self.b.same(
            other.b,
        )
    }
}

impl<T: Coordinate> PartialEqSpecImpl for EllipticCurvePoint<T> {
    open spec fn obeys_eq_spec() -> bool {
        true
    }

    open spec fn eq_spec(&self, other: &Self) -> bool {
        self@ == other@
    }
}

} // verus!
