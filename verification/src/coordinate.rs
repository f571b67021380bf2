//! The arithmetic that curve points ask of their coordinates.
//!
//! A coordinate domain is either a prime field, whose elements are
//! [`FieldElement`](crate::fieldelement::FieldElement) values, or the raw
//! integers of a fixed width. Each operation may be refused: field elements
//! of different primes do not combine, nothing is divided by zero, and a raw
//! integer result must fit its type.

use crate::error::MathError;
use crate::number_theory::{lemma_product_magnitude, truncating_div};
use vstd::arithmetic::div_mod::{lemma_div_nonincreasing, lemma_div_pos_is_pos};
use vstd::prelude::*;

verus! {

/// A type whose values can serve as the coordinates and coefficients of a
/// curve point.
pub trait Coordinate: Copy + Sized {
    /// The mathematical value that a coordinate stands for.
    type Model;

    /// The model of a value.
    spec fn model(self) -> Self::Model;

    /// The models that values of the type can have.
    spec fn valid(m: Self::Model) -> bool;

    /// The zero of the domain that `m` belongs to.
    spec fn zero_of(m: Self::Model) -> Self::Model;

    /// The sum, or why there is none.
    spec fn add_spec(a: Self::Model, b: Self::Model) -> Result<Self::Model, MathError>;

    /// The difference, or why there is none.
    spec fn sub_spec(a: Self::Model, b: Self::Model) -> Result<Self::Model, MathError>;

    /// The product, or why there is none.
    spec fn mul_spec(a: Self::Model, b: Self::Model) -> Result<Self::Model, MathError>;

    /// The quotient, or why there is none.
    spec fn div_spec(a: Self::Model, b: Self::Model) -> Result<Self::Model, MathError>;

    /// Two coordinates with the same model are the same coordinate.
    proof fn lemma_model_injective(a: Self, b: Self)
        requires
            a.model() == b.model(),
        ensures
            a == b,
    ;

    /// Zero is its own negative.
    proof fn lemma_zero_minus_zero(m: Self::Model)
        requires
            Self::valid(m),
        ensures
            Self::sub_spec(Self::zero_of(m), Self::zero_of(m)) == Ok::<Self::Model, MathError>(
                Self::zero_of(m),
            ),
    ;

    /// Only zero has zero as its negative.
    proof fn lemma_negative_is_zero(m: Self::Model, y: Self::Model)
        requires
            Self::valid(y),
            Self::sub_spec(Self::zero_of(m), y) == Ok::<Self::Model, MathError>(Self::zero_of(m)),
        ensures
            y == Self::zero_of(m),
    ;

    /// The zero of the domain of `self`.
    fn zero_like(self) -> (r: Self)
        ensures
            r.model() == Self::zero_of(self.model()),
    ;

    /// Structural equality.
    fn same(self, rhs: Self) -> (r: bool)
        ensures
            r == (self.model() == rhs.model()),
    ;

    /// Adds in the arithmetic of the domain.
    fn add(self, rhs: Self) -> (r: Result<Self, MathError>)
        ensures
            match r {
                Ok(v) => Self::add_spec(self.model(), rhs.model()) == Ok::<Self::Model, MathError>(
                    v.model(),
                ),
                Err(e) => Self::add_spec(self.model(), rhs.model()) == Err::<Self::Model, MathError>(
                    e,
                ),
            },
    ;

    /// Subtracts in the arithmetic of the domain.
    fn sub(self, rhs: Self) -> (r: Result<Self, MathError>)
        ensures
            match r {
                Ok(v) => Self::sub_spec(self.model(), rhs.model()) == Ok::<Self::Model, MathError>(
                    v.model(),
                ),
                Err(e) => Self::sub_spec(self.model(), rhs.model()) == Err::<Self::Model, MathError>(
                    e,
                ),
            },
    ;

    /// Multiplies in the arithmetic of the domain.
    fn mul(self, rhs: Self) -> (r: Result<Self, MathError>)
        ensures
            match r {
                Ok(v) => Self::mul_spec(self.model(), rhs.model()) == Ok::<Self::Model, MathError>(
                    v.model(),
                ),
                Err(e) => Self::mul_spec(self.model(), rhs.model()) == Err::<Self::Model, MathError>(
                    e,
                ),
            },
    ;

    /// Divides in the arithmetic of the domain.
    fn div(self, rhs: Self) -> (r: Result<Self, MathError>)
        ensures
            match r {
                Ok(v) => Self::div_spec(self.model(), rhs.model()) == Ok::<Self::Model, MathError>(
                    v.model(),
                ),
                Err(e) => Self::div_spec(self.model(), rhs.model()) == Err::<Self::Model, MathError>(
                    e,
                ),
            },
    ;
}

/// A raw 32-bit result: itself when it fits, refused when it does not.
pub open spec fn fit_i32(v: int) -> Result<int, MathError> {
    if i32::MIN <= v <= i32::MAX {
        Ok(v)
    } else {
        Err(MathError::OverflowError)
    }
}

/// A raw 64-bit result: itself when it fits, refused when it does not.
pub open spec fn fit_i64(v: int) -> Result<int, MathError> {
    if i64::MIN <= v <= i64::MAX {
        Ok(v)
    } else {
        Err(MathError::OverflowError)
    }
}

fn narrow_i32(wide: i128) -> (r: Result<i32, MathError>)
    ensures
        match r {
            Ok(v) => fit_i32(wide as int) == Ok::<int, MathError>(v as int),
            Err(e) => fit_i32(wide as int) == Err::<int, MathError>(e),
        },
{
    if wide < i32::MIN as i128 || wide > i32::MAX as i128 {
        Err(MathError::OverflowError)
    } else {
        Ok(wide as i32)
    }
}

fn narrow_i64(wide: i128) -> (r: Result<i64, MathError>)
    ensures
        match r {
            Ok(v) => fit_i64(wide as int) == Ok::<int, MathError>(v as int),
            Err(e) => fit_i64(wide as int) == Err::<int, MathError>(e),
        },
{
    if wide < i64::MIN as i128 || wide > i64::MAX as i128 {
        Err(MathError::OverflowError)
    } else {
        Ok(wide as i64)
    }
}

/// Divides the magnitudes and puts the sign back, which rounds the quotient
/// toward zero.
fn wide_quotient(a: i128, b: i128) -> (r: i128)
    requires
        b != 0,
        i64::MIN <= a <= i64::MAX,
        i64::MIN <= b <= i64::MAX,
    ensures
        r == truncating_div(a as int, b as int),
{
    let n: i128 = if a < 0 {
        -a
    } else {
        a
    };
    let d: i128 = if b < 0 {
        -b
    } else {
        b
    };
    let q: i128 = n / d;
    proof {
        lemma_div_nonincreasing(n as int, d as int);
        lemma_div_pos_is_pos(n as int, d as int);
    }
    if (a < 0) == (b < 0) {
        q
    } else {
        -q
    }
}

/// Raw 32-bit integers: ordinary arithmetic, with division rounding toward
/// zero, refused where the result leaves the range of `i32`.
impl Coordinate for i32 {
    type Model = int;

    open spec fn model(self) -> int {
        self as int
    }

    open spec fn valid(m: int) -> bool {
        i32::MIN <= m <= i32::MAX
    }

    open spec fn zero_of(m: int) -> int {
        0
    }

    open spec fn add_spec(a: int, b: int) -> Result<int, MathError> {
        fit_i32(a + b)
    }

    open spec fn sub_spec(a: int, b: int) -> Result<int, MathError> {
        fit_i32(a - b)
    }

    open spec fn mul_spec(a: int, b: int) -> Result<int, MathError> {
        fit_i32(a * b)
    }

    open spec fn div_spec(a: int, b: int) -> Result<int, MathError> {
        if b == 0 {
            Err(MathError::DivisionByZeroError)
        } else {
            fit_i32(truncating_div(a, b))
        }
    }

    proof fn lemma_model_injective(a: Self, b: Self) {
    }

    proof fn lemma_zero_minus_zero(m: int) {
    }

    proof fn lemma_negative_is_zero(m: int, y: int) {
    }

    fn zero_like(self) -> (r: Self) {
        0
    }

    fn same(self, rhs: Self) -> (r: bool) {
        self == rhs
    }

    fn add(self, rhs: Self) -> (r: Result<Self, MathError>) {
        narrow_i32(self as i128 + rhs as i128)
    }

    fn sub(self, rhs: Self) -> (r: Result<Self, MathError>) {
        narrow_i32(self as i128 - rhs as i128)
    }

    fn mul(self, rhs: Self) -> (r: Result<Self, MathError>) {
        proof {
            lemma_product_magnitude(self as int, rhs as int, 0x8000_0000);
        }
        narrow_i32((self as i128) * (rhs as i128))
    }

    fn div(self, rhs: Self) -> (r: Result<Self, MathError>) {
        if rhs == 0 {
            Err(MathError::DivisionByZeroError)
        } else {
            narrow_i32(wide_quotient(self as i128, rhs as i128))
        }
    }
}

/// Raw 64-bit integers: ordinary arithmetic, with division rounding toward
/// zero, refused where the result leaves the range of `i64`.
impl Coordinate for i64 {
    type Model = int;

    open spec fn model(self) -> int {
        self as int
    }

    open spec fn valid(m: int) -> bool {
        i64::MIN <= m <= i64::MAX
    }

    open spec fn zero_of(m: int) -> int {
        0
    }

    open spec fn add_spec(a: int, b: int) -> Result<int, MathError> {
        fit_i64(a + b)
    }

    open spec fn sub_spec(a: int, b: int) -> Result<int, MathError> {
        fit_i64(a - b)
    }

    open spec fn mul_spec(a: int, b: int) -> Result<int, MathError> {
        fit_i64(a * b)
    }

    open spec fn div_spec(a: int, b: int) -> Result<int, MathError> {
        if b == 0 {
            Err(MathError::DivisionByZeroError)
        } else {
            fit_i64(truncating_div(a, b))
        }
    }

    proof fn lemma_model_injective(a: Self, b: Self) {
    }

    proof fn lemma_zero_minus_zero(m: int) {
    }

    proof fn lemma_negative_is_zero(m: int, y: int) {
    }

    fn zero_like(self) -> (r: Self) {
        0
    }

    fn same(self, rhs: Self) -> (r: bool) {
        self == rhs
    }

    fn add(self, rhs: Self) -> (r: Result<Self, MathError>) {
        narrow_i64(self as i128 + rhs as i128)
    }

    fn sub(self, rhs: Self) -> (r: Result<Self, MathError>) {
        narrow_i64(self as i128 - rhs as i128)
    }

    fn mul(self, rhs: Self) -> (r: Result<Self, MathError>) {
        proof {
            lemma_product_magnitude(self as int, rhs as int, 0x8000_0000_0000_0000);
        }
        narrow_i64((self as i128) * (rhs as i128))
    }

    fn div(self, rhs: Self) -> (r: Result<Self, MathError>) {
        if rhs == 0 {
            Err(MathError::DivisionByZeroError)
        } else {
            narrow_i64(wide_quotient(self as i128, rhs as i128))
        }
    }
}

} // verus!
