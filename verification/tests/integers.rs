use ecfield::{Coordinate, DivInFiniteField, FieldInt, MathError, Pow};

#[test]
fn reduce_gives_the_euclidean_remainder() {
    assert_eq!(FieldInt::reduce(-3i32, 6), 3);
    assert_eq!(FieldInt::reduce(-6i32, 6), 0);
    assert_eq!(FieldInt::reduce(15i32, 6), 3);
    assert_eq!(FieldInt::reduce(i64::MIN, i64::MAX), i64::MAX - 1);
    assert_eq!(FieldInt::reduce(i32::MIN, 1), 0);
}

#[test]
fn modular_sum_difference_and_product() {
    assert_eq!(FieldInt::add_mod(5i32, 4, 7), 2);
    assert_eq!(FieldInt::sub_mod(2i32, 5, 7), 4);
    assert_eq!(FieldInt::mul_mod(5i32, 4, 7), 6);
    assert_eq!(FieldInt::add_mod(i64::MAX, i64::MAX, i64::MAX), 0);
    assert_eq!(FieldInt::sub_mod(i64::MIN, i64::MAX, 10), 5);
    assert_eq!(FieldInt::mul_mod(i64::MIN, i64::MIN, i64::MAX), 1);
    assert_eq!(FieldInt::mul_mod(-3i32, 5, 7), 6);
}

#[test]
fn small_constants_and_comparisons() {
    assert_eq!(<i32 as FieldInt>::zero(), 0);
    assert_eq!(<i64 as FieldInt>::one(), 1);
    assert!(FieldInt::less_than(-1i32, 0));
    assert!(!FieldInt::less_than(3i64, 3));
    assert!(FieldInt::equals(3i64, 3));
    assert_eq!(FieldInt::pred(7i32), 6);
}

#[test]
fn modular_power() {
    assert_eq!(Pow::pow(2i32, 10, 1000), 24);
    assert_eq!(Pow::pow(5i32, 3, 7), 6);
    assert_eq!(Pow::pow(0i32, 0, 7), 1);
    assert_eq!(Pow::pow(0i32, 5, 7), 0);
    assert_eq!(Pow::pow(9i64, 0, 1), 0);
    assert_eq!(Pow::pow(-2i64, 3, 7), 6);
    assert_eq!(Pow::pow(3i64, i64::MAX, 2), 1);
    // Fermat: a^(p-1) = 1 modulo the prime 2^61 - 1
    assert_eq!(Pow::pow(123456789i64, 2305843009213693950, 2305843009213693951), 1);
}

#[test]
fn division_by_way_of_the_power() {
    assert_eq!(DivInFiniteField::div_in_finite_field(2i32, 5, 7), 6);
    assert_eq!(DivInFiniteField::div_in_finite_field(7i64, 5, 19), 9);
    // the zero divisor has no inverse; its power is zero
    assert_eq!(DivInFiniteField::div_in_finite_field(3i32, 0, 7), 0);
}

#[test]
fn raw_integer_arithmetic_is_exact_within_range() {
    assert_eq!(Coordinate::add(2i32, 3), Ok(5));
    assert_eq!(Coordinate::sub(2i32, 3), Ok(-1));
    assert_eq!(Coordinate::mul(-4i32, 3), Ok(-12));
    assert_eq!(Coordinate::div(8i32, -2), Ok(-4));
    assert_eq!(Coordinate::add(2i64, 3), Ok(5));
    assert_eq!(Coordinate::mul(1i64 << 31, 1i64 << 31), Ok(1i64 << 62));
}

#[test]
fn raw_integer_division_rounds_toward_zero() {
    assert_eq!(Coordinate::div(7i32, 2), Ok(3));
    assert_eq!(Coordinate::div(-7i32, 2), Ok(-3));
    assert_eq!(Coordinate::div(7i32, -2), Ok(-3));
    assert_eq!(Coordinate::div(-7i32, -2), Ok(3));
    assert_eq!(Coordinate::div(-7i64, 2), Ok(-3));
    assert_eq!(Coordinate::div(i64::MIN, 1), Ok(i64::MIN));
}

#[test]
fn raw_integer_overflow_is_refused() {
    assert_eq!(Coordinate::add(i32::MAX, 1), Err(MathError::OverflowError));
    assert_eq!(Coordinate::sub(i32::MIN, 1), Err(MathError::OverflowError));
    assert_eq!(Coordinate::mul(1i32 << 16, 1i32 << 15), Err(MathError::OverflowError));
    assert_eq!(Coordinate::div(i32::MIN, -1), Err(MathError::OverflowError));
    assert_eq!(Coordinate::add(i64::MAX, 1), Err(MathError::OverflowError));
    assert_eq!(Coordinate::mul(i64::MAX, 2), Err(MathError::OverflowError));
    assert_eq!(Coordinate::div(i64::MIN, -1), Err(MathError::OverflowError));
    assert_eq!(Coordinate::mul(1i32 << 15, 1i32 << 15), Ok(1i32 << 30));
}

#[test]
fn raw_integer_division_by_zero_is_refused() {
    assert_eq!(Coordinate::div(1i32, 0), Err(MathError::DivisionByZeroError));
    assert_eq!(Coordinate::div(0i64, 0), Err(MathError::DivisionByZeroError));
}

#[test]
fn raw_integer_zero_and_equality() {
    assert_eq!(Coordinate::zero_like(17i32), 0);
    assert!(Coordinate::same(17i64, 17));
    assert!(!Coordinate::same(17i64, 18));
}
