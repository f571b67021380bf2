use ecfield::{Coordinate, EllipticCurvePoint, FieldElement, MathError};

type Element = FieldElement<i64>;
type FieldPoint = EllipticCurvePoint<Element>;

fn fe(num: i64) -> Element {
    FieldElement::new(num, 223).unwrap()
}

/// A point of `y^2 = x^3 + 7` over the field of 223 elements.
fn point(x: i64, y: i64) -> FieldPoint {
    EllipticCurvePoint::new(fe(x), fe(y), fe(0), fe(7)).unwrap()
}

fn infinity() -> FieldPoint {
    EllipticCurvePoint::new_infinity(fe(0), fe(7))
}

#[test]
fn addition1() {
    let point1 = EllipticCurvePoint::new(0, 0, 5, 7).unwrap();
    let point2 = EllipticCurvePoint::new(2, 5, 5, 7).unwrap();
    let sum_of_points = point1.add(point2).unwrap();
    let expected_result = EllipticCurvePoint::new(2, 5, 5, 7).unwrap();
    assert_eq!(sum_of_points, expected_result);
}

#[test]
fn addition2() {
    let point1 = EllipticCurvePoint::new(0, 0, 5, 7).unwrap();
    let point2 = EllipticCurvePoint::new(2, 5, 5, 7).unwrap();
    let sum_of_points = point2.add(point1).unwrap();
    let expected_result = EllipticCurvePoint::new(2, 5, 5, 7).unwrap();
    assert_eq!(sum_of_points, expected_result);
}

#[test]
fn addition3() {
    let point1 = EllipticCurvePoint::new(2, -5, 5, 7).unwrap();
    let point2 = EllipticCurvePoint::new(2, 5, 5, 7).unwrap();
    let sum_of_points = point2.add(point1).unwrap();
    let expected_result = EllipticCurvePoint::new(0, 0, 5, 7).unwrap();
    assert_eq!(sum_of_points, expected_result);
}

#[test]
fn addition4() {
    let point1 = EllipticCurvePoint::new(3, 7, 5, 7).unwrap();
    let point2 = EllipticCurvePoint::new(-1, -1, 5, 7).unwrap();
    let sum_of_points = point2.add(point1).unwrap();
    let expected_result = EllipticCurvePoint::new(2, -5, 5, 7).unwrap();
    assert_eq!(sum_of_points, expected_result);
}

#[test]
fn addition5() {
    let point1 = EllipticCurvePoint::new(-1, -1, 5, 7).unwrap();
    let point2 = EllipticCurvePoint::new(-1, -1, 5, 7).unwrap();
    let sum_of_points = point2.add(point1).unwrap();
    let expected_result = EllipticCurvePoint::new(18, 77, 5, 7).unwrap();
    assert_eq!(sum_of_points, expected_result);
}

#[test]
fn not_equal() {
    let point1 = EllipticCurvePoint::new(3, -7, 5, 7).unwrap();
    let point2 = EllipticCurvePoint::new(18, 77, 5, 7).unwrap();
    assert!(point1 != point2);
}

#[test]
fn equal() {
    let point1 = EllipticCurvePoint::new(3, -7, 5, 7).unwrap();
    let point2 = EllipticCurvePoint::new(3, -7, 5, 7).unwrap();
    assert!(point1 == point2);
}

#[test]
fn new_rejects_point_off_the_curve() {
    assert_eq!(EllipticCurvePoint::new(1, 1, 5, 7), Err(MathError::NotOnCurveError));
    assert_eq!(
        EllipticCurvePoint::new(fe(200), fe(119), fe(0), fe(7)),
        Err(MathError::NotOnCurveError)
    );
}

#[test]
fn new_accepts_the_sentinel_as_the_identity() {
    let sentinel = EllipticCurvePoint::new(0, 0, 5, 7).unwrap();
    assert_eq!(sentinel, EllipticCurvePoint::new_infinity(5, 7));
    assert!(sentinel.is_infinity());
    assert!(!EllipticCurvePoint::new(2, 5, 5, 7).unwrap().is_infinity());
    assert_eq!(EllipticCurvePoint::new(fe(0), fe(0), fe(0), fe(7)), Ok(infinity()));
    assert!(infinity().is_infinity());
}

#[test]
fn new_refuses_coordinates_of_another_field() {
    let elsewhere = |n: i64| FieldElement::new(n, 227).unwrap();
    // the curve equation cannot be evaluated with x from another field
    assert_eq!(
        EllipticCurvePoint::new(elsewhere(192), fe(105), fe(0), fe(7)),
        Err(MathError::FieldMismatchError)
    );
    assert_eq!(
        EllipticCurvePoint::new(elsewhere(0), elsewhere(0), fe(0), fe(7)),
        Err(MathError::FieldMismatchError)
    );
    // with y from another field its two sides are never equal
    assert_eq!(
        EllipticCurvePoint::new(fe(192), elsewhere(105), fe(0), fe(7)),
        Err(MathError::NotOnCurveError)
    );
}

#[test]
fn new_refuses_raw_coordinates_whose_cube_overflows() {
    assert_eq!(EllipticCurvePoint::new(2000, 1, 5, 7), Err(MathError::OverflowError));
    assert_eq!(
        EllipticCurvePoint::new(3_000_000i64, 1, 5, 7),
        Err(MathError::OverflowError)
    );
}

#[test]
fn getters_return_the_parts() {
    let p = EllipticCurvePoint::new(2, -5, 5, 7).unwrap();
    assert_eq!((p.x(), p.y(), p.a(), p.b()), (2, -5, 5, 7));
}

#[test]
fn the_identity_is_neutral() {
    for p in [point(192, 105), point(17, 56), point(47, 71), infinity()] {
        assert_eq!(p.add(infinity()), Ok(p));
        assert_eq!(infinity().add(p), Ok(p));
    }
    let raw = EllipticCurvePoint::new(3i64, 7, 5, 7).unwrap();
    assert_eq!(raw.add(EllipticCurvePoint::new_infinity(5, 7)), Ok(raw));
}

#[test]
fn a_point_and_its_inverse_add_to_the_identity() {
    for (x, y) in [(192, 105), (17, 56), (47, 71), (143, 98)] {
        let p = point(x, y);
        let inverse = point(x, 223 - y);
        assert_eq!(p.add(inverse), Ok(infinity()));
        assert_eq!(inverse.add(p), Ok(infinity()));
    }
    let raw = EllipticCurvePoint::new(-1, -1, 5, 7).unwrap();
    let inverse = EllipticCurvePoint::new(-1, 1, 5, 7).unwrap();
    assert_eq!(raw.add(inverse), Ok(EllipticCurvePoint::new_infinity(5, 7)));
}

#[test]
fn addition_is_associative_on_sample_points() {
    let points = [point(192, 105), point(17, 56), point(47, 71), point(143, 98), infinity()];
    for p in points {
        for q in points {
            for r in points {
                let left = p.add(q).unwrap().add(r);
                let right = p.add(q.add(r).unwrap());
                assert_eq!(left, right);
            }
        }
    }
}

#[test]
fn points_over_a_prime_field_add_along_their_chord() {
    assert_eq!(point(192, 105).add(point(17, 56)), Ok(point(170, 142)));
    assert_eq!(point(170, 142).add(point(60, 139)), Ok(point(220, 181)));
    assert_eq!(point(47, 71).add(point(17, 56)), Ok(point(215, 68)));
    assert_eq!(point(143, 98).add(point(76, 66)), Ok(point(47, 71)));
}

#[test]
fn a_point_over_a_prime_field_doubles_along_its_tangent() {
    assert_eq!(point(192, 105).add(point(192, 105)), Ok(point(49, 71)));
    assert_eq!(point(143, 98).add(point(143, 98)), Ok(point(64, 168)));
    assert_eq!(point(47, 71).add(point(47, 71)), Ok(point(36, 111)));
}

#[test]
fn doubling_where_the_tangent_is_vertical_gives_the_identity() {
    // (1, 0) lies on y^2 = x^3 - x
    let p = EllipticCurvePoint::new(1, 0, -1, 0).unwrap();
    assert_eq!(p.add(p), Ok(EllipticCurvePoint::new_infinity(-1, 0)));
    // (6, 0) lies on y^2 = x^3 + x over the field of 37 elements
    let f = |n: i32| FieldElement::new(n, 37).unwrap();
    let q = EllipticCurvePoint::new(f(6), f(0), f(1), f(0)).unwrap();
    assert_eq!(q.add(q), Ok(EllipticCurvePoint::new_infinity(f(1), f(0))));
}

#[test]
fn points_of_different_curves_do_not_add() {
    let p = EllipticCurvePoint::new(2, 5, 5, 7).unwrap();
    let q = EllipticCurvePoint::new(1, 0, -1, 0).unwrap();
    assert_eq!(p.add(q), Err(MathError::CurveMismatchError));
    let r = EllipticCurvePoint::new_infinity(5, 8);
    assert_eq!(p.add(r), Err(MathError::CurveMismatchError));
    assert_eq!(r.add(p), Err(MathError::CurveMismatchError));
    let same_numbers_other_field = EllipticCurvePoint::new_infinity(
        FieldElement::new(0i64, 227).unwrap(),
        FieldElement::new(7i64, 227).unwrap(),
    );
    assert_eq!(point(192, 105).add(same_numbers_other_field), Err(MathError::CurveMismatchError));
}

#[test]
fn a_raw_chord_of_fractional_slope_misses_the_curve() {
    // the chord through (2, 5) and (3, 7) has slope 2; through (2, 5) and
    // (-1, -1) it has slope 2 as well, but through (18, 77) and (2, 5) the
    // slope 72/16 is rounded to 4
    let p = EllipticCurvePoint::new(18, 77, 5, 7).unwrap();
    let q = EllipticCurvePoint::new(2, 5, 5, 7).unwrap();
    assert_eq!(p.add(q), Err(MathError::NotOnCurveError));
}

#[test]
fn a_raw_sum_that_leaves_the_integer_range_is_refused() {
    // both points lie on y^2 = x^3 - x + 23200^2; their chord has slope
    // 46400, whose square does not fit 32 bits
    let b = 538240000;
    let p = EllipticCurvePoint::new(0i32, -23200, -1, b).unwrap();
    let q = EllipticCurvePoint::new(1i32, 23200, -1, b).unwrap();
    assert_eq!(p.add(q), Err(MathError::OverflowError));
}

#[test]
fn a_raw_sum_whose_curve_equation_leaves_the_integer_range_is_refused() {
    // on y^2 = x^3 - 2x + 5 the sum is (1318, -47849); the square of its y
    // fits 64 bits but not 32
    let p = EllipticCurvePoint::new(22i32, -103, -2, 5).unwrap();
    let q = EllipticCurvePoint::new(29i32, 156, -2, 5).unwrap();
    assert_eq!(p.add(q), Err(MathError::OverflowError));
    let p = EllipticCurvePoint::new(22i64, -103, -2, 5).unwrap();
    let q = EllipticCurvePoint::new(29i64, 156, -2, 5).unwrap();
    let sum = p.add(q).unwrap();
    assert_eq!((sum.x(), sum.y()), (1318, -47849));
}

#[test]
fn a_raw_point_doubles_along_its_tangent() {
    // on y^2 = x^3 + 1 the tangent at (0, 1) is horizontal
    let p = EllipticCurvePoint::new(0i32, 1, 0, 1).unwrap();
    assert_eq!(p.add(p), Ok(EllipticCurvePoint::new(0, -1, 0, 1).unwrap()));
    let q = EllipticCurvePoint::new(2i32, 3, 0, 1).unwrap();
    assert_eq!(p.add(q), Ok(EllipticCurvePoint::new(-1, 0, 0, 1).unwrap()));
}

#[test]
fn field_elements_serve_as_coordinates() {
    let x = fe(5);
    assert_eq!(Coordinate::zero_like(x), fe(0));
    assert!(Coordinate::same(x, fe(5)));
    assert_eq!(Coordinate::add(x, fe(220)), Ok(fe(2)));
    assert_eq!(Coordinate::sub(x, fe(6)), Ok(fe(222)));
    assert_eq!(Coordinate::mul(x, fe(45)), Ok(fe(2)));
    assert_eq!(Coordinate::div(fe(2), fe(45)), Ok(fe(5)));
}

#[test]
fn doubling_in_the_field_of_two_has_no_tangent() {
    let f = |n: i32| FieldElement::new(n, 2).unwrap();
    // (1, 1) lies on y^2 = x^3 + x + 1 over the field of two elements,
    // where it is its own inverse
    let p = EllipticCurvePoint::new(f(1), f(1), f(1), f(1)).unwrap();
    assert_eq!(p.add(p), Err(MathError::DivisionByZeroError));
}

#[test]
fn adding_and_subtracting_a_point_gives_the_first_summand_back() {
    let points = [point(192, 105), point(17, 56), point(47, 71), point(143, 98)];
    for p in points {
        for q in points {
            let inverse = point(q.x().num(), 223 - q.y().num());
            assert_eq!(p.add(q).unwrap().add(inverse), Ok(p));
        }
    }
}

#[test]
fn addition_over_a_prime_field_does_not_depend_on_the_order() {
    let points = [point(192, 105), point(17, 56), point(47, 71), point(143, 98), infinity()];
    for p in points {
        for q in points {
            assert_eq!(p.add(q), q.add(p));
        }
    }
}

#[test]
fn every_sum_over_a_prime_field_exists() {
    // all the points of y^2 = x^3 + 7 over the field of 223 elements with
    // x below 60
    let mut points = vec![infinity()];
    for x in 0..60 {
        for y in 0..223 {
            if let Ok(p) = EllipticCurvePoint::new(fe(x), fe(y), fe(0), fe(7)) {
                points.push(p);
            }
        }
    }
    assert!(points.len() > 20);
    for p in &points {
        for q in &points {
            assert!(p.add(*q).is_ok());
        }
    }
}

#[test]
fn on_a_singular_curve_sums_do_not_associate() {
    // y^2 = x^3 - 3x + 2 has a double root at x = 1
    let f = |n: i32| FieldElement::new(n, 7).unwrap();
    let p = EllipticCurvePoint::new(f(5), f(0), f(4), f(2)).unwrap();
    let q = EllipticCurvePoint::new(f(1), f(0), f(4), f(2)).unwrap();
    assert_eq!(p.add(q), Ok(q));
    let left = p.add(q).unwrap().add(q).unwrap();
    let right = p.add(q.add(q).unwrap()).unwrap();
    assert!(left.is_infinity());
    assert_eq!(right, p);
}

#[test]
fn where_the_sentinel_lies_on_the_curve_sums_do_not_associate() {
    // (0, 0) satisfies y^2 = x^3 + x, and stands for the identity all the same
    let f = |n: i32| FieldElement::new(n, 5).unwrap();
    let p = EllipticCurvePoint::new(f(2), f(0), f(1), f(0)).unwrap();
    let q = EllipticCurvePoint::new(f(3), f(0), f(1), f(0)).unwrap();
    assert!(p.add(q).unwrap().is_infinity());
    let left = p.add(q).unwrap().add(q).unwrap();
    let right = p.add(q.add(q).unwrap()).unwrap();
    assert_eq!(left, q);
    assert_eq!(right, p);
}

#[test]
fn raw_sums_with_rounded_slopes_do_not_associate() {
    let p = EllipticCurvePoint::new(-1, -1, 5, 7).unwrap();
    let q = EllipticCurvePoint::new(2, 5, 5, 7).unwrap();
    let left = p.add(p).unwrap().add(q);
    let right = p.add(p.add(q).unwrap());
    assert_eq!(left, Err(MathError::NotOnCurveError));
    assert_eq!(right, Ok(EllipticCurvePoint::new(-1, 1, 5, 7).unwrap()));
}

#[test]
fn addition_is_associative_on_every_triple_of_a_small_curve() {
    // y^2 = x^3 + x + 1 over the field of 23 elements: its discriminant
    // 4 + 27 is not a multiple of 23, and (0, 0) does not lie on it
    let f = |n: i32| FieldElement::new(n, 23).unwrap();
    let mut points = vec![EllipticCurvePoint::new_infinity(f(1), f(1))];
    for x in 0..23 {
        for y in 0..23 {
            if let Ok(p) = EllipticCurvePoint::new(f(x), f(y), f(1), f(1)) {
                if !p.is_infinity() {
                    points.push(p);
                }
            }
        }
    }
    assert_eq!(points.len(), 28);
    for p in &points {
        for q in &points {
            let pq = p.add(*q).unwrap();
            assert_eq!(q.add(*p), Ok(pq));
            for r in &points {
                let left = pq.add(*r).unwrap();
                let right = p.add(q.add(*r).unwrap()).unwrap();
                assert_eq!(left, right);
            }
        }
    }
}
