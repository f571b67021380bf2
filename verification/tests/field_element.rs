use ecfield::{FieldElement, MathError};

fn fe(num: i32, prime: i32) -> FieldElement<i32> {
    FieldElement::new(num, prime).unwrap()
}

#[test]
fn addition() {
    let field_element1 = FieldElement::new(2, 7).unwrap();
    let field_element2 = FieldElement::new(5, 7).unwrap();
    let sum_of_elements = field_element1.add(field_element2).unwrap();
    let expected_result = FieldElement::new(0, 7).unwrap();
    assert_eq!(sum_of_elements, expected_result);
}

#[test]
fn subtraction() {
    let field_element1 = FieldElement::new(2, 7).unwrap();
    let field_element2 = FieldElement::new(5, 7).unwrap();
    let sum_of_elements = field_element1.sub(field_element2).unwrap();
    let expected_result = FieldElement::new(4, 7).unwrap();
    assert_eq!(sum_of_elements, expected_result);
}

#[test]
fn multiply() {
    let field_element1 = FieldElement::new(2, 7).unwrap();
    let field_element2 = FieldElement::new(5, 7).unwrap();
    let sum_of_elements = field_element1.mul(field_element2).unwrap();
    let expected_result = FieldElement::new(3, 7).unwrap();
    assert_eq!(sum_of_elements, expected_result);
}

#[test]
fn divide() {
    let field_element1 = FieldElement::new(2, 7).unwrap();
    let field_element2 = FieldElement::new(5, 7).unwrap();
    let sum_of_elements = field_element1.div(field_element2).unwrap();
    let expected_result = FieldElement::new(6, 7).unwrap();
    assert_eq!(sum_of_elements, expected_result);
}

#[test]
fn pow() {
    let field_element1 = FieldElement::new(2, 7).unwrap();
    let sum_of_elements = field_element1.pow(4);
    let expected_result = FieldElement::new(2, 7).unwrap();
    assert_eq!(sum_of_elements, expected_result);
}

#[test]
fn new_rejects_residue_equal_to_prime() {
    assert_eq!(FieldElement::new(7, 7), Err(MathError::RangeError));
}

#[test]
fn new_rejects_negative_residue() {
    assert_eq!(FieldElement::new(-1, 7), Err(MathError::RangeError));
}

#[test]
fn new_rejects_everything_over_a_modulus_that_is_not_positive() {
    assert_eq!(FieldElement::new(0, 0), Err(MathError::RangeError));
    assert_eq!(FieldElement::new(-3, -2), Err(MathError::RangeError));
}

#[test]
fn new_accepts_both_ends_of_the_range() {
    assert_eq!(fe(0, 7).num(), 0);
    assert_eq!(fe(6, 7).num(), 6);
    assert_eq!(fe(6, 7).prime(), 7);
}

#[test]
fn adding_zero_changes_nothing() {
    for n in 0..19 {
        let x = fe(n, 19);
        assert_eq!(x.add(x.zero()), Ok(x));
        assert_eq!(x.zero().add(x), Ok(x));
    }
}

#[test]
fn multiplying_by_one_changes_nothing() {
    let one = fe(1, 19);
    for n in 0..19 {
        let x = fe(n, 19);
        assert_eq!(x.mul(one), Ok(x));
        assert_eq!(one.mul(x), Ok(x));
    }
}

#[test]
fn dividing_then_multiplying_gives_the_dividend_back() {
    for n in 1..19 {
        for d in 1..19 {
            let x = fe(n, 19);
            let y = fe(d, 19);
            let quotient = x.div(y).unwrap();
            assert_eq!(quotient.mul(y), Ok(x));
        }
    }
}

#[test]
fn division_in_the_field_of_nineteen() {
    assert_eq!(fe(7, 19).div(fe(5, 19)), Ok(fe(9, 19)));
}

#[test]
fn negative_exponent_is_reduced_into_range() {
    let x = fe(5, 7);
    assert_eq!(x.pow(-3), x.pow(3));
    assert_eq!(x.pow(-3), fe(6, 7));
}

#[test]
fn exponent_and_its_remainder_give_the_same_power() {
    for n in 0..7 {
        for k in -20..20 {
            let x = fe(n, 7);
            assert_eq!(x.pow(k), x.pow(k.rem_euclid(6)));
            assert_eq!(x.pow(k), x.pow(k % 6));
        }
    }
}

#[test]
fn negative_one_as_exponent_gives_the_inverse() {
    for n in 1..13 {
        let x = fe(n, 13);
        assert_eq!(x.pow(-1).mul(x), Ok(fe(1, 13)));
    }
}

#[test]
fn exponent_zero_gives_one() {
    assert_eq!(fe(5, 7).pow(0), fe(1, 7));
    assert_eq!(fe(5, 7).pow(6), fe(1, 7));
}

#[test]
fn power_over_the_modulus_one_is_the_only_element() {
    assert_eq!(fe(0, 1).pow(5), fe(0, 1));
    assert_eq!(fe(0, 1).pow(-5), fe(0, 1));
}

#[test]
fn subtraction_wraps_a_negative_difference() {
    assert_eq!(fe(0, 7).sub(fe(6, 7)), Ok(fe(1, 7)));
    assert_eq!(fe(3, 7).sub(fe(3, 7)), Ok(fe(0, 7)));
}

#[test]
fn elements_of_different_fields_do_not_combine() {
    let x = fe(2, 7);
    let y = fe(2, 11);
    assert_eq!(x.add(y), Err(MathError::FieldMismatchError));
    assert_eq!(x.sub(y), Err(MathError::FieldMismatchError));
    assert_eq!(x.mul(y), Err(MathError::FieldMismatchError));
    assert_eq!(x.div(y), Err(MathError::FieldMismatchError));
}

#[test]
fn division_by_zero_is_refused() {
    assert_eq!(fe(2, 7).div(fe(0, 7)), Err(MathError::DivisionByZeroError));
    assert_eq!(fe(0, 7).div(fe(0, 7)), Err(MathError::DivisionByZeroError));
}

#[test]
fn field_mismatch_is_reported_before_division_by_zero() {
    assert_eq!(fe(2, 7).div(fe(0, 11)), Err(MathError::FieldMismatchError));
}

#[test]
fn elements_of_different_fields_are_never_equal() {
    assert!(fe(2, 7) != fe(2, 11));
    assert!(fe(2, 7) == fe(2, 7));
    assert!(fe(2, 7) != fe(3, 7));
}

#[test]
fn zero_and_is_zero_agree() {
    assert!(fe(3, 7).zero().is_zero());
    assert!(!fe(3, 7).is_zero());
    assert_eq!(fe(3, 7).zero(), fe(0, 7));
}

#[test]
fn same_field_compares_the_primes() {
    assert!(fe(3, 7).same_field(&fe(5, 7)));
    assert!(!fe(3, 7).same_field(&fe(3, 11)));
}

#[test]
fn products_of_large_residues_do_not_overflow() {
    // 2^61 - 1 is prime.
    let p: i64 = 2305843009213693951;
    let x = FieldElement::new(p - 1, p).unwrap();
    let one = FieldElement::new(1, p).unwrap();
    assert_eq!(x.mul(x), Ok(one));
    assert_eq!(x.add(x), Ok(FieldElement::new(p - 2, p).unwrap()));
    assert_eq!(x.div(x), Ok(one));
    assert_eq!(x.pow(p - 1), one);
    let y = FieldElement::new(1234567890123456789, p).unwrap();
    assert_eq!(y.div(y), Ok(one));
    assert_eq!(y.mul(x).unwrap().add(y), Ok(y.zero()));
}

#[test]
fn products_at_the_largest_modulus_do_not_overflow() {
    let m = i64::MAX;
    let x = FieldElement::new(m - 1, m).unwrap();
    assert_eq!(x.mul(x), Ok(FieldElement::new(1, m).unwrap()));
    assert_eq!(x.add(x), Ok(FieldElement::new(m - 2, m).unwrap()));
    let small = FieldElement::new(i32::MAX - 1, i32::MAX).unwrap();
    assert_eq!(small.mul(small), Ok(FieldElement::new(1, i32::MAX).unwrap()));
}
