//! Elements of a finite field of prime order.
//!
//! A [`FieldElement`] is a residue together with its modulus; its view is the
//! pair of mathematical integers [`FieldValue`]. The arithmetic is specified
//! by the `field_*` functions over views, and every executable operation
//! returns exactly what its specification function gives.

use crate::coordinate::Coordinate;
use crate::error::MathError;
use crate::modular::{DivInFiniteField, FieldInt, Pow};
use crate::number_theory::{lemma_double_reduction, lemma_mod_of_residue, truncating_rem};
use crate::primes::{is_prime, lemma_fermat_little};
use vstd::arithmetic::div_mod::{
    lemma_mod_add_multiples_vanish, lemma_mod_bound, lemma_mod_twice, lemma_mul_mod_noop_general,
};
use vstd::arithmetic::mul::lemma_mul_is_associative;
use vstd::arithmetic::power::{lemma_pow1, lemma_pow_adds, pow};
use vstd::prelude::*;
use vstd::std_specs::cmp::PartialEqSpecImpl;

verus! {

/// The mathematical content of a field element: a residue and its modulus.
pub struct FieldValue {
    pub num: int,
    pub prime: int,
}

impl FieldValue {
    /// The residue lies in `[0, prime)`.
    pub open spec fn valid(self) -> bool {
        0 <= self.num < self.prime
    }

    /// The additive identity of the same field.
    pub open spec fn zero(self) -> FieldValue {
        FieldValue { num: 0, prime: self.prime }
    }

    /// The residue `1` over the same modulus: the multiplicative identity.
    pub open spec fn one(self) -> FieldValue {
        FieldValue { num: 1, prime: self.prime }
    }
}

/// Construction succeeds exactly for residues in `[0, prime)`.
pub open spec fn field_new(num: int, prime: int) -> Result<FieldValue, MathError> {
    if 0 <= num < prime {
        Ok(FieldValue { num, prime })
    } else {
        Err(MathError::RangeError)
    }
}

/// The sum of two elements of one field.
pub open spec fn field_add(a: FieldValue, b: FieldValue) -> Result<FieldValue, MathError> {
    if a.prime != b.prime {
        Err(MathError::FieldMismatchError)
    } else {
        Ok(FieldValue { num: (a.num + b.num) % a.prime, prime: a.prime })
    }
}

/// The difference of two elements of one field. The remainder is Euclidean,
/// so a negative difference comes back into `[0, prime)`.
pub open spec fn field_sub(a: FieldValue, b: FieldValue) -> Result<FieldValue, MathError> {
    if a.prime != b.prime {
        Err(MathError::FieldMismatchError)
    } else {
        Ok(FieldValue { num: (a.num - b.num) % a.prime, prime: a.prime })
    }
}

/// The product of two elements of one field.
pub open spec fn field_mul(a: FieldValue, b: FieldValue) -> Result<FieldValue, MathError> {
    if a.prime != b.prime {
        Err(MathError::FieldMismatchError)
    } else {
        Ok(FieldValue { num: (a.num * b.num) % a.prime, prime: a.prime })
    }
}

/// The quotient of two elements of one field: `a` times `b` to the power
/// `prime - 2`. Dividing by the zero element is refused.
pub open spec fn field_div(a: FieldValue, b: FieldValue) -> Result<FieldValue, MathError> {
    if a.prime != b.prime {
        Err(MathError::FieldMismatchError)
    } else if b.num == 0 {
        Err(MathError::DivisionByZeroError)
    } else {
        Ok(FieldValue { num: (a.num * pow(b.num, (a.prime - 2) as nat)) % a.prime, prime: a.prime })
    }
}

/// The exponent brought into `[0, prime - 1)`, the range in which powers of
/// a non-zero element repeat.
pub open spec fn normalized_exponent(exponent: int, prime: int) -> nat {
    (exponent % (prime - 1)) as nat
}

/// An element raised to an integer power, which may be negative. Over the
/// modulus `1` the field has a single element, which is its own power.
pub open spec fn field_pow(a: FieldValue, exponent: int) -> FieldValue {
    if a.prime <= 1 {
        a
    } else {
        FieldValue {
            num: pow(a.num, normalized_exponent(exponent, a.prime)) % a.prime,
            prime: a.prime,
        }
    }
}

/// Adding the zero of its field, on either side, leaves an element as it
/// is.
pub proof fn lemma_add_zero(x: FieldValue)
    requires
        x.valid(),
    ensures
        field_add(x, x.zero()) == Ok::<FieldValue, MathError>(x),
        field_add(x.zero(), x) == Ok::<FieldValue, MathError>(x),
{
    lemma_mod_of_residue(x.num, x.prime);
}

/// Multiplying by the one of its field, on either side, leaves an element
/// as it is.
pub proof fn lemma_mul_one(x: FieldValue)
    requires
        x.valid(),
    ensures
        field_mul(x, x.one()) == Ok::<FieldValue, MathError>(x),
        field_mul(x.one(), x) == Ok::<FieldValue, MathError>(x),
{
    lemma_mod_of_residue(x.num, x.prime);
    assert(x.num * 1 == x.num && 1 * x.num == x.num) by (nonlinear_arith);
}

/// In a field of prime order, dividing by a non-zero element and then
/// multiplying by it gives the dividend back.
pub proof fn lemma_div_then_mul(x: FieldValue, y: FieldValue)
    requires
        x.valid(),
        y.valid(),
        x.prime == y.prime,
        is_prime(x.prime),
        y.num != 0,
    ensures
        field_div(x, y) is Ok,
        field_mul(field_div(x, y)->Ok_0, y) == Ok::<FieldValue, MathError>(x),
{
    let p = x.prime;
    let e = (p - 2) as nat;
    let inverse = pow(y.num, e);
    // (x * y^(p-2)) * y == x * y^(p-1), and y^(p-1) is one modulo p
    lemma_mod_of_residue(y.num, p);
    lemma_fermat_little(y.num as nat, p as nat);
    lemma_pow_adds(y.num, e, 1);
    lemma_pow1(y.num);
    lemma_mul_is_associative(x.num, inverse, y.num);
    lemma_mul_mod_noop_general(x.num * inverse, y.num, p);
    lemma_mul_mod_noop_general(x.num, inverse * y.num, p);
    assert(x.num * 1 == x.num) by (nonlinear_arith);
    lemma_mod_of_residue(x.num, p);
}

/// In a field of prime order, a non-zero element times its power `p - 2`
/// is one: that power is the inverse by which division multiplies.
pub proof fn lemma_inverse_by_power(y: FieldValue)
    requires
        y.valid(),
        is_prime(y.prime),
        y.num != 0,
    ensures
        (y.num * pow(y.num, (y.prime - 2) as nat)) % y.prime == 1,
{
    let e = (y.prime - 2) as nat;
    lemma_mod_of_residue(y.num, y.prime);
    lemma_fermat_little(y.num as nat, y.prime as nat);
    lemma_pow_adds(y.num, 1, e);
    lemma_pow1(y.num);
}

/// Powers repeat with period `prime - 1` in the exponent: an exponent and
/// its remainder by `prime - 1` give the same power. This holds for the
/// Euclidean remainder and for the remainder of the sign of the exponent
/// alike, so a negative exponent is as good as its positive residue.
pub proof fn lemma_pow_exponent_reduced(x: FieldValue, exponent: int)
    ensures
        field_pow(x, exponent) == field_pow(x, exponent % (x.prime - 1)),
        field_pow(x, exponent) == field_pow(x, truncating_rem(exponent, x.prime - 1)),
{
    if x.prime > 1 {
        let order = x.prime - 1;
        lemma_mod_twice(exponent, order);
        lemma_double_reduction(exponent, order);
        let t = truncating_rem(exponent, order);
        lemma_mod_add_multiples_vanish(t, order);
    }
}

/// A residue with its modulus, held in a fixed-width integer type.
///
/// Values are immutable: every operation returns a new element.
#[derive(Debug)]
pub struct FieldElement<T: FieldInt> {
    num: T,
    prime: T,
}

impl<T: FieldInt> View for FieldElement<T> {
    type V = FieldValue;

    closed spec fn view(&self) -> FieldValue {
        FieldValue { num: self.num.as_int(), prime: self.prime.as_int() }
    }
}

/// The outcome of an operation, with the element replaced by its view.
pub open spec fn view_of<T: FieldInt>(r: Result<FieldElement<T>, MathError>) -> Result<
    FieldValue,
    MathError,
> {
    match r {
        Ok(e) => Ok(e@),
        Err(e) => Err(e),
    }
}

impl<T: FieldInt> FieldElement<T> {
    /// Every element that executable code holds has its residue in
    /// `[0, prime)`.
    #[verifier::type_invariant]
    pub open spec fn wf(self) -> bool {
        self@.valid()
    }

    /// Two elements with the same view are the same element.
    pub proof fn lemma_view_injective(a: Self, b: Self)
        requires
            a@ == b@,
        ensures
            a == b,
    {
        T::lemma_as_int_injective(a.num, b.num);
        T::lemma_as_int_injective(a.prime, b.prime);
    }

    /// Makes the element `num` of the field of order `prime`; refuses a
    /// residue outside `[0, prime)`.
    pub fn new(num: T, prime: T) -> (r: Result<Self, MathError>)
        ensures
            view_of(r) == field_new(num.as_int(), prime.as_int()),
    {
        if num.less_than(T::zero()) || !num.less_than(prime) {
            Err(MathError::RangeError)
        } else {
            Ok(FieldElement { num, prime })
        }
    }

    /// The residue.
    pub fn num(&self) -> (r: T)
        ensures
            r.as_int() == self@.num,
    {
        self.num
    }

    /// The modulus.
    pub fn prime(&self) -> (r: T)
        ensures
            r.as_int() == self@.prime,
    {
        self.prime
    }

    /// The additive identity of the field of `self`.
    pub fn zero(&self) -> (r: Self)
        ensures
            r@ == self@.zero(),
    {
        proof {
            use_type_invariant(self);
        }
        FieldElement { num: T::zero(), prime: self.prime }
    }

    /// Whether `self` is the additive identity of its field.
    pub fn is_zero(&self) -> (r: bool)
        ensures
            r == (self@.num == 0),
    {
        let zero = T::zero();
        proof {
            if self.num.as_int() == 0 {
                T::lemma_as_int_injective(self.num, zero);
            }
        }
        self.num.equals(zero)
    }

    /// Whether two elements belong to the same field.
    pub fn same_field(&self, rhs: &Self) -> (r: bool)
        ensures
            r == (self@.prime == rhs@.prime),
    {
        proof {
            if self.prime.as_int() == rhs.prime.as_int() {
                T::lemma_as_int_injective(self.prime, rhs.prime);
            }
        }
        self.prime.equals(rhs.prime)
    }

    /// Modular addition.
    pub fn add(self, rhs: Self) -> (r: Result<Self, MathError>)
        ensures
            view_of(r) == field_add(self@, rhs@),
    {
        proof {
            use_type_invariant(&self);
            use_type_invariant(&rhs);
        }
        if !self.same_field(&rhs) {
            return Err(MathError::FieldMismatchError);
        }
        let num = self.num.add_mod(rhs.num, self.prime);
        proof {
            lemma_mod_bound(self@.num + rhs@.num, self@.prime);
        }
        Ok(FieldElement { num, prime: self.prime })
    }

    /// Modular subtraction.
    pub fn sub(self, rhs: Self) -> (r: Result<Self, MathError>)
        ensures
            view_of(r) == field_sub(self@, rhs@),
    {
        proof {
            use_type_invariant(&self);
            use_type_invariant(&rhs);
        }
        if !self.same_field(&rhs) {
            return Err(MathError::FieldMismatchError);
        }
        let num = self.num.sub_mod(rhs.num, self.prime);
        proof {
            lemma_mod_bound(self@.num - rhs@.num, self@.prime);
        }
        Ok(FieldElement { num, prime: self.prime })
    }

    /// Modular multiplication.
    pub fn mul(self, rhs: Self) -> (r: Result<Self, MathError>)
        ensures
            view_of(r) == field_mul(self@, rhs@),
    {
        proof {
            use_type_invariant(&self);
            use_type_invariant(&rhs);
        }
        if !self.same_field(&rhs) {
            return Err(MathError::FieldMismatchError);
        }
        let num = self.num.mul_mod(rhs.num, self.prime);
        proof {
            lemma_mod_bound(self@.num * rhs@.num, self@.prime);
        }
        Ok(FieldElement { num, prime: self.prime })
    }
}

impl<T: DivInFiniteField> FieldElement<T> {
    /// Modular division: multiplication by the inverse of `rhs`, which is
    /// `rhs` to the power `prime - 2`.
    pub fn div(self, rhs: Self) -> (r: Result<Self, MathError>)
        ensures
            view_of(r) == field_div(self@, rhs@),
    {
        proof {
            use_type_invariant(&self);
            use_type_invariant(&rhs);
        }
        if !self.same_field(&rhs) {
            return Err(MathError::FieldMismatchError);
        }
        if rhs.is_zero() {
            return Err(MathError::DivisionByZeroError);
        }
        let num = self.num.div_in_finite_field(rhs.num, self.prime);
        proof {
            lemma_mod_bound(
                self@.num * pow(rhs@.num, (self@.prime - 2) as nat),
                self@.prime,
            );
        }
        Ok(FieldElement { num, prime: self.prime })
    }
}

impl<T: Pow> FieldElement<T> {
    /// Raises `self` to an integer power. A negative exponent is first
    /// brought into `[0, prime - 1)`, so that it gives a power of the
    /// inverse.
    pub fn pow(&self, exponent: T) -> (r: Self)
        ensures
            r@ == field_pow(self@, exponent.as_int()),
    {
        proof {
            use_type_invariant(self);
        }
        if !T::one().less_than(self.prime) {
            return *self;
        }
        let order = self.prime.pred();
        let e = exponent.reduce(order);
        proof {
            lemma_mod_bound(exponent.as_int(), order.as_int());
        }
        let num = self.num.pow(e, self.prime);
        proof {
            lemma_mod_bound(pow(self@.num, e.as_int() as nat), self@.prime);
        }
        FieldElement { num, prime: self.prime }
    }
}

impl<T: FieldInt> Clone for FieldElement<T> {
    fn clone(&self) -> (r: Self)
        ensures
            r == *self,
    {
        *self
    }
}

impl<T: FieldInt> Copy for FieldElement<T> {

}

impl<T: FieldInt> PartialEq for FieldElement<T> {
    /// Two elements are equal when residue and modulus both agree.
    fn eq(&self, other: &Self) -> (r: bool) {
        proof {
            if self@ == other@ {
                Self::lemma_view_injective(*self, *other);
            }
        }
        self.num.equals(other.num) && self.prime.equals(other.prime)
    }
}

impl<T: FieldInt> PartialEqSpecImpl for FieldElement<T> {
    open spec fn obeys_eq_spec() -> bool {
        true
    }

    open spec fn eq_spec(&self, other: &Self) -> bool {
        self@ == other@
    }
}

/// Field elements as coordinates: the arithmetic of their field.
impl<T: DivInFiniteField> Coordinate for FieldElement<T> {
    type Model = FieldValue;

    open spec fn model(self) -> FieldValue {
        self@
    }

    open spec fn valid(m: FieldValue) -> bool {
        m.valid()
    }

    open spec fn zero_of(m: FieldValue) -> FieldValue {
        m.zero()
    }

    open spec fn add_spec(a: FieldValue, b: FieldValue) -> Result<FieldValue, MathError> {
        field_add(a, b)
    }

    open spec fn sub_spec(a: FieldValue, b: FieldValue) -> Result<FieldValue, MathError> {
        field_sub(a, b)
    }

    open spec fn mul_spec(a: FieldValue, b: FieldValue) -> Result<FieldValue, MathError> {
        field_mul(a, b)
    }

    open spec fn div_spec(a: FieldValue, b: FieldValue) -> Result<FieldValue, MathError> {
        field_div(a, b)
    }

    proof fn lemma_model_injective(a: Self, b: Self) {
        Self::lemma_view_injective(a, b);
    }

    proof fn lemma_zero_minus_zero(m: FieldValue) {
        lemma_mod_of_residue(0, m.prime);
    }

    proof fn lemma_negative_is_zero(m: FieldValue, y: FieldValue) {
        if y.num != 0 {
            lemma_mod_add_multiples_vanish(-y.num, y.prime);
            lemma_mod_of_residue(y.prime - y.num, y.prime);
        }
    }

    fn zero_like(self) -> (r: Self) {
        self.zero()
    }

    fn same(self, rhs: Self) -> (r: bool) {
        self == rhs
    }

    fn add(self, rhs: Self) -> (r: Result<Self, MathError>) {
        FieldElement::add(self, rhs)
    }

    fn sub(self, rhs: Self) -> (r: Result<Self, MathError>) {
        FieldElement::sub(self, rhs)
    }

    fn mul(self, rhs: Self) -> (r: Result<Self, MathError>) {
        FieldElement::mul(self, rhs)
    }

    fn div(self, rhs: Self) -> (r: Result<Self, MathError>) {
        FieldElement::div(self, rhs)
    }
}

} // verus!
