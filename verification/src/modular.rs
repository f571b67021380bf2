//! The integer capabilities that field arithmetic is built on.
//!
//! A field element stores its residue and its modulus in a fixed-width signed
//! integer type. The traits here say what such a type must offer, and give the
//! implementations for `i32` and `i64`. Every intermediate sum and product is
//! formed in 128 bits, at least twice the width of the operands, so that no
//! modulus which the type can hold leads to an overflow. The largest modulus
//! supported is therefore `i64::MAX`.

use crate::number_theory::{
    lemma_double_reduction, lemma_product_magnitude, lemma_square_and_multiply_step,
};
use vstd::arithmetic::div_mod::{lemma_mod_bound, lemma_mul_mod_noop_general};
use vstd::arithmetic::power::{lemma_pow0, lemma_pow_mod_noop, pow};
use vstd::prelude::*;

verus! {

/// A fixed-width signed integer type that can hold residues and moduli.
pub trait FieldInt: Copy + Sized {
    /// The mathematical integer that a value stands for.
    spec fn as_int(self) -> int;

    /// Distinct values stand for distinct integers.
    proof fn lemma_as_int_injective(a: Self, b: Self)
        requires
            a.as_int() == b.as_int(),
        ensures
            a == b,
    ;

    /// The value that stands for zero.
    fn zero() -> (r: Self)
        ensures
            r.as_int() == 0,
    ;

    /// The value that stands for one.
    fn one() -> (r: Self)
        ensures
            r.as_int() == 1,
    ;

    /// Whether two values are the same.
    fn equals(self, rhs: Self) -> (r: bool)
        ensures
            r == (self == rhs),
    ;

    /// Whether `self` stands for the smaller integer.
    fn less_than(self, rhs: Self) -> (r: bool)
        ensures
            r == (self.as_int() < rhs.as_int()),
    ;

    /// The predecessor of a positive value.
    fn pred(self) -> (r: Self)
        requires
            self.as_int() > 0,
        ensures
            r.as_int() == self.as_int() - 1,
    ;

    /// The Euclidean remainder, which lies in `[0, modulus)` whatever the
    /// sign of `self`.
    fn reduce(self, modulus: Self) -> (r: Self)
        requires
            modulus.as_int() > 0,
        ensures
            r.as_int() == self.as_int() % modulus.as_int(),
    ;

    /// The sum, reduced into `[0, modulus)`.
    fn add_mod(self, rhs: Self, modulus: Self) -> (r: Self)
        requires
            modulus.as_int() > 0,
        ensures
            r.as_int() == (self.as_int() + rhs.as_int()) % modulus.as_int(),
    ;

    /// The difference, reduced into `[0, modulus)`.
    fn sub_mod(self, rhs: Self, modulus: Self) -> (r: Self)
        requires
            modulus.as_int() > 0,
        ensures
            r.as_int() == (self.as_int() - rhs.as_int()) % modulus.as_int(),
    ;

    /// The product, reduced into `[0, modulus)`.
    fn mul_mod(self, rhs: Self, modulus: Self) -> (r: Self)
        requires
            modulus.as_int() > 0,
        ensures
            r.as_int() == (self.as_int() * rhs.as_int()) % modulus.as_int(),
    ;
}

/// Modular exponentiation.
pub trait Pow: FieldInt {
    /// Raises `self` to a non-negative power, reducing after every
    /// multiplication.
    fn pow(self, exponent: Self, modulus: Self) -> (r: Self)
        requires
            modulus.as_int() > 0,
            exponent.as_int() >= 0,
        ensures
            r.as_int() == pow(self.as_int(), exponent.as_int() as nat) % modulus.as_int(),
    ;
}

/// Division of residues by way of Fermat's little theorem.
pub trait DivInFiniteField: Pow {
    /// Multiplies `self` by `rhs` raised to the power `prime - 2`, which is
    /// the inverse of `rhs` when `prime` is prime and does not divide `rhs`.
    fn div_in_finite_field(self, rhs: Self, prime: Self) -> (r: Self)
        requires
            prime.as_int() >= 2,
        ensures
            r.as_int() == (self.as_int() * pow(rhs.as_int(), (prime.as_int() - 2) as nat))
                % prime.as_int(),
    ;
}

/// Reduces a wide intermediate value. The machine remainder has the sign of
/// the value, so the modulus is added and the sum reduced once more.
fn wide_reduce(value: i128, modulus: i128) -> (r: i128)
    requires
        0 < modulus <= i64::MAX,
    ensures
        r == value % modulus,
        0 <= r < modulus,
{
    proof {
        lemma_double_reduction(value as int, modulus as int);
        lemma_mod_bound(value as int, modulus as int);
    }
    (value % modulus + modulus) % modulus
}

impl FieldInt for i64 {
    open spec fn as_int(self) -> int {
        self as int
    }

    proof fn lemma_as_int_injective(a: Self, b: Self) {
    }

    fn zero() -> (r: Self) {
        0
    }

    fn one() -> (r: Self) {
        1
    }

    fn equals(self, rhs: Self) -> (r: bool) {
        self == rhs
    }

    fn less_than(self, rhs: Self) -> (r: bool) {
        self < rhs
    }

    fn pred(self) -> (r: Self) {
        self - 1
    }

    fn reduce(self, modulus: Self) -> (r: Self) {
        wide_reduce(self as i128, modulus as i128) as i64
    }

    fn add_mod(self, rhs: Self, modulus: Self) -> (r: Self) {
        wide_reduce(self as i128 + rhs as i128, modulus as i128) as i64
    }

    fn sub_mod(self, rhs: Self, modulus: Self) -> (r: Self) {
        wide_reduce(self as i128 - rhs as i128, modulus as i128) as i64
    }

    fn mul_mod(self, rhs: Self, modulus: Self) -> (r: Self) {
        proof {
            lemma_product_magnitude(self as int, rhs as int, 0x8000_0000_0000_0000);
        }
        wide_reduce((self as i128) * (rhs as i128), modulus as i128) as i64
    }
}

impl Pow for i64 {
    fn pow(self, exponent: Self, modulus: Self) -> (r: Self) {
        let ghost target = pow(self as int, exponent as nat) % (modulus as int);
        let mut acc: i64 = FieldInt::reduce(1i64, modulus);
        let mut base: i64 = FieldInt::reduce(self, modulus);
        let mut e: i64 = exponent;
        proof {
            lemma_pow_mod_noop(self as int, exponent as nat, modulus as int);
            lemma_mul_mod_noop_general(1, pow(base as int, exponent as nat), modulus as int);
        }
        while e > 0
            invariant
                0 <= e,
                0 < modulus,
                0 <= acc < modulus,
                (acc * pow(base as int, e as nat)) % (modulus as int) == target,
            decreases e,
        {
            proof {
                lemma_square_and_multiply_step(acc as int, base as int, e as nat, modulus as int);
            }
            if e % 2 == 1 {
                acc = acc.mul_mod(base, modulus);
            }
            base = base.mul_mod(base, modulus);
            e = e / 2;
        }
        proof {
            lemma_pow0(base as int);
            vstd::arithmetic::div_mod::lemma_small_mod(acc as nat, modulus as nat);
        }
        acc
    }
}

impl DivInFiniteField for i64 {
    fn div_in_finite_field(self, rhs: Self, prime: Self) -> (r: Self) {
        let inverse = Pow::pow(rhs, prime - 2, prime);
        proof {
            lemma_mul_mod_noop_general(
                self as int,
                pow(rhs as int, (prime - 2) as nat),
                prime as int,
            );
        }
        self.mul_mod(inverse, prime)
    }
}

impl FieldInt for i32 {
    open spec fn as_int(self) -> int {
        self as int
    }

    proof fn lemma_as_int_injective(a: Self, b: Self) {
    }

    fn zero() -> (r: Self) {
        0
    }

    fn one() -> (r: Self) {
        1
    }

    fn equals(self, rhs: Self) -> (r: bool) {
        self == rhs
    }

    fn less_than(self, rhs: Self) -> (r: bool) {
        self < rhs
    }

    fn pred(self) -> (r: Self) {
        self - 1
    }

    fn reduce(self, modulus: Self) -> (r: Self) {
        wide_reduce(self as i128, modulus as i128) as i32
    }

    fn add_mod(self, rhs: Self, modulus: Self) -> (r: Self) {
        wide_reduce(self as i128 + rhs as i128, modulus as i128) as i32
    }

    fn sub_mod(self, rhs: Self, modulus: Self) -> (r: Self) {
        wide_reduce(self as i128 - rhs as i128, modulus as i128) as i32
    }

    fn mul_mod(self, rhs: Self, modulus: Self) -> (r: Self) {
        proof {
            lemma_product_magnitude(self as int, rhs as int, 0x8000_0000);
        }
        wide_reduce((self as i128) * (rhs as i128), modulus as i128) as i32
    }
}

impl Pow for i32 {
    fn pow(self, exponent: Self, modulus: Self) -> (r: Self) {
        proof {
            lemma_mod_bound(pow(self as int, exponent as nat), modulus as int);
        }
        let wide: i64 = Pow::pow(self as i64, exponent as i64, modulus as i64);
        wide as i32
    }
}

impl DivInFiniteField for i32 {
    fn div_in_finite_field(self, rhs: Self, prime: Self) -> (r: Self) {
        let inverse = Pow::pow(rhs, prime - 2, prime);
        proof {
            lemma_mul_mod_noop_general(
                self as int,
                pow(rhs as int, (prime - 2) as nat),
                prime as int,
            );
        }
        self.mul_mod(inverse, prime)
    }
}

} // verus!
