//! Solving polynomial equations of degree at most two.

use crate::complex::{Complex, ComplexValue};
use crate::polynomial::{coefficient, degree_of, Polynomial};
use crate::ratio::Ratio;
use crate::rational::Rational;
use crate::root::Roots;
use crate::sign::Sign;
use vstd::prelude::*;

verus! {

/// An exact value that was needed could not be stored: a magnitude takes
/// more than 64 bits, or a divisor is zero.
#[derive(Debug, Clone, Copy, PartialEq, Eq, Structural)]
pub struct InvalidValue;

/// The discriminant `b * b - 4 * a * c` of `m`, where `a`, `b` and `c` are
/// the coefficients of `X^2`, `X` and `1`; `None` where a step of the
/// computation cannot be stored.
pub open spec fn discriminant_of(m: Map<i32, Ratio>) -> Option<Ratio> {
    let a = coefficient(m, 2);
    let b = coefficient(m, 1);
    let c = coefficient(m, 0);
    match (b.checked_product(b), Ratio::whole(4).checked_product(a)) {
        (Some(square), Some(fourfold)) => match fourfold.checked_product(c) {
            Some(product) => square.checked_difference(product),
            None => None,
        },
        _ => None,
    }
}

/// Two fractions as a pair of real roots, the smaller number first.
pub open spec fn two_ratios(x: Ratio, y: Ratio) -> Roots<Ratio, ComplexValue> {
    if y.less_in_value(x) {
        Roots::Two(y, x)
    } else {
        Roots::Two(x, y)
    }
}

/// The root `-c / b` of `b * X + c`.
pub open spec fn affine_of(m: Map<i32, Ratio>) -> Option<Roots<Ratio, ComplexValue>> {
    match coefficient(m, 0).negated().checked_quotient(coefficient(m, 1)) {
        Some(x) => Some(Roots::One(x)),
        None => None,
    }
}

/// The roots of `a * X^2 + b * X + c`, given `root`, the square root of the
/// absolute value of its discriminant `d`:
/// `-b / 2a` where `d` is zero, `(-b - root) / 2a` and `(-b + root) / 2a`
/// in order where it is positive, and the complex pair
/// `-b / 2a + (root / 2a) i`, `-b / 2a - (root / 2a) i` where it is
/// negative.
pub open spec fn quadratic_of(m: Map<i32, Ratio>, root: Ratio) -> Option<
    Roots<Ratio, ComplexValue>,
> {
    let b = coefficient(m, 1);
    match (discriminant_of(m), Ratio::whole(2).checked_product(coefficient(m, 2))) {
        (Some(d), Some(twice)) => if d.is_zero() {
            match b.negated().checked_quotient(twice) {
                Some(x) => Some(Roots::One(x)),
                None => None,
            }
        } else if d.sign == Sign::Positive {
            match (b.negated().checked_difference(root), b.negated().checked_sum(root)) {
                (Some(low), Some(high)) => match (
                    low.checked_quotient(twice),
                    high.checked_quotient(twice),
                ) {
                    (Some(x), Some(y)) => Some(two_ratios(x, y)),
                    _ => None,
                },
                _ => None,
            }
        } else {
            match (b.negated().checked_quotient(twice), root.checked_quotient(twice)) {
                (Some(re), Some(im)) => Some(
                    Roots::Complex(
                        ComplexValue { re, im },
                        ComplexValue { re, im: im.negated() },
                    ),
                ),
                _ => None,
            }
        },
        _ => None,
    }
}

/// What solving `m = 0` gives, by the degree of `m`: any number or none
/// for a constant, one root for degree one, the roots of the quadratic for
/// degree two, and `Unsolvable` for every other degree. `None` where an
/// exact value that is needed cannot be stored.
pub open spec fn solve_of(m: Map<i32, Ratio>, root: Ratio) -> Option<Roots<Ratio, ComplexValue>> {
    let d = degree_of(m);
    if d == 0 {
        if coefficient(m, 0).is_zero() {
            Some(Roots::Any)
        } else {
            Some(Roots::Zero)
        }
    } else if d == 1 {
        affine_of(m)
    } else if d == 2 {
        quadratic_of(m, root)
    } else {
        Some(Roots::Unsolvable)
    }
}

impl Polynomial {
    /// The discriminant `b * b - 4 * a * c`, where `a`, `b` and `c` are the
    /// coefficients of `X^2`, `X` and `1`; `None` where a step of the
    /// computation cannot be stored in 64-bit magnitudes.
    pub fn discriminant(p: &Polynomial) -> (d: Option<Rational>)
        ensures
            d is Some <==> discriminant_of(p@) is Some,
            d matches Some(x) ==> discriminant_of(p@) == Some(x@),
    {
        let a = p.get(2);
        let b = p.get(1);
        let c = p.get(0);
        let square = b.checked_mul(b)?;
        let fourfold = Rational::whole(4).checked_mul(a)?;
        let product = fourfold.checked_mul(c)?;
        square.checked_sub(product)
    }

    /// Solves `self = 0`.
    ///
    /// A constant has every number as a solution when it is zero and none
    /// otherwise; degree one has the root `-c / b`; degree two is solved
    /// through the discriminant; any other degree is `Unsolvable`.
    ///
    /// `root` is the square root of the absolute value of the discriminant,
    /// which the caller computes; it is used only where the degree is two
    /// and the discriminant is not zero.
    ///
    /// `InvalidValue` where an exact value that is needed cannot be stored
    /// in 64-bit magnitudes.
    pub fn solve_roots(&self, root: Rational) -> (r: Result<Roots<Rational, Complex>, InvalidValue>)
        ensures
            r is Ok <==> solve_of(self@, root@) is Some,
            r matches Ok(x) ==> solve_of(self@, root@) == Some(x@),
    {
        let d = self.degree();
        if d == 0 {
            if self.get(0).is_zero() {
                Ok(Roots::Any)
            } else {
                Ok(Roots::Zero)
            }
        } else if d == 1 {
            Polynomial::solve_affine(self)
        } else if d == 2 {
            Polynomial::solve_quadratic(self, root)
        } else {
            Ok(Roots::Unsolvable)
        }
    }

    /// The root `-c / b` of `b * X + c`.
    fn solve_affine(p: &Polynomial) -> (r: Result<Roots<Rational, Complex>, InvalidValue>)
        ensures
            r is Ok <==> affine_of(p@) is Some,
            r matches Ok(x) ==> affine_of(p@) == Some(x@),
    {
        match p.get(0).negated().checked_div(p.get(1)) {
            Some(x) => Ok(Roots::One(x)),
            None => Err(InvalidValue),
        }
    }

    /// The roots of `a * X^2 + b * X + c`, by the sign of its discriminant.
    fn solve_quadratic(p: &Polynomial, root: Rational) -> (r: Result<
        Roots<Rational, Complex>,
        InvalidValue,
    >)
        ensures
            r is Ok <==> quadratic_of(p@, root@) is Some,
            r matches Ok(x) ==> quadratic_of(p@, root@) == Some(x@),
    {
        let b = p.get(1);
        let d = match Polynomial::discriminant(p) {
            Some(d) => d,
            None => {
                return Err(InvalidValue);
            },
        };
        let twice = match Rational::whole(2).checked_mul(p.get(2)) {
            Some(t) => t,
            None => {
                return Err(InvalidValue);
            },
        };
        if d.is_zero() {
            match b.negated().checked_div(twice) {
                Some(x) => Ok(Roots::One(x)),
                None => Err(InvalidValue),
            }
        } else if *d.sign() == Sign::Positive {
            let low = match b.negated().checked_sub(root) {
                Some(v) => v,
                None => {
                    return Err(InvalidValue);
                },
            };
            let high = match b.negated().checked_add(root) {
                Some(v) => v,
                None => {
                    return Err(InvalidValue);
                },
            };
            match (low.checked_div(twice), high.checked_div(twice)) {
                (Some(x), Some(y)) => Ok(Roots::new_two(x, y)),
                _ => Err(InvalidValue),
            }
        } else {
            match (b.negated().checked_div(twice), root.checked_div(twice)) {
                (Some(re), Some(im)) => {
                    let first = Complex::new(re, im);
                    let second = Complex::new(re, im.negated());
                    proof {
                        assert(im@.negated().product(im@.negated()) == im@.product(im@));
                        assert(first@.modulus_squared() == second@.modulus_squared());
                    }
                    Ok(Roots::new_complex(first, second))
                },
                _ => Err(InvalidValue),
            }
        }
    }
}

} // verus!
