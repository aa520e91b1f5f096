//! What solving an equation gives: no value, any value, real or complex
//! roots.

use crate::complex::{Complex, ComplexValue};
use crate::ratio::{lemma_order_total, lemma_precedes_is_less, Ratio};
use crate::rational::Rational;
use vstd::prelude::*;
use vstd::string::StringExecFns;

verus! {

/// The outcome of solving a polynomial equation.
#[derive(Debug, PartialEq, Eq)]
pub enum Roots<T, V> {
    /// The degree is too high for the solver.
    Unsolvable,
    /// No number solves the equation.
    Zero,
    /// Every number solves the equation.
    Any,
    /// One real root.
    One(T),
    /// Two real roots, the smaller first.
    Two(T, T),
    /// Two complex roots, the one of smaller modulus first.
    Complex(V, V),
}

impl<T: Copy, V: Copy> Copy for Roots<T, V> {

}

impl<T: Clone, V: Clone> Clone for Roots<T, V> {
    fn clone(&self) -> (r: Roots<T, V>) {
        match self {
            Roots::Unsolvable => Roots::Unsolvable,
            Roots::Zero => Roots::Zero,
            Roots::Any => Roots::Any,
            Roots::One(x) => Roots::One(x.clone()),
            Roots::Two(x, y) => Roots::Two(x.clone(), y.clone()),
            Roots::Complex(x, y) => Roots::Complex(x.clone(), y.clone()),
        }
    }
}

impl<T, V> Roots<T, V> {
    /// The message for this outcome, around the texts `first` and `second`
    /// of what it carries.
    pub open spec fn message(self, first: Seq<char>, second: Seq<char>) -> Seq<char> {
        match self {
            Roots::Unsolvable => "Can't solve"@,
            Roots::Zero => "Zero solutions"@,
            Roots::Any => "Any number is a solution"@,
            Roots::One(_) => "One real root: "@ + first,
            Roots::Two(_, _) => "Two real root: "@ + first + " and "@ + second,
            Roots::Complex(_, _) => "Two complex roots: "@ + first + " and "@ + second,
        }
    }

    /// The message for this outcome. What the outcome carries is not written
    /// by this function: the caller supplies the text of the first item as
    /// `first` and that of the second as `second`; an outcome that carries
    /// less ignores the rest.
    pub fn render(&self, first: &str, second: &str) -> (s: String)
        ensures
            s@ == self.message(first@, second@),
    {
        match self {
            Roots::Unsolvable => String::from_str("Can't solve"),
            Roots::Zero => String::from_str("Zero solutions"),
            Roots::Any => String::from_str("Any number is a solution"),
            Roots::One(_) => {
                let mut s = String::from_str("One real root: ");
                s.append(first);
                s
            },
            Roots::Two(_, _) => {
                let mut s = String::from_str("Two real root: ");
                s.append(first);
                s.append(" and ");
                s.append(second);
                s
            },
            Roots::Complex(_, _) => {
                let mut s = String::from_str("Two complex roots: ");
                s.append(first);
                s.append(" and ");
                s.append(second);
                s
            },
        }
    }
}

impl View for Roots<Rational, Complex> {
    type V = Roots<Ratio, ComplexValue>;

    open spec fn view(&self) -> Roots<Ratio, ComplexValue> {
        match *self {
            Roots::Unsolvable => Roots::Unsolvable,
            Roots::Zero => Roots::Zero,
            Roots::Any => Roots::Any,
            Roots::One(r) => Roots::One(r@),
            Roots::Two(r, s) => Roots::Two(r@, s@),
            Roots::Complex(c, d) => Roots::Complex(c@, d@),
        }
    }
}

impl Roots<Rational, Complex> {
    /// Two real roots in order: the smaller number first, and `a` first
    /// where the two are the same number.
    pub open spec fn two_of(a: Rational, b: Rational) -> Roots<Rational, Complex> {
        if b@.less_in_value(a@) {
            Roots::Two(b, a)
        } else {
            Roots::Two(a, b)
        }
    }

    /// Two complex roots in order: the one of smaller modulus first, and
    /// `a` first where `a` is not the greater.
    pub open spec fn complex_of(a: Complex, b: Complex) -> Roots<Rational, Complex> {
        if a@.exceeds(b@) {
            Roots::Complex(b, a)
        } else {
            Roots::Complex(a, b)
        }
    }

    /// The two real roots `a` and `b`, the smaller number first.
    pub fn new_two(a: Rational, b: Rational) -> (r: Roots<Rational, Complex>)
        ensures
            r == Roots::two_of(a, b),
    {
        if b.is_less(&a) {
            Roots::Two(b, a)
        } else {
            Roots::Two(a, b)
        }
    }

    /// The two complex roots `a` and `b`, the one of smaller modulus first.
    pub fn new_complex(a: Complex, b: Complex) -> (r: Roots<Rational, Complex>)
        ensures
            r == Roots::complex_of(a, b),
    {
        proof {
            if a@.modulus_squared() is Some && b@.modulus_squared() is Some {
                let m = a@.modulus_squared().unwrap();
                let n = b@.modulus_squared().unwrap();
                lemma_order_total(m, n);
                lemma_precedes_is_less(n, m);
            }
        }
        if a > b {
            Roots::Complex(b, a)
        } else {
            Roots::Complex(a, b)
        }
    }
}

/// Of two fractions, `new_two` puts the smaller number first: the second is
/// never less than the first. The pair holds the two fractions that were
/// given.
pub proof fn lemma_two_rationals_in_order(a: Rational, b: Rational)
    ensures
        Roots::two_of(a, b) matches Roots::Two(x, y) && !y@.less_in_value(x@) && ((x == a && y
            == b) || (x == b && y == a)),
{
}

/// Of two complex numbers whose squared moduli can be computed,
/// `new_complex` puts first the one of smaller modulus: the squared modulus
/// of the second is never less than that of the first. The pair holds the
/// two numbers that were given.
pub proof fn lemma_two_complex_in_order(a: Complex, b: Complex)
    requires
        a@.modulus_squared() is Some,
        b@.modulus_squared() is Some,
    ensures
        Roots::complex_of(a, b) matches Roots::Complex(x, y)
            && !y@.modulus_squared().unwrap().less_in_value(x@.modulus_squared().unwrap()) && ((x
            == a && y == b) || (x == b && y == a)),
{
}

} // verus!
