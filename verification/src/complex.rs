//! Complex numbers with exact rational parts, ordered by modulus.

use crate::ratio::Ratio;
use crate::rational::Rational;
use core::cmp::Ordering;
use vstd::prelude::*;
use vstd::std_specs::cmp::PartialOrdSpecImpl;
use vstd::string::StringExecFns;

verus! {

/// The mathematical model of a complex number: two fractions.
pub struct ComplexValue {
    pub re: Ratio,
    pub im: Ratio,
}

impl ComplexValue {
    /// The square of the modulus, `re * re + im * im`, in lowest terms;
    /// `None` when a square or their sum cannot be stored before it is
    /// reduced.
    pub open spec fn modulus_squared(self) -> Option<Ratio> {
        if self.re.product_fits(self.re) && self.im.product_fits(self.im) && self.re.product(
            self.re,
        ).sum_fits(self.im.product(self.im)) {
            Some(self.re.product(self.re).sum(self.im.product(self.im)))
        } else {
            None
        }
    }

    /// The modulus of `self` is greater than that of `other`. The moduli
    /// are compared through their squares; where a square cannot be
    /// stored, neither number is the greater.
    pub open spec fn exceeds(self, other: ComplexValue) -> bool {
        match (self.modulus_squared(), other.modulus_squared()) {
            (Some(m), Some(n)) => n.less_in_value(m),
            _ => false,
        }
    }

    /// The number as text: the real part unless it is zero, then a space,
    /// the imaginary part and the letter `i` unless that part is zero.
    pub open spec fn text(self, re_approx: Seq<char>, im_approx: Seq<char>) -> Seq<char> {
        let first = if self.re.is_zero() {
            Seq::<char>::empty()
        } else {
            self.re.text(re_approx)
        };
        let second = if self.im.is_zero() {
            Seq::<char>::empty()
        } else {
            seq![' '] + self.im.text(im_approx) + seq!['i']
        };
        first + second
    }
}

/// A complex number `real + imag * i`.
#[derive(Debug, Clone, Copy, PartialEq, Eq, Structural)]
pub struct Complex {
    real_part: Rational,
    imag_part: Rational,
}

impl View for Complex {
    type V = ComplexValue;

    closed spec fn view(&self) -> ComplexValue {
        ComplexValue { re: self.real_part@, im: self.imag_part@ }
    }
}

impl Complex {
    /// The number with the given real and imaginary parts.
    pub fn new(re: Rational, im: Rational) -> (c: Complex)
        ensures
            c@ == (ComplexValue { re: re@, im: im@ }),
    {
        Complex { real_part: re, imag_part: im }
    }

    /// The real part.
    pub fn re(&self) -> (r: &Rational)
        ensures
            r@ == self@.re,
    {
        &self.real_part
    }

    /// The imaginary part.
    pub fn im(&self) -> (r: &Rational)
        ensures
            r@ == self@.im,
    {
        &self.imag_part
    }

    /// The square of the modulus, exactly; `None` when it cannot be
    /// computed in 64-bit magnitudes.
    pub fn modulus_squared(&self) -> (r: Option<Rational>)
        ensures
            r is Some <==> self@.modulus_squared() is Some,
            r matches Some(x) ==> Some(x@) == self@.modulus_squared(),
    {
        match self.real_part.checked_mul(self.real_part) {
            None => None,
            Some(a) => match self.imag_part.checked_mul(self.imag_part) {
                None => None,
                Some(b) => a.checked_add(b),
            },
        }
    }

    /// The number as text: the real part unless it is zero, then the
    /// imaginary part, written as a space, the part and `i`, unless it is
    /// zero. Each part is written as `Rational::render` writes it, with the
    /// rounded decimal that the caller supplies for it.
    pub fn render(&self, re_approx: &str, im_approx: &str) -> (s: String)
        ensures
            s@ == self@.text(re_approx@, im_approx@),
    {
        let mut s = String::new();
        if !self.real_part.is_zero() {
            let first = self.real_part.render(re_approx);
            s.append(first.as_str());
        }
        if !self.imag_part.is_zero() {
            proof {
                reveal_strlit(" ");
                reveal_strlit("i");
            }
            let second = self.imag_part.render(im_approx);
            s.append(" ");
            s.append(second.as_str());
            s.append("i");
        }
        assert(s@ =~= self@.text(re_approx@, im_approx@));
        s
    }
}

impl PartialOrdSpecImpl for Complex {
    open spec fn obeys_partial_cmp_spec() -> bool {
        true
    }

    open spec fn partial_cmp_spec(&self, other: &Complex) -> Option<Ordering> {
        match (self@.modulus_squared(), other@.modulus_squared()) {
            (Some(a), Some(b)) => if a.precedes(b) {
                Some(Ordering::Less)
            } else if a.ties(b) {
                Some(Ordering::Equal)
            } else {
                Some(Ordering::Greater)
            },
            _ => None,
        }
    }
}

impl PartialOrd for Complex {
    /// Complex numbers are ordered by their moduli, which are compared
    /// through their squares; numbers of one modulus are `Equal`. Where a
    /// square cannot be computed in 64-bit magnitudes the two numbers are
    /// not comparable.
    fn partial_cmp(&self, other: &Complex) -> (r: Option<Ordering>) {
        match self.modulus_squared() {
            None => None,
            Some(a) => match other.modulus_squared() {
                None => None,
                Some(b) => a.partial_cmp(&b),
            },
        }
    }
}

} // verus!
