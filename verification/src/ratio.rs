//! The mathematical model of a fraction: a sign and two naturals.

use crate::decimal::decimal_digits;
use crate::math::{
    decimal_len, gcd_of, lemma_gcd_divides, lemma_gcd_of_quotients, lemma_gcd_positive,
    lemma_gcd_scales,
};
use crate::sign::Sign;
use vstd::arithmetic::div_mod::lemma_div_multiples_vanish_quotient;
use vstd::prelude::*;

verus! {

/// A fraction `sign * num / den` over the naturals.
pub struct Ratio {
    pub sign: Sign,
    pub num: nat,
    pub den: nat,
}

/// The magnitude of an integer.
pub open spec fn magnitude(n: int) -> nat {
    if n >= 0 {
        n as nat
    } else {
        (-n) as nat
    }
}

impl Ratio {
    /// The denominator is not zero.
    pub open spec fn wf(self) -> bool {
        self.den > 0
    }

    /// Numerator and denominator have no common factor.
    pub open spec fn reduced(self) -> bool {
        gcd_of(self.num, self.den) == 1
    }

    /// Both magnitudes can be stored in 64 bits.
    pub open spec fn fits(self) -> bool {
        self.num <= u64::MAX && self.den <= u64::MAX
    }

    /// The numerator with its sign.
    pub open spec fn signed_num(self) -> int {
        self.sign.signed(self.num as int)
    }

    /// Both fractions stand for the same number.
    pub open spec fn same_value(self, other: Ratio) -> bool {
        self.signed_num() * other.den == other.signed_num() * self.den
    }

    /// The numerator is zero.
    pub open spec fn is_zero(self) -> bool {
        self.num == 0
    }

    /// `n / d` under `sign`, in lowest terms.
    pub open spec fn normalized(sign: Sign, n: nat, d: nat) -> Ratio {
        Ratio { sign, num: n / gcd_of(n, d), den: d / gcd_of(n, d) }
    }

    /// An integer's fraction: `n / d` in lowest terms, with the sign of `n`
    /// (positive for zero).
    pub open spec fn of_signed(n: int, d: nat) -> Ratio {
        Ratio::normalized(Sign::of_int(n), magnitude(n), d)
    }

    /// Zero, as `+0/1`.
    pub open spec fn zero() -> Ratio {
        Ratio { sign: Sign::Positive, num: 0, den: 1 }
    }

    /// The same magnitude under the other sign.
    pub open spec fn negated(self) -> Ratio {
        Ratio { sign: self.sign.flipped(), num: self.num, den: self.den }
    }

    /// The numerator of the sum over the product of the denominators.
    pub open spec fn sum_numerator(self, rhs: Ratio) -> int {
        self.signed_num() * rhs.den + rhs.signed_num() * self.den
    }

    /// The least common denominator.
    pub open spec fn common_denominator(self, rhs: Ratio) -> nat {
        self.den * rhs.den / gcd_of(self.den, rhs.den)
    }

    /// The sum over the least common denominator can be stored before it is
    /// reduced.
    pub open spec fn sum_fits(self, rhs: Ratio) -> bool {
        self.common_denominator(rhs) <= u64::MAX && magnitude(self.sum_numerator(rhs)) / gcd_of(
            self.den,
            rhs.den,
        ) <= u64::MAX
    }

    /// The sum, in lowest terms.
    pub open spec fn sum(self, rhs: Ratio) -> Ratio {
        Ratio::of_signed(self.sum_numerator(rhs), self.den * rhs.den)
    }

    /// The difference can be stored before it is reduced.
    pub open spec fn difference_fits(self, rhs: Ratio) -> bool {
        self.sum_fits(rhs.negated())
    }

    /// The difference, in lowest terms.
    pub open spec fn difference(self, rhs: Ratio) -> Ratio {
        self.sum(rhs.negated())
    }

    /// The product can be stored before it is reduced.
    pub open spec fn product_fits(self, rhs: Ratio) -> bool {
        self.num * rhs.num <= u64::MAX && self.den * rhs.den <= u64::MAX
    }

    /// The product, in lowest terms; its sign is the combination of the two
    /// signs, also when it is zero.
    pub open spec fn product(self, rhs: Ratio) -> Ratio {
        Ratio::normalized(self.sign.combine(rhs.sign), self.num * rhs.num, self.den * rhs.den)
    }

    /// The quotient exists and can be stored before it is reduced.
    pub open spec fn quotient_fits(self, rhs: Ratio) -> bool {
        rhs.num > 0 && self.num * rhs.den <= u64::MAX && self.den * rhs.num <= u64::MAX
    }

    /// The quotient, in lowest terms; its sign is the combination of the
    /// two signs, also when it is zero.
    pub open spec fn quotient(self, rhs: Ratio) -> Ratio {
        Ratio::normalized(self.sign.combine(rhs.sign), self.num * rhs.den, self.den * rhs.num)
    }

    /// The sum, where it can be stored before it is reduced.
    pub open spec fn checked_sum(self, rhs: Ratio) -> Option<Ratio> {
        if self.sum_fits(rhs) {
            Some(self.sum(rhs))
        } else {
            None
        }
    }

    /// The difference, where it can be stored before it is reduced.
    pub open spec fn checked_difference(self, rhs: Ratio) -> Option<Ratio> {
        if self.difference_fits(rhs) {
            Some(self.difference(rhs))
        } else {
            None
        }
    }

    /// The product, where it can be stored before it is reduced.
    pub open spec fn checked_product(self, rhs: Ratio) -> Option<Ratio> {
        if self.product_fits(rhs) {
            Some(self.product(rhs))
        } else {
            None
        }
    }

    /// The quotient, where it exists and can be stored before it is
    /// reduced.
    pub open spec fn checked_quotient(self, rhs: Ratio) -> Option<Ratio> {
        if self.quotient_fits(rhs) {
            Some(self.quotient(rhs))
        } else {
            None
        }
    }

    /// The whole number `n`, not negative.
    pub open spec fn whole(n: nat) -> Ratio {
        Ratio { sign: Sign::Positive, num: n, den: 1 }
    }

    /// `self` comes before `other`: fractions of one sign go by their
    /// magnitudes, cross-multiplied; of two signs the negative one comes
    /// first.
    pub open spec fn precedes(self, other: Ratio) -> bool {
        if self.sign == other.sign {
            self.num * other.den < other.num * self.den
        } else {
            self.sign == Sign::Negative
        }
    }

    /// Neither comes before the other: one sign and one magnitude.
    pub open spec fn ties(self, other: Ratio) -> bool {
        self.sign == other.sign && self.num * other.den == other.num * self.den
    }

    /// `self` is the smaller number.
    pub open spec fn less_in_value(self, other: Ratio) -> bool {
        self.signed_num() * other.den < other.signed_num() * self.den
    }

    /// The fraction as text: `approx` when the numerator has five digits or
    /// more, else sign and numerator, followed by a slash and the
    /// denominator unless that is one.
    pub open spec fn text(self, approx: Seq<char>) -> Seq<char> {
        if decimal_len(self.num) >= 5 {
            approx
        } else if self.den == 1 {
            self.sign.text() + decimal_digits(self.num)
        } else {
            self.sign.text() + decimal_digits(self.num) + seq!['/'] + decimal_digits(self.den)
        }
    }
}

/// A fraction in lowest terms is well formed, reduced, and stands for the
/// number it was made from.
pub proof fn lemma_normalized(sign: Sign, n: nat, d: nat)
    requires
        d > 0,
    ensures
        Ratio::normalized(sign, n, d).wf(),
        Ratio::normalized(sign, n, d).reduced(),
        Ratio::normalized(sign, n, d).same_value(Ratio { sign, num: n, den: d }),
        Ratio::normalized(sign, n, d).num <= n,
        Ratio::normalized(sign, n, d).den <= d,
        Ratio::normalized(sign, n, d).num * gcd_of(n, d) == n,
        Ratio::normalized(sign, n, d).den * gcd_of(n, d) == d,
{
    let g = gcd_of(n, d);
    let r = Ratio::normalized(sign, n, d);
    lemma_gcd_positive(n, d);
    lemma_gcd_divides(n, d);
    lemma_gcd_of_quotients(n, d);
    assert(r.num * g == n && r.den * g == d && r.den > 0 && r.num <= n && r.den <= d)
        by (nonlinear_arith)
        requires
            g > 0,
            d > 0,
            n % g == 0,
            d % g == 0,
            r.num == n / g,
            r.den == d / g,
    ;
    let a = r.num as int;
    let b = r.den as int;
    let gi = g as int;
    assert(a * (b * gi) == (a * gi) * b && (-a) * (b * gi) == (-(a * gi)) * b)
        by (nonlinear_arith);
}

/// A factor that numerator and denominator share does not change the
/// fraction in lowest terms.
pub proof fn lemma_normalized_scales(sign: Sign, k: nat, n: nat, d: nat)
    requires
        k > 0,
        d > 0,
    ensures
        Ratio::normalized(sign, k * n, k * d) == Ratio::normalized(sign, n, d),
{
    let h = gcd_of(n, d);
    lemma_gcd_scales(k, n, d);
    lemma_gcd_positive(n, d);
    lemma_div_multiples_vanish_quotient(k as int, n as int, h as int);
    lemma_div_multiples_vanish_quotient(k as int, d as int, h as int);
}

/// The sum is well formed, in lowest terms, and stands for the sum of the
/// two numbers.
pub proof fn lemma_sum_is_exact(a: Ratio, b: Ratio)
    requires
        a.wf(),
        b.wf(),
    ensures
        a.sum(b).wf(),
        a.sum(b).reduced(),
        a.sum(b).signed_num() * (a.den * b.den) == a.sum_numerator(b) * a.sum(b).den,
{
    let n = a.sum_numerator(b);
    let d = a.den * b.den;
    assert(d > 0) by (nonlinear_arith)
        requires
            a.den > 0,
            b.den > 0,
            d == a.den * b.den,
    ;
    lemma_normalized(Sign::of_int(n), magnitude(n), d);
}

/// The difference is well formed, in lowest terms, and stands for the
/// difference of the two numbers.
pub proof fn lemma_difference_is_exact(a: Ratio, b: Ratio)
    requires
        a.wf(),
        b.wf(),
    ensures
        a.difference(b).wf(),
        a.difference(b).reduced(),
        a.difference(b).signed_num() * (a.den * b.den) == (a.signed_num() * b.den
            - b.signed_num() * a.den) * a.difference(b).den,
{
    lemma_sum_is_exact(a, b.negated());
    let n = b.num as int;
    let d = a.den as int;
    assert((-n) * d == -(n * d)) by (nonlinear_arith);
}

/// The product is well formed, in lowest terms, and stands for the product
/// of the two numbers.
pub proof fn lemma_product_is_exact(a: Ratio, b: Ratio)
    requires
        a.wf(),
        b.wf(),
    ensures
        a.product(b).wf(),
        a.product(b).reduced(),
        a.product(b).signed_num() * (a.den * b.den) == (a.signed_num() * b.signed_num())
            * a.product(b).den,
{
    let sign = a.sign.combine(b.sign);
    let n = a.num * b.num;
    let d = a.den * b.den;
    assert(d > 0) by (nonlinear_arith)
        requires
            a.den > 0,
            b.den > 0,
            d == a.den * b.den,
    ;
    lemma_normalized(sign, n, d);
    let x = a.num as int;
    let y = b.num as int;
    assert((-x) * y == -(x * y) && x * (-y) == -(x * y) && (-x) * (-y) == x * y)
        by (nonlinear_arith);
    assert(sign.signed(n as int) == a.signed_num() * b.signed_num());
}

/// The quotient by a fraction that is not zero is well formed, in lowest
/// terms, and stands for the quotient of the two numbers: times the
/// divisor it gives the dividend.
pub proof fn lemma_quotient_is_exact(a: Ratio, b: Ratio)
    requires
        a.wf(),
        b.wf(),
        b.num > 0,
    ensures
        a.quotient(b).wf(),
        a.quotient(b).reduced(),
        a.quotient(b).signed_num() * (a.den * b.signed_num()) == (a.signed_num() * b.den)
            * a.quotient(b).den,
{
    let sign = a.sign.combine(b.sign);
    let n = a.num * b.den;
    let d = a.den * b.num;
    assert(d > 0) by (nonlinear_arith)
        requires
            a.den > 0,
            b.num > 0,
            d == a.den * b.num,
    ;
    lemma_normalized(sign, n, d);
    let q = a.quotient(b);
    let qn = q.num as int;
    let qd = q.den as int;
    let x = a.num as int;
    let y = b.num as int;
    let u = a.den as int;
    let v = b.den as int;
    assert(sign.signed(qn) * d == sign.signed(n as int) * qd);
    assert(n == x * v && d == u * y);
    assert(qn * (u * y) == (x * v) * qd ==> (qn * (u * (-y)) == ((-x) * v) * qd && (-qn) * (u * (
    -y)) == (x * v) * qd && (-qn) * (u * y) == ((-x) * v) * qd)) by (nonlinear_arith);
    assert((-qn) * (u * y) == -(qn * (u * y)) && (-(x * v)) * qd == -((x * v) * qd))
        by (nonlinear_arith);
}

/// A fraction and its negation can always be added, and their sum is zero.
pub proof fn lemma_sum_with_negated(x: Ratio)
    requires
        x.wf(),
        x.fits(),
    ensures
        x.sum_fits(x.negated()),
        x.sum(x.negated()).is_zero(),
        x.negated().sum_fits(x),
        x.negated().sum(x).is_zero(),
{
    let d = x.den;
    let n = x.num as int;
    assert(gcd_of(d, d) == gcd_of(0, d));
    assert(d * d / d == d) by (nonlinear_arith)
        requires
            d > 0,
    ;
    assert(n * d + (-n) * d == 0 && (-n) * d + n * d == 0) by (nonlinear_arith);
    assert(0int / (d as int) == 0) by (nonlinear_arith)
        requires
            d > 0,
    ;
    assert(x.sum_numerator(x.negated()) == 0);
    assert(x.negated().sum_numerator(x) == 0);
    assert(d * d > 0) by (nonlinear_arith)
        requires
            d > 0,
    ;
    assert(gcd_of(0, d * d) == d * d);
    assert(0nat / (d * d) == 0) by (nonlinear_arith)
        requires
            d * d > 0,
    ;
}

/// A fraction that is already in lowest terms is left as it is.
pub proof fn lemma_normalized_reduced(q: Ratio)
    requires
        q.reduced(),
    ensures
        Ratio::normalized(q.sign, q.num, q.den) == q,
{
}

/// Among fractions that are not negative, the order is that of the numbers
/// they stand for.
pub proof fn lemma_precedes_is_less(a: Ratio, b: Ratio)
    requires
        a.sign == Sign::Positive,
        b.sign == Sign::Positive,
    ensures
        a.precedes(b) <==> a.less_in_value(b),
{
}

/// Exactly one of three holds of two fractions: the first comes before the
/// second, they tie, or the second comes before the first.
pub proof fn lemma_order_total(a: Ratio, b: Ratio)
    ensures
        a.precedes(b) || a.ties(b) || b.precedes(a),
        !(a.precedes(b) && a.ties(b)),
        !(a.precedes(b) && b.precedes(a)),
        !(a.ties(b) && b.precedes(a)),
{
}

} // verus!
