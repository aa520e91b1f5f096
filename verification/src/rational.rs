//! Exact fractions with 64-bit magnitudes and a separate sign.

use crate::decimal::push_decimal;
use crate::math::{gcd, lemma_gcd_divides, lemma_gcd_one, lemma_gcd_positive, number_len};
use crate::ratio::{
    lemma_normalized, lemma_normalized_reduced, lemma_normalized_scales, magnitude, Ratio,
};
use crate::sign::Sign;
use crate::single::{
    decode, finite, is_finite, lemma_pow2_fits, lemma_scaled_halve, lemma_scaled_odd,
    lemma_scaled_whole, scaled, value,
};
use core::cmp::Ordering;
use core::ops::{Add, Div, Mul, Neg, Sub};
use vstd::arithmetic::power2::{lemma_pow2_pos, pow2};
use vstd::bits::{lemma_u64_mul_pow2_le_max_iff_max_shr, lemma_u64_shl_is_mul};
use vstd::prelude::*;
use vstd::std_specs::cmp::PartialOrdSpecImpl;
use vstd::std_specs::ops::{AddSpecImpl, DivSpecImpl, MulSpecImpl, NegSpecImpl, SubSpecImpl};
use vstd::string::StringExecFns;

verus! {

/// A fraction: a sign, a numerator and a denominator that is not zero.
///
/// Two fractions are equal when sign, numerator and denominator are; every
/// constructor and every operation returns a fraction in lowest terms.
#[derive(Debug, Clone, Copy, PartialEq, Eq, Structural)]
pub struct Rational {
    sign: Sign,
    numerator: u64,
    denominator: u64,
}

impl View for Rational {
    type V = Ratio;

    closed spec fn view(&self) -> Ratio {
        Ratio { sign: self.sign, num: self.numerator as nat, den: self.denominator as nat }
    }
}

/// The product of two 64-bit numbers, which 128 bits always hold.
fn wide_product(a: u64, b: u64) -> (p: u128)
    ensures
        p == a * b,
{
    assert(a * b <= 0xffff_ffff_ffff_ffff * 0xffff_ffff_ffff_ffff) by (nonlinear_arith)
        requires
            a <= 0xffff_ffff_ffff_ffff,
            b <= 0xffff_ffff_ffff_ffff,
    ;
    a as u128 * b as u128
}

/// The sum of two signed magnitudes, as sign and magnitude; the sign of zero
/// is positive. `None` when the magnitude of the sum takes more than 128
/// bits.
fn signed_sum(s1: Sign, left: u128, s2: Sign, right: u128) -> (r: Option<(Sign, u128)>)
    ensures
        match r {
            Some((s, m)) => s == Sign::of_int(s1.signed(left as int) + s2.signed(right as int)) && m
                == magnitude(s1.signed(left as int) + s2.signed(right as int)),
            None => magnitude(s1.signed(left as int) + s2.signed(right as int)) > u128::MAX,
        },
{
    if s1 == s2 {
        if left > u128::MAX - right {
            None
        } else {
            let m = left + right;
            if m == 0 {
                Some((Sign::Positive, m))
            } else {
                Some((s1, m))
            }
        }
    } else if left == right {
        Some((Sign::Positive, 0))
    } else if left > right {
        Some((s1, left - right))
    } else {
        Some((s2, right - left))
    }
}

/// `num::one` at `u64`: the multiplicative identity of the 64-bit unsigned
/// integers, which is the number one.
#[verifier::external_body]
fn unit() -> (r: u64)
    ensures
        r == 1,
{
    num::one::<u64>()
}

impl Rational {
    /// What holds of every `Rational`: its denominator is not zero, and
    /// both magnitudes are 64-bit numbers.
    #[verifier::type_invariant]
    pub open spec fn well_formed(self) -> bool {
        self@.wf() && self@.fits()
    }

    /// The fraction `numerator / denominator` under `sign`, in lowest terms.
    pub fn new(sign: Sign, numerator: u64, denominator: u64) -> (r: Rational)
        requires
            denominator > 0,
        ensures
            r@ == Ratio::normalized(sign, numerator as nat, denominator as nat),
            r@.reduced(),
            r@.same_value(Ratio { sign, num: numerator as nat, den: denominator as nat }),
    {
        proof {
            lemma_normalized(sign, numerator as nat, denominator as nat);
        }
        let mut raw = Rational { sign, numerator, denominator };
        if denominator != 1 {
            raw.reduce();
        } else {
            proof {
                lemma_gcd_one(numerator as nat);
            }
        }
        raw
    }

    /// The number that the IEEE-754 single with the encoding `bits` stands
    /// for, exactly and in lowest terms. Both zeros give `+0/1`.
    ///
    /// `None` for an infinity or a NaN, and for a number whose numerator or
    /// denominator in lowest terms takes more than 64 bits.
    pub fn from_f32(bits: u32) -> (r: Option<Rational>)
        ensures
            r is Some <==> is_finite(bits) && value(bits).fits(),
            r matches Some(x) ==> x@ == value(bits) && x@.reduced(),
    {
        if !finite(bits) {
            return None;
        }
        let (mantissa, exponent, flag) = decode(bits);
        if mantissa == 0 {
            return Some(Rational::new(Sign::Positive, 0, 1));
        }
        let sign = if flag == 1 {
            Sign::Positive
        } else {
            Sign::Negative
        };
        let mut m: u64 = mantissa;
        let mut e: i16 = exponent;
        while e < 0 && m % 2 == 0
            invariant
                0 < m < 0x100_0000,
                -150 <= e <= 105,
                scaled(sign, m as nat, e as int) == value(bits),
            decreases -e,
        {
            proof {
                lemma_scaled_halve(sign, m as nat, e as int);
            }
            m = m / 2;
            e = e + 1;
        }
        if e < 0 {
            let k: u64 = (-e) as u64;
            proof {
                lemma_scaled_odd(sign, m as nat, e as int);
                lemma_pow2_fits(k as nat);
            }
            if k > 63 {
                return None;
            }
            proof {
                lemma_pow2_pos(k as nat);
                lemma_u64_shl_is_mul(1, k);
            }
            let denominator = unit() << k;
            Some(Rational::new(sign, m, denominator))
        } else {
            let k: u64 = e as u64;
            proof {
                lemma_scaled_whole(sign, m as nat, e as int);
                lemma_pow2_fits(k as nat);
            }
            if k > 63 {
                proof {
                    assert(m * pow2(k as nat) >= pow2(k as nat)) by (nonlinear_arith)
                        requires
                            m >= 1,
                    ;
                }
                return None;
            }
            proof {
                lemma_u64_mul_pow2_le_max_iff_max_shr(m, k, u64::MAX);
            }
            if m > (u64::MAX >> k) {
                return None;
            }
            proof {
                lemma_u64_shl_is_mul(m, k);
            }
            Some(Rational::new(sign, m << k, 1))
        }
    }

    /// The quotient of the two numbers that the IEEE-754 singles with the
    /// encodings `num` and `denom` stand for, exactly and in lowest terms.
    ///
    /// `None` where `from_f32` gives none for one of them, where `denom`
    /// stands for zero, and where a cross product of the two fractions
    /// takes more than 64 bits.
    pub fn from_f32_couple(num: u32, denom: u32) -> (r: Option<Rational>)
        ensures
            r is Some <==> is_finite(num) && value(num).fits() && is_finite(denom) && value(
                denom,
            ).fits() && value(num).quotient_fits(value(denom)),
            r matches Some(x) ==> x@ == value(num).quotient(value(denom)) && x@.reduced(),
    {
        let n = Rational::from_f32(num)?;
        let d = Rational::from_f32(denom)?;
        let mut r = n.checked_div(d)?;
        proof {
            lemma_normalized_reduced(r@);
        }
        r.reduce();
        Some(r)
    }

    /// The sign.
    pub fn sign(&self) -> (s: &Sign)
        ensures
            *s == self@.sign,
    {
        &self.sign
    }

    /// The numerator.
    pub fn numerator(&self) -> (n: u64)
        ensures
            n == self@.num,
    {
        self.numerator
    }

    /// The denominator, which is never zero.
    pub fn denominator(&self) -> (d: u64)
        ensures
            d == self@.den,
            d > 0,
    {
        proof {
            use_type_invariant(self);
        }
        self.denominator
    }

    /// Whether the fraction is zero, under either sign.
    pub fn is_zero(&self) -> (b: bool)
        ensures
            b == self@.is_zero(),
    {
        self.numerator == 0
    }

    /// The fraction of the view `q`.
    pub closed spec fn of_ratio(q: Ratio) -> Rational {
        Rational { sign: q.sign, numerator: q.num as u64, denominator: q.den as u64 }
    }

    /// The whole number `n`.
    pub fn whole(n: u64) -> (r: Rational)
        ensures
            r@ == Ratio::whole(n as nat),
    {
        proof {
            lemma_gcd_one(n as nat);
            assert((n as nat) / 1 == n as nat);
        }
        Rational::new(Sign::Positive, n, 1)
    }

    /// The same magnitude under the other sign.
    pub fn negated(self) -> (r: Rational)
        ensures
            r@ == self@.negated(),
    {
        proof {
            use_type_invariant(self);
        }
        Rational { sign: self.sign.flip(), numerator: self.numerator, denominator: self.denominator }
    }

    /// The sum in lowest terms. It is computed over the least common
    /// denominator; `None` when that denominator, or the numerator over it,
    /// takes more than 64 bits.
    pub fn checked_add(self, rhs: Rational) -> (r: Option<Rational>)
        ensures
            r is Some <==> self@.sum_fits(rhs@),
            r matches Some(x) ==> x@ == self@.sum(rhs@) && x@.reduced(),
    {
        proof {
            use_type_invariant(self);
            use_type_invariant(rhs);
            lemma_gcd_positive(self.denominator as nat, rhs.denominator as nat);
            lemma_gcd_divides(self.denominator as nat, rhs.denominator as nat);
        }
        let g = gcd(self.denominator, rhs.denominator);
        let a1 = self.denominator / g;
        let a2 = rhs.denominator / g;
        let d = wide_product(self.denominator, a2);
        let left = wide_product(self.numerator, a2);
        let right = wide_product(a1, rhs.numerator);
        let ghost n = self.sign.signed(left as int) + rhs.sign.signed(right as int);
        proof {
            let n1 = self.numerator as int;
            let d1 = self.denominator as int;
            let n2 = rhs.numerator as int;
            let d2 = rhs.denominator as int;
            let gi = g as int;
            let b1 = a1 as int;
            let b2 = a2 as int;
            assert(d1 == gi * b1 && d2 == gi * b2 && b1 > 0 && b2 > 0) by (nonlinear_arith)
                requires
                    gi > 0,
                    d1 > 0,
                    d2 > 0,
                    d1 % gi == 0,
                    d2 % gi == 0,
                    b1 == d1 / gi,
                    b2 == d2 / gi,
            ;
            assert(d1 * d2 == gi * (d1 * b2) && d1 * b2 > 0) by (nonlinear_arith)
                requires
                    d2 == gi * b2,
                    d1 > 0,
                    b2 > 0,
            ;
            assert((gi * (d1 * b2)) / gi == d1 * b2) by (nonlinear_arith)
                requires
                    gi > 0,
            ;
            assert(self@.common_denominator(rhs@) == d);
            assert(n1 * d2 == gi * (n1 * b2) && n2 * d1 == gi * (b1 * n2) && (-n1) * d2 == -(gi * (
            n1 * b2)) && (-n2) * d1 == -(gi * (b1 * n2))) by (nonlinear_arith)
                requires
                    d1 == gi * b1,
                    d2 == gi * b2,
            ;
            let t1 = self.sign.signed(left as int);
            let t2 = rhs.sign.signed(right as int);
            assert(gi * (-(n1 * b2)) == -(gi * (n1 * b2)) && gi * (-(b1 * n2)) == -(gi * (b1
                * n2))) by (nonlinear_arith);
            assert(self.sign.signed(n1) * d2 == gi * t1);
            assert(rhs.sign.signed(n2) * d1 == gi * t2);
            assert(gi * t1 + gi * t2 == gi * (t1 + t2)) by (nonlinear_arith);
            assert(self@.sum_numerator(rhs@) == gi * n);
            assert(magnitude(gi * n) == gi * magnitude(n) && Sign::of_int(gi * n) == Sign::of_int(
                n,
            )) by (nonlinear_arith)
                requires
                    gi > 0,
            ;
            assert((gi * magnitude(n)) / gi == magnitude(n)) by (nonlinear_arith)
                requires
                    gi > 0,
            ;
            lemma_normalized_scales(Sign::of_int(n), g as nat, magnitude(n), d as nat);
        }
        if d > u64::MAX as u128 {
            return None;
        }
        match signed_sum(self.sign, left, rhs.sign, right) {
            None => None,
            Some((sign, m)) => {
                if m > u64::MAX as u128 {
                    None
                } else {
                    Some(Rational::new(sign, m as u64, d as u64))
                }
            },
        }
    }

    /// The difference in lowest terms. It is computed over the least common
    /// denominator; `None` when that denominator, or the numerator over it,
    /// takes more than 64 bits.
    pub fn checked_sub(self, rhs: Rational) -> (r: Option<Rational>)
        ensures
            r is Some <==> self@.difference_fits(rhs@),
            r matches Some(x) ==> x@ == self@.difference(rhs@) && x@.reduced(),
    {
        self.checked_add(rhs.negated())
    }

    /// The product in lowest terms, or `None` when the product of the
    /// numerators or that of the denominators takes more than 64 bits.
    pub fn checked_mul(self, rhs: Rational) -> (r: Option<Rational>)
        ensures
            r is Some <==> self@.product_fits(rhs@),
            r matches Some(x) ==> x@ == self@.product(rhs@) && x@.reduced(),
    {
        proof {
            use_type_invariant(self);
            use_type_invariant(rhs);
        }
        let n = wide_product(self.numerator, rhs.numerator);
        let d = wide_product(self.denominator, rhs.denominator);
        if n > u64::MAX as u128 || d > u64::MAX as u128 {
            return None;
        }
        assert(d > 0) by (nonlinear_arith)
            requires
                d == self.denominator * rhs.denominator,
                self.denominator > 0,
                rhs.denominator > 0,
        ;
        Some(Rational::new(self.sign * rhs.sign, n as u64, d as u64))
    }

    /// The quotient in lowest terms, or `None` when `rhs` is zero or when
    /// one of the cross products takes more than 64 bits.
    pub fn checked_div(self, rhs: Rational) -> (r: Option<Rational>)
        ensures
            r is Some <==> self@.quotient_fits(rhs@),
            r matches Some(x) ==> x@ == self@.quotient(rhs@) && x@.reduced(),
    {
        proof {
            use_type_invariant(self);
            use_type_invariant(rhs);
        }
        if rhs.numerator == 0 {
            return None;
        }
        let n = wide_product(self.numerator, rhs.denominator);
        let d = wide_product(self.denominator, rhs.numerator);
        if n > u64::MAX as u128 || d > u64::MAX as u128 {
            return None;
        }
        assert(d > 0) by (nonlinear_arith)
            requires
                d == self.denominator * rhs.numerator,
                self.denominator > 0,
                rhs.numerator > 0,
        ;
        Some(Rational::new(self.sign * rhs.sign, n as u64, d as u64))
    }

    /// Whether `self` is the smaller number: the two fractions are compared
    /// as the numbers they stand for, whatever their signs. Zero is neither
    /// less nor more than zero under the other sign.
    pub fn is_less(&self, other: &Rational) -> (b: bool)
        ensures
            b == self@.less_in_value(other@),
    {
        proof {
            use_type_invariant(self);
            use_type_invariant(other);
        }
        let left = wide_product(self.numerator, other.denominator);
        let right = wide_product(other.numerator, self.denominator);
        proof {
            let x = self.numerator as int;
            let y = other.numerator as int;
            let u = self.denominator as int;
            let v = other.denominator as int;
            assert((-x) * v == -(x * v) && (-y) * u == -(y * u)) by (nonlinear_arith);
        }
        match (self.sign, other.sign) {
            (Sign::Positive, Sign::Positive) => left < right,
            (Sign::Negative, Sign::Negative) => right < left,
            (Sign::Positive, Sign::Negative) => false,
            (Sign::Negative, Sign::Positive) => left > 0 || right > 0,
        }
    }

    /// The fraction as text. A numerator of five digits or more is not
    /// written out: the text is then `approx`, the rounded decimal that the
    /// caller supplies. Otherwise it is the sign, the numerator and, unless
    /// the denominator is one, a slash and the denominator.
    pub fn render(&self, approx: &str) -> (s: String)
        ensures
            s@ == self@.text(approx@),
    {
        if number_len(self.numerator) >= 5 {
            String::from_str(approx)
        } else {
            let mut s = self.sign.to_string();
            push_decimal(&mut s, self.numerator);
            if self.denominator != 1 {
                proof {
                    reveal_strlit("/");
                }
                s.append("/");
                push_decimal(&mut s, self.denominator);
                assert(s@ =~= self@.text(approx@));
            }
            s
        }
    }

    /// Brings the fraction to lowest terms: divides numerator and
    /// denominator by their greatest common divisor.
    pub fn reduce(&mut self)
        ensures
            final(self)@ == Ratio::normalized(old(self)@.sign, old(self)@.num, old(self)@.den),
            final(self)@.reduced(),
    {
        proof {
            use_type_invariant(&*self);
            lemma_gcd_positive(self.numerator as nat, self.denominator as nat);
            lemma_normalized(self.sign, self.numerator as nat, self.denominator as nat);
        }
        let ghost before = self@;
        let g = gcd(self.numerator, self.denominator);
        if g > 1 {
            self.numerator = self.numerator / g;
            self.denominator = self.denominator / g;
        } else {
            assert(before.num / 1 == before.num && before.den / 1 == before.den);
        }
    }
}

/// A fraction is the fraction of its view.
pub proof fn lemma_of_ratio(r: Rational)
    ensures
        Rational::of_ratio(r@) == r,
{
}

/// The fraction of a view that can be stored has that view.
pub proof fn lemma_of_ratio_view(q: Ratio)
    requires
        q.fits(),
    ensures
        Rational::of_ratio(q)@ == q,
{
}

/// Fractions with one view are equal.
pub proof fn lemma_view_injective(a: Rational, b: Rational)
    ensures
        a@ == b@ <==> a == b,
{
}

impl PartialOrdSpecImpl for Rational {
    open spec fn obeys_partial_cmp_spec() -> bool {
        true
    }

    open spec fn partial_cmp_spec(&self, other: &Rational) -> Option<Ordering> {
        if self@.precedes(other@) {
            Some(Ordering::Less)
        } else if self@.ties(other@) {
            Some(Ordering::Equal)
        } else {
            Some(Ordering::Greater)
        }
    }
}

impl PartialOrd for Rational {
    /// Fractions of one sign are ordered by their magnitudes, compared by
    /// cross-multiplication; of two signs, the positive one is the greater.
    fn partial_cmp(&self, other: &Rational) -> (r: Option<Ordering>) {
        if self.sign == other.sign {
            let a = wide_product(self.numerator, other.denominator);
            let b = wide_product(self.denominator, other.numerator);
            assert(self.denominator * other.numerator == other.numerator * self.denominator)
                by (nonlinear_arith);
            if a < b {
                Some(Ordering::Less)
            } else if a == b {
                Some(Ordering::Equal)
            } else {
                Some(Ordering::Greater)
            }
        } else if self.sign == Sign::Positive {
            Some(Ordering::Greater)
        } else {
            Some(Ordering::Less)
        }
    }
}

impl NegSpecImpl for Rational {
    open spec fn obeys_neg_spec() -> bool {
        true
    }

    open spec fn neg_req(self) -> bool {
        true
    }

    open spec fn neg_spec(self) -> Rational {
        Rational::of_ratio(self@.negated())
    }
}

impl Neg for Rational {
    type Output = Rational;

    /// The same magnitude under the other sign.
    fn neg(self) -> (r: Rational)
        ensures
            r@ == self@.negated(),
    {
        self.negated()
    }
}

impl AddSpecImpl for Rational {
    open spec fn obeys_add_spec() -> bool {
        true
    }

    open spec fn add_req(self, rhs: Rational) -> bool {
        self@.sum_fits(rhs@)
    }

    open spec fn add_spec(self, rhs: Rational) -> Rational {
        Rational::of_ratio(self@.sum(rhs@))
    }
}

impl Add for Rational {
    type Output = Rational;

    /// The sum, in lowest terms.
    fn add(self, rhs: Rational) -> (r: Rational)
        ensures
            r@ == self@.sum(rhs@),
            r@.reduced(),
    {
        self.checked_add(rhs).unwrap()
    }
}

impl SubSpecImpl for Rational {
    open spec fn obeys_sub_spec() -> bool {
        true
    }

    open spec fn sub_req(self, rhs: Rational) -> bool {
        self@.difference_fits(rhs@)
    }

    open spec fn sub_spec(self, rhs: Rational) -> Rational {
        Rational::of_ratio(self@.difference(rhs@))
    }
}

impl Sub for Rational {
    type Output = Rational;

    /// The difference, in lowest terms.
    fn sub(self, rhs: Rational) -> (r: Rational)
        ensures
            r@ == self@.difference(rhs@),
            r@.reduced(),
    {
        self.checked_sub(rhs).unwrap()
    }
}

impl MulSpecImpl for Rational {
    open spec fn obeys_mul_spec() -> bool {
        true
    }

    open spec fn mul_req(self, rhs: Rational) -> bool {
        self@.product_fits(rhs@)
    }

    open spec fn mul_spec(self, rhs: Rational) -> Rational {
        Rational::of_ratio(self@.product(rhs@))
    }
}

impl Mul for Rational {
    type Output = Rational;

    /// The product, in lowest terms.
    fn mul(self, rhs: Rational) -> (r: Rational)
        ensures
            r@ == self@.product(rhs@),
            r@.reduced(),
    {
        self.checked_mul(rhs).unwrap()
    }
}

impl DivSpecImpl for Rational {
    open spec fn obeys_div_spec() -> bool {
        true
    }

    open spec fn div_req(self, rhs: Rational) -> bool {
        self@.quotient_fits(rhs@)
    }

    open spec fn div_spec(self, rhs: Rational) -> Rational {
        Rational::of_ratio(self@.quotient(rhs@))
    }
}

impl Div for Rational {
    type Output = Rational;

    /// The quotient, in lowest terms.
    fn div(self, rhs: Rational) -> (r: Rational)
        ensures
            r@ == self@.quotient(rhs@),
            r@.reduced(),
    {
        self.checked_div(rhs).unwrap()
    }
}

} // verus!
