use computorv1::complex::Complex;
use computorv1::rational::Rational;
use computorv1::root::Roots;
use computorv1::sign::Sign;
use std::cmp::Ordering;

fn fraction(sign: Sign, n: u64, d: u64) -> Rational {
    Rational::new(sign, n, d)
}

fn complex(re: i64, im: i64) -> Complex {
    let part = |v: i64| {
        fraction(if v < 0 { Sign::Negative } else { Sign::Positive }, v.unsigned_abs(), 1)
    };
    Complex::new(part(re), part(im))
}

#[test]
fn new_two_puts_the_smaller_first() {
    let a = fraction(Sign::Positive, 1, 2);
    let b = fraction(Sign::Positive, 1, 3);
    assert_eq!(Roots::new_two(a, b), Roots::Two(b, a));
    assert_eq!(Roots::new_two(b, a), Roots::Two(b, a));
    assert_eq!(Roots::new_two(a, a), Roots::Two(a, a));
}

#[test]
fn new_two_puts_the_negative_first() {
    let a = fraction(Sign::Positive, 1, 100);
    let b = fraction(Sign::Negative, 100, 1);
    assert_eq!(Roots::new_two(a, b), Roots::Two(b, a));
    assert_eq!(Roots::new_two(b, a), Roots::Two(b, a));
}

#[test]
fn new_two_orders_negative_fractions_by_value() {
    let a = fraction(Sign::Negative, 3, 1);
    let b = fraction(Sign::Negative, 2, 1);
    assert_eq!(Roots::new_two(a, b), Roots::Two(a, b));
    assert_eq!(Roots::new_two(b, a), Roots::Two(a, b));
}

#[test]
fn new_two_keeps_the_order_of_equal_numbers() {
    let zero = fraction(Sign::Positive, 0, 1);
    let minus_zero = fraction(Sign::Negative, 0, 1);
    assert_eq!(Roots::new_two(zero, minus_zero), Roots::Two(zero, minus_zero));
    assert_eq!(Roots::new_two(minus_zero, zero), Roots::Two(minus_zero, zero));
}

#[test]
fn new_complex_puts_the_smaller_modulus_first() {
    let a = complex(3, 4);
    let b = complex(-1, 2);
    assert_eq!(Roots::new_complex(a, b), Roots::Complex(b, a));
    assert_eq!(Roots::new_complex(b, a), Roots::Complex(b, a));
}

#[test]
fn new_complex_keeps_the_order_of_a_tie() {
    let a = complex(3, 4);
    let b = complex(3, -4);
    let c = complex(5, 0);
    assert_eq!(Roots::new_complex(a, b), Roots::Complex(a, b));
    assert_eq!(Roots::new_complex(b, a), Roots::Complex(b, a));
    assert_eq!(Roots::new_complex(c, a), Roots::Complex(c, a));
}

#[test]
fn complex_order_is_by_modulus() {
    assert_eq!(complex(3, 4).partial_cmp(&complex(0, 5)), Some(Ordering::Equal));
    assert_eq!(complex(3, 4).partial_cmp(&complex(0, 6)), Some(Ordering::Less));
    assert_eq!(complex(-3, -4).partial_cmp(&complex(1, 1)), Some(Ordering::Greater));
    assert_eq!(complex(0, 0).partial_cmp(&complex(0, 0)), Some(Ordering::Equal));
}

#[test]
fn complex_order_needs_the_squares() {
    let big = Complex::new(Rational::whole(1 << 40), Rational::whole(0));
    assert_eq!(big.modulus_squared(), None);
    assert_eq!(big.partial_cmp(&complex(1, 1)), None);
    assert_eq!(complex(1, 1).partial_cmp(&big), None);
    assert_eq!(
        Roots::new_complex(big, complex(1, 1)),
        Roots::Complex(big, complex(1, 1))
    );
}

#[test]
fn modulus_squared_is_exact() {
    assert_eq!(complex(3, 4).modulus_squared(), Some(Rational::whole(25)));
    let c = Complex::new(fraction(Sign::Negative, 1, 2), fraction(Sign::Positive, 1, 3));
    assert_eq!(c.modulus_squared(), Some(fraction(Sign::Positive, 13, 36)));
}

#[test]
fn complex_parts() {
    let c = Complex::new(fraction(Sign::Negative, 1, 2), fraction(Sign::Positive, 1, 3));
    assert_eq!(*c.re(), fraction(Sign::Negative, 1, 2));
    assert_eq!(*c.im(), fraction(Sign::Positive, 1, 3));
}

#[test]
fn complex_text_shows_the_imaginary_part_itself() {
    assert_eq!(complex(1, 2).render("1", "2"), "1 2i");
    assert_eq!(complex(1, -2).render("1", "-2"), "1 -2i");
    let c = Complex::new(fraction(Sign::Negative, 1, 2), fraction(Sign::Positive, 1, 3));
    assert_eq!(c.render("-0.5", "0.33333"), "-1/2 1/3i");
}

#[test]
fn complex_text_leaves_out_a_zero_part() {
    assert_eq!(complex(0, 2).render("0", "2"), " 2i");
    assert_eq!(complex(7, 0).render("7", "0"), "7");
    assert_eq!(complex(0, 0).render("0", "0"), "");
}

#[test]
fn complex_text_uses_the_decimal_for_a_long_numerator() {
    let c = Complex::new(fraction(Sign::Positive, 12345, 7), fraction(Sign::Negative, 54321, 8));
    assert_eq!(c.render("1763.5714", "-6790.125"), "1763.5714 -6790.125i");
}

#[test]
fn messages() {
    let r: Roots<Rational, Complex> = Roots::Unsolvable;
    assert_eq!(r.render("a", "b"), "Can't solve");
    let r: Roots<Rational, Complex> = Roots::Zero;
    assert_eq!(r.render("a", "b"), "Zero solutions");
    let r: Roots<Rational, Complex> = Roots::Any;
    assert_eq!(r.render("a", "b"), "Any number is a solution");
    let r: Roots<Rational, Complex> = Roots::One(Rational::whole(1));
    assert_eq!(r.render("-1", "b"), "One real root: -1");
    let r: Roots<Rational, Complex> = Roots::Two(Rational::whole(1), Rational::whole(2));
    assert_eq!(r.render("1", "2"), "Two real root: 1 and 2");
    let r: Roots<Rational, Complex> = Roots::Complex(complex(0, 1), complex(0, -1));
    assert_eq!(r.render(" 1i", " -1i"), "Two complex roots:  1i and  -1i");
}
