use computorv1::complex::Complex;
use computorv1::polynomial::Polynomial;
use computorv1::rational::Rational;
use computorv1::root::Roots;
use computorv1::sign::Sign;
use computorv1::solve::InvalidValue;

fn exact(f: f32) -> Rational {
    Rational::from_f32(f.to_bits()).expect("Should not be Nan")
}

fn fraction(sign: Sign, n: u64, d: u64) -> Rational {
    Rational::new(sign, n, d)
}

fn approximate(r: Rational) -> f32 {
    let magnitude = r.numerator() as f32 / r.denominator() as f32;
    if *r.sign() == Sign::Negative {
        -magnitude
    } else {
        magnitude
    }
}

fn sqrt(x: f32) -> f32 {
    if x == 0. {
        return 0.;
    }
    let mut r = 1.;
    for _ in 0..30 {
        r = 0.5 * (r + x / r);
    }
    r
}

fn parse(raw: &str) -> Polynomial {
    let terms = computorv1::scan::scan(raw).expect("a short expression");
    let values = terms
        .iter()
        .map(|t| exact(raw[t.start..t.end].parse::<f32>().expect("a number")))
        .collect();
    Polynomial::from_terms(&terms, &values).expect("a value for each term")
}

fn reduced(equation: &str) -> Polynomial {
    let sides: Vec<&str> = equation.split('=').collect();
    assert_eq!(sides.len(), 2);
    parse(sides[0]) - parse(sides[1])
}

fn solve(p: &Polynomial) -> Result<Roots<Rational, Complex>, InvalidValue> {
    let root = match Polynomial::discriminant(p) {
        Some(d) => exact(sqrt(approximate(d).abs())),
        None => Rational::whole(0),
    };
    p.solve_roots(root)
}

#[test]
fn every_number_solves_zero() {
    let p = reduced("5 = 5");
    assert_eq!(p, Polynomial::new());
    assert_eq!(solve(&p), Ok(Roots::Any));
}

#[test]
fn no_number_solves_a_constant() {
    let p = reduced("5 = 4");
    assert_eq!(p.render(&vec![String::from("1")]), Some(String::from("1")));
    assert_eq!(solve(&p), Ok(Roots::Zero));
}

#[test]
fn degree_one_has_one_root() {
    let p = reduced("4 * X^0 + 4 * X^1 = 0");
    assert_eq!(p.degree(), 1);
    assert_eq!(solve(&p), Ok(Roots::One(fraction(Sign::Negative, 1, 1))));
}

#[test]
fn degree_one_root_is_exact() {
    let p = reduced("1 * X^0 + 3 * X^1 = 0");
    assert_eq!(solve(&p), Ok(Roots::One(fraction(Sign::Negative, 1, 3))));
    let p = reduced("- 1.5 * X^0 + 0.25 * X^1 = 0");
    assert_eq!(solve(&p), Ok(Roots::One(fraction(Sign::Positive, 6, 1))));
}

#[test]
fn zero_discriminant_has_one_root() {
    let p = reduced("4 * X^0 + 4 * X^1 + 1 * X^2 = 0");
    assert_eq!(Polynomial::discriminant(&p), Some(Rational::whole(0)));
    assert_eq!(solve(&p), Ok(Roots::One(fraction(Sign::Negative, 2, 1))));
}

#[test]
fn negative_discriminant_has_a_complex_pair() {
    let p = reduced("1 * X^0 + 0 * X^1 + 1 * X^2 = 0");
    assert_eq!(Polynomial::discriminant(&p), Some(fraction(Sign::Negative, 4, 1)));
    match solve(&p) {
        Ok(Roots::Complex(first, second)) => {
            assert!(first.re().is_zero());
            assert!(second.re().is_zero());
            assert_eq!((first.im().numerator(), first.im().denominator()), (1, 1));
            assert_eq!((second.im().numerator(), second.im().denominator()), (1, 1));
            assert_eq!(*first.im().sign(), Sign::Positive);
            assert_eq!(*second.im().sign(), Sign::Negative);
        }
        other => panic!("{:?}", other),
    }
}

#[test]
fn positive_discriminant_has_two_roots_in_order() {
    let p = reduced("5 * X^0 + 4 * X^1 - 9.3 * X^2 = 1 * X^0");
    assert_eq!(p.exponents(), vec![0, 1, 2]);
    assert_eq!(p.degree(), 2);
    let d = Polynomial::discriminant(&p).expect("a discriminant");
    assert_eq!(d, fraction(Sign::Positive, 10800333, 65536));
    match solve(&p) {
        Ok(Roots::Two(low, high)) => {
            assert!(low.is_less(&high));
            assert!((approximate(low) - -0.475_131).abs() < 1e-5);
            assert!((approximate(high) - 0.905_239).abs() < 1e-5);
        }
        other => panic!("{:?}", other),
    }
}

#[test]
fn two_whole_roots() {
    let p = reduced("6 * X^0 - 5 * X^1 + 1 * X^2 = 0");
    assert_eq!(Polynomial::discriminant(&p), Some(Rational::whole(1)));
    assert_eq!(
        solve(&p),
        Ok(Roots::Two(fraction(Sign::Positive, 2, 1), fraction(Sign::Positive, 3, 1)))
    );
}

#[test]
fn two_negative_roots_ascend() {
    let p = reduced("6 * X^0 + 5 * X^1 + 1 * X^2 = 0");
    assert_eq!(
        solve(&p),
        Ok(Roots::Two(fraction(Sign::Negative, 3, 1), fraction(Sign::Negative, 2, 1)))
    );
    let q = reduced("- 6 * X^0 - 5 * X^1 - 1 * X^2 = 0");
    assert_eq!(
        solve(&q),
        Ok(Roots::Two(fraction(Sign::Negative, 3, 1), fraction(Sign::Negative, 2, 1)))
    );
}

#[test]
fn the_given_root_is_used_as_it_is() {
    let p = reduced("6 * X^0 - 5 * X^1 + 1 * X^2 = 0");
    assert_eq!(
        p.solve_roots(Rational::whole(3)),
        Ok(Roots::Two(fraction(Sign::Positive, 1, 1), fraction(Sign::Positive, 4, 1)))
    );
    let q = reduced("1 * X^0 + 0 * X^1 + 1 * X^2 = 0");
    assert_eq!(
        q.solve_roots(Rational::whole(4)),
        Ok(Roots::Complex(
            Complex::new(fraction(Sign::Negative, 0, 1), fraction(Sign::Positive, 2, 1)),
            Complex::new(fraction(Sign::Negative, 0, 1), fraction(Sign::Negative, 2, 1)),
        ))
    );
}

#[test]
fn the_root_is_ignored_where_it_is_not_needed() {
    for root in [Rational::whole(0), Rational::whole(77)] {
        assert_eq!(reduced("5 = 5").solve_roots(root), Ok(Roots::Any));
        assert_eq!(reduced("5 = 4").solve_roots(root), Ok(Roots::Zero));
        assert_eq!(
            reduced("4 * X^0 + 4 * X^1 = 0").solve_roots(root),
            Ok(Roots::One(fraction(Sign::Negative, 1, 1)))
        );
        assert_eq!(
            reduced("4 * X^0 + 4 * X^1 + 1 * X^2 = 0").solve_roots(root),
            Ok(Roots::One(fraction(Sign::Negative, 2, 1)))
        );
    }
}

#[test]
fn higher_degrees_are_not_solved() {
    let p = reduced("1 * X^0 + 1 * X^1 + 1 * X^2 + 1 * X^3 = 0");
    assert_eq!(p.degree(), 3);
    assert_eq!(solve(&p), Ok(Roots::Unsolvable));
    let mut q = Polynomial::new();
    q.insert(40, Rational::whole(1));
    assert_eq!(solve(&q), Ok(Roots::Unsolvable));
}

#[test]
fn negative_degrees_are_not_solved() {
    let mut p = Polynomial::new();
    p.insert(-1, Rational::whole(1));
    assert_eq!(p.degree(), -1);
    assert_eq!(solve(&p), Ok(Roots::Unsolvable));
}

#[test]
fn discriminant_formula() {
    let p = reduced("3 * X^0 + 5 * X^1 + 2 * X^2 = 0");
    assert_eq!(Polynomial::discriminant(&p), Some(Rational::whole(1)));
    let p = reduced("1 * X^0 + 1 * X^1 + 1 * X^2 = 0");
    assert_eq!(Polynomial::discriminant(&p), Some(fraction(Sign::Negative, 3, 1)));
    let p = reduced("7 * X^0 = 0");
    assert_eq!(Polynomial::discriminant(&p), Some(Rational::whole(0)));
}

#[test]
fn what_cannot_be_stored_is_an_invalid_value() {
    let mut p = Polynomial::new();
    p.insert(0, Rational::whole(1));
    p.insert(1, fraction(Sign::Positive, 1, 1 << 40));
    p.insert(2, Rational::whole(1));
    assert_eq!(Polynomial::discriminant(&p), None);
    assert_eq!(p.solve_roots(Rational::whole(0)), Err(InvalidValue));
    assert_eq!(solve(&p), Err(InvalidValue));
    let mut q = Polynomial::new();
    q.insert(0, Rational::whole(u64::MAX));
    q.insert(1, fraction(Sign::Positive, 1, u64::MAX));
    assert_eq!(q.solve_roots(Rational::whole(0)), Err(InvalidValue));
}
