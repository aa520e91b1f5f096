use computorv1::polynomial::Polynomial;
use computorv1::rational::Rational;
use computorv1::scan::Term;
use computorv1::sign::Sign;
use std::num::ParseFloatError;

fn exact(f: f32) -> Rational {
    Rational::from_f32(f.to_bits()).expect("Should not be Nan")
}

fn scan(input: &str) -> Vec<Term> {
    computorv1::scan::scan(input).expect("a short expression")
}

fn from_vec(v: &Vec<f32>) -> Polynomial {
    Polynomial::from_vec(&v.iter().map(|c| exact(*c)).collect())
}

fn from_str(raw: &str) -> Result<Polynomial, ParseFloatError> {
    let terms = scan(raw);
    let mut values = Vec::new();
    for t in terms.iter() {
        values.push(exact(raw[t.start..t.end].parse::<f32>()?));
    }
    Ok(Polynomial::from_str(raw, &values).expect("a value for each number"))
}

fn decimal(r: Rational) -> String {
    let magnitude = r.numerator() as f32 / r.denominator() as f32;
    let value = if *r.sign() == Sign::Negative { -magnitude } else { magnitude };
    format!("{}", value)
}

fn shown(p: &Polynomial) -> String {
    let texts = p.exponents().iter().map(|e| decimal(p.get(*e))).collect();
    p.render(&texts).expect("a text for each term")
}

#[test]
fn polynomial_creation() {
    let _p = Polynomial::new();
    let _p = from_str("").expect("should create polynomial zero");
    let _p = from_str("1").expect("should create polynomial 1");
}

#[test]
fn degree() {
    assert_eq!(from_vec(&vec![1.]).degree(), 0);
    assert_eq!(from_vec(&vec![1., 1.]).degree(), 1);
    assert_eq!(from_vec(&vec![1., 1., 1.]).degree(), 2);
    assert_eq!(from_vec(&vec![1., 1., 1., 1.]).degree(), 3);
    assert_eq!(from_vec(&vec![1., 1., 1., 1., 1.]).degree(), 4);
}

#[test]
fn equality() {
    assert_eq!(from_str("1"), from_str("1"));
}

#[test]
fn polynomial_addition() {
    let left = from_vec(&vec![1., 2., 3.]);
    let right = from_vec(&vec![1., 2., 3.]);
    let expected = from_vec(&vec![2., 4., 6.]);

    assert_eq!(left + right, expected);
}

#[test]
fn substraction() {
    let left = from_vec(&vec![1., 2., 3.]);
    let right = from_vec(&vec![1., 2., 3.]);
    let expected = from_vec(&vec![0.]);

    assert_eq!(left - right, expected);
}

#[test]
fn degree_conventions() {
    assert_eq!(Polynomial::new().degree(), 0);
    assert_eq!(from_vec(&vec![7.]).degree(), 0);
    assert_eq!(from_vec(&vec![7., 8., 9.]).degree(), 2);
    assert_eq!(from_vec(&vec![7., 8., 0.]).degree(), 1);
    assert_eq!(from_vec(&vec![0., 0., 0.]).degree(), 0);
}

#[test]
fn degree_is_the_greatest_exponent() {
    let mut p = Polynomial::new();
    p.insert(5, exact(1.));
    p.insert(-3, exact(1.));
    p.insert(2, exact(1.));
    assert_eq!(p.degree(), 5);
    p.insert(5, exact(0.));
    assert_eq!(p.degree(), 2);
}

#[test]
fn insert_and_get() {
    let mut p = Polynomial::new();
    assert_eq!(p.get(3), exact(0.));
    p.insert(3, exact(2.5));
    assert_eq!(p.get(3), exact(2.5));
    assert_eq!(p.get(2), exact(0.));
    p.insert(3, exact(-1.));
    assert_eq!(p.get(3), exact(-1.));
    p.insert(3, exact(0.));
    assert_eq!(p, Polynomial::new());
}

#[test]
fn a_zero_coefficient_is_not_kept() {
    assert_eq!(from_vec(&vec![0.]), Polynomial::new());
    assert_eq!(from_vec(&vec![1., 0.]), from_vec(&vec![1.]));
    let mut p = Polynomial::new();
    p.insert(0, Rational::new(Sign::Negative, 0, 1));
    assert_eq!(p, Polynomial::new());
}

#[test]
fn sum_with_the_opposite_is_zero() {
    let p = from_vec(&vec![1.5, -2., 0., 9.3]);
    let q = from_vec(&vec![-1.5, 2., 0., -9.3]);
    assert_eq!(p.checked_add(&q), Some(Polynomial::new()));
    assert_eq!(p.checked_sub(&p), Some(Polynomial::new()));
    assert_eq!(p.clone() - p, Polynomial::new());
}

#[test]
fn addition_is_term_by_term() {
    let p = from_vec(&vec![1., 2.]);
    let q = from_vec(&vec![0., -2., 5.]);
    assert_eq!(p.checked_add(&q), Some(from_vec(&vec![1., 0., 5.])));
    assert_eq!(q.checked_add(&p), Some(from_vec(&vec![1., 0., 5.])));
    assert_eq!(p.checked_sub(&q), Some(from_vec(&vec![1., 4., -5.])));
    assert_eq!(Polynomial::new().checked_sub(&q), Some(from_vec(&vec![0., 2., -5.])));
}

#[test]
fn addition_reports_what_cannot_be_stored() {
    let mut p = Polynomial::new();
    p.insert(1, Rational::new(Sign::Positive, 1, 1 << 40));
    let mut q = Polynomial::new();
    q.insert(1, Rational::new(Sign::Positive, 1, 847288609443));
    assert_eq!(p.checked_add(&q), None);
    assert_eq!(p.checked_sub(&q), None);
    assert_eq!(q.checked_add(&p), None);
}

#[test]
fn a_polynomial_minus_itself_is_always_zero() {
    let mut p = Polynomial::new();
    p.insert(0, Rational::new(Sign::Positive, u64::MAX, u64::MAX - 1));
    p.insert(1, Rational::new(Sign::Negative, 1, 1 << 63));
    p.insert(7, Rational::new(Sign::Positive, 1, 847288609443));
    assert_eq!(p.checked_sub(&p), Some(Polynomial::new()));
}

#[test]
fn from_str_needs_a_value_for_each_number() {
    assert_eq!(Polynomial::from_str("1 * X^0 + 2 * X^1", &vec![exact(1.)]), None);
    assert_eq!(Polynomial::from_str("", &vec![exact(1.)]), None);
    assert_eq!(Polynomial::from_str("+ * X^1", &vec![]), Some(Polynomial::new()));
    assert_eq!(
        Polynomial::from_str("whatever - this", &vec![exact(1.), exact(2.)]),
        Some(from_vec(&vec![-2.]))
    );
}

#[test]
fn from_terms_negates_under_a_minus() {
    let terms = scan("- 1 * 2 + 3");
    let values = vec![exact(1.), exact(2.), exact(3.)];
    let p = Polynomial::from_terms(&terms, &values);
    assert_eq!(p, Some(from_vec(&vec![-1., 3.])));
    assert_eq!(Polynomial::from_terms(&terms, &vec![exact(1.)]), None);
}

#[test]
fn equality_looks_at_every_term() {
    assert_ne!(from_vec(&vec![1., 2.]), from_vec(&vec![1., 3.]));
    assert_ne!(from_vec(&vec![1., 2.]), from_vec(&vec![1.]));
    assert_ne!(from_vec(&vec![1.]), from_vec(&vec![1., 2.]));
    assert_ne!(from_vec(&vec![0., 2.]), from_vec(&vec![2.]));
    assert_eq!(from_vec(&vec![1., 2.]).clone(), from_vec(&vec![1., 2.]));
}

#[test]
fn exponents_ascend() {
    let mut p = Polynomial::new();
    for e in [7, -2, 3, 0, 12, 1] {
        p.insert(e, exact(1.));
    }
    assert_eq!(p.exponents(), vec![-2, 0, 1, 3, 7, 12]);
    assert_eq!(Polynomial::new().exponents(), Vec::<i32>::new());
}

#[test]
fn exponents_ascend_whatever_the_order_of_insertion() {
    let mut p = Polynomial::new();
    let mut expected = Vec::new();
    for k in 0..200 {
        let e = (k * 37) % 200 - 100;
        p.insert(e, exact(1.));
        expected.push(k - 100);
    }
    assert_eq!(p.exponents(), expected);
}

#[test]
fn parse_assigns_exponents_by_counting_stars() {
    let p = from_str("5 * X^0 + 4 * X^1 - 9.3 * X^2").unwrap();
    assert_eq!(p, from_vec(&vec![5., 4., -9.3]));
    let p = from_str("1 * X^0 + 0 * X^1 + 1 * X^2").unwrap();
    assert_eq!(p, from_vec(&vec![1., 0., 1.]));
}

#[test]
fn parse_keeps_the_sign_until_the_next_one() {
    let p = from_str("- 1 * 2 * 3").unwrap();
    assert_eq!(p, from_vec(&vec![-1., -2., -3.]));
    let p = from_str("- 1 * + 2 * 3").unwrap();
    assert_eq!(p, from_vec(&vec![-1., 2., 3.]));
}

#[test]
fn parse_lets_a_later_number_replace_an_earlier_one() {
    let p = from_str("5 3").unwrap();
    assert_eq!(p, from_vec(&vec![3.]));
}

#[test]
fn parse_fails_on_what_is_no_number() {
    assert!(from_str("5 * X^0 + abc").is_err());
    assert!(from_str("5 ** 3").is_err());
    assert!(from_str("--").is_err());
}

#[test]
fn parse_ignores_the_variable_marker() {
    assert_eq!(from_str("4 * x^1"), from_str("4 * X^1"));
    assert_eq!(from_str("4 * x^1").unwrap(), from_vec(&vec![4.]));
    assert_eq!(from_str("4 * anyx^thing").unwrap(), from_vec(&vec![4.]));
}

#[test]
fn render_zero() {
    assert_eq!(Polynomial::new().render(&vec![]), Some(String::from("0")));
}

#[test]
fn render_terms_in_ascending_order() {
    let p = from_vec(&vec![4., 4., -9.3]);
    assert_eq!(shown(&p), "4 + 4 * X -9.3 * X^2");
    let p = from_vec(&vec![0., 0., 0., 2.5, -1.]);
    assert_eq!(shown(&p), "2.5 * X^3 -1 * X^4");
    let p = from_vec(&vec![-1.]);
    assert_eq!(shown(&p), "-1");
    let p = from_vec(&vec![0., 1.]);
    assert_eq!(shown(&p), "1 * X");
}

#[test]
fn render_negative_exponents() {
    let mut p = Polynomial::new();
    p.insert(-2, exact(3.));
    p.insert(10, exact(-3.));
    assert_eq!(shown(&p), "3 * X^-2 -3 * X^10");
}

#[test]
fn render_uses_the_texts_it_is_given() {
    let p = from_vec(&vec![1., 2., 3.]);
    let texts = vec![String::from("a"), String::from("b"), String::from("c")];
    assert_eq!(p.render(&texts), Some(String::from("a + b * X + c * X^2")));
}

#[test]
fn render_needs_a_text_for_each_term() {
    let p = from_vec(&vec![1., 2., 3.]);
    assert_eq!(p.render(&vec![String::from("a")]), None);
    assert_eq!(p.render(&vec![]), None);
    assert_eq!(Polynomial::new().render(&vec![String::from("a")]), None);
}
