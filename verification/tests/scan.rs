use computorv1::scan::{blank, classify, Scanner, Term, Token};

fn scan(input: &str) -> Vec<Term> {
    computorv1::scan::scan(input).expect("a short expression")
}

fn kind(token: &str) -> Token {
    classify(token.as_bytes())
}

#[test]
fn blanks() {
    for b in [b' ', b'\t', b'\n', b'\r', 0x0c] {
        assert!(blank(b));
    }
    for b in [b'a', b'0', b'+', 0x0b, 0, 0xa0] {
        assert!(!blank(b));
    }
}

#[test]
fn token_kinds() {
    assert_eq!(kind("+"), Token::Plus);
    assert_eq!(kind("-"), Token::Minus);
    assert_eq!(kind("*"), Token::Star);
    assert_eq!(kind("X^2"), Token::Marker);
    assert_eq!(kind("x^2"), Token::Marker);
    assert_eq!(kind("ax^"), Token::Marker);
    assert_eq!(kind("4.5"), Token::Number);
    assert_eq!(kind("-4.5"), Token::Number);
    assert_eq!(kind("++"), Token::Number);
    assert_eq!(kind("x"), Token::Number);
    assert_eq!(kind("^x"), Token::Number);
    assert_eq!(kind("X"), Token::Number);
    assert_eq!(kind("abc"), Token::Number);
}

#[test]
fn classify_reads_the_whole_token() {
    let text = b"12 x^3 +";
    assert_eq!(classify(&text[0..2]), Token::Number);
    assert_eq!(classify(&text[3..6]), Token::Marker);
    assert_eq!(classify(&text[3..4]), Token::Number);
    assert_eq!(classify(&text[7..8]), Token::Plus);
    assert_eq!(classify(&text[0..0]), Token::Number);
    assert_eq!(classify(b"123456789x^"), Token::Marker);
    assert_eq!(classify(b"X^"), Token::Marker);
    assert_eq!(classify(b"x ^"), Token::Number);
}

#[test]
fn scanner_steps() {
    let s = Scanner::new();
    assert_eq!(s, Scanner { negative: false, exponent: 0 });
    let s = s.step(Token::Minus);
    assert_eq!(s, Scanner { negative: true, exponent: 0 });
    let s = s.step(Token::Star);
    assert_eq!(s, Scanner { negative: true, exponent: 1 });
    let s = s.step(Token::Number);
    assert_eq!(s, Scanner { negative: true, exponent: 1 });
    let s = s.step(Token::Marker);
    assert_eq!(s, Scanner { negative: true, exponent: 1 });
    let s = s.step(Token::Plus);
    assert_eq!(s, Scanner { negative: false, exponent: 1 });
    let s = s.step(Token::Star).step(Token::Star);
    assert_eq!(s, Scanner { negative: false, exponent: 3 });
}

#[test]
fn scan_of_nothing() {
    assert_eq!(scan(""), vec![]);
    assert_eq!(scan("   \t\n"), vec![]);
    assert_eq!(scan(" + * X^1 - "), vec![]);
}

#[test]
fn scan_finds_the_numbers() {
    assert_eq!(
        scan("5 * X^0 + 4 * X^1 - 9.3 * X^2"),
        vec![
            Term { exponent: 0, negative: false, start: 0, end: 1 },
            Term { exponent: 1, negative: false, start: 10, end: 11 },
            Term { exponent: 2, negative: true, start: 20, end: 23 },
        ]
    );
}

#[test]
fn scan_splits_on_every_blank() {
    assert_eq!(
        scan("\t7\n-\r8  "),
        vec![
            Term { exponent: 0, negative: false, start: 1, end: 2 },
            Term { exponent: 0, negative: true, start: 5, end: 6 },
        ]
    );
}

#[test]
fn scan_counts_every_star() {
    assert_eq!(
        scan("* * 1 * 2"),
        vec![
            Term { exponent: 2, negative: false, start: 4, end: 5 },
            Term { exponent: 3, negative: false, start: 8, end: 9 },
        ]
    );
}

#[test]
fn scan_takes_any_other_token_as_a_number() {
    assert_eq!(
        scan("abc -5 é"),
        vec![
            Term { exponent: 0, negative: false, start: 0, end: 3 },
            Term { exponent: 0, negative: false, start: 4, end: 6 },
            Term { exponent: 0, negative: false, start: 7, end: 9 },
        ]
    );
}
