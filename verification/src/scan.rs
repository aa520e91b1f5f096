//! The term scanner: splits an expression into tokens and finds, for each
//! number in it, the exponent and the sign that it stands under.
//!
//! An expression is a run of tokens separated by blanks. A `+` or a `-`
//! sets the sign of every number after it, until the next of them. A `*`
//! raises the exponent of every number after it by one. A token that holds
//! `x^` or `X^` marks the variable and changes nothing. Every other token is
//! a number: a term of the polynomial, at the exponent and under the sign
//! that the tokens before it have set.

use vstd::prelude::*;
use vstd::slice::{slice_index_get, slice_subrange};
use vstd::string::StringSliceAdditionalSpecFns;

verus! {

/// What a token is.
#[derive(Debug, Clone, Copy, PartialEq, Eq, Structural)]
pub enum Token {
    /// `+`: the numbers that follow are taken as they are.
    Plus,
    /// `-`: the numbers that follow are negated.
    Minus,
    /// `*`: the numbers that follow belong to the next power.
    Star,
    /// A token that holds `x^` or `X^`.
    Marker,
    /// Any other token: the text of a coefficient.
    Number,
}

/// A number in an expression: the bytes `start..end` hold its text, and it
/// is the coefficient of `X^exponent`, negated where `negative` is set.
#[derive(Debug, Clone, Copy, PartialEq, Eq, Structural)]
pub struct Term {
    pub exponent: i32,
    pub negative: bool,
    pub start: usize,
    pub end: usize,
}

/// The mathematical model of a `Term`.
pub struct TermValue {
    pub exponent: int,
    pub negative: bool,
    pub start: int,
    pub end: int,
}

impl View for Term {
    type V = TermValue;

    open spec fn view(&self) -> TermValue {
        TermValue {
            exponent: self.exponent as int,
            negative: self.negative,
            start: self.start as int,
            end: self.end as int,
        }
    }
}

/// A blank: space, tab, line feed, form feed or carriage return.
pub open spec fn is_blank(b: u8) -> bool {
    b == 0x20 || b == 0x09 || b == 0x0a || b == 0x0c || b == 0x0d
}

/// The first position from `pos` on that holds no blank, or the length.
pub open spec fn skip_blanks(bytes: Seq<u8>, pos: int) -> int
    decreases bytes.len() - pos,
{
    if 0 <= pos < bytes.len() && is_blank(bytes[pos]) {
        skip_blanks(bytes, pos + 1)
    } else {
        pos
    }
}

/// The first position from `pos` on that holds a blank, or the length.
pub open spec fn token_end(bytes: Seq<u8>, pos: int) -> int
    decreases bytes.len() - pos,
{
    if 0 <= pos < bytes.len() && !is_blank(bytes[pos]) {
        token_end(bytes, pos + 1)
    } else {
        pos
    }
}

/// The tokens of `bytes` from `pos` on, each as the positions where it
/// starts and ends.
pub open spec fn tokens_from(bytes: Seq<u8>, pos: int) -> Seq<(int, int)>
    decreases bytes.len() - pos, 1int,
{
    let start = skip_blanks(bytes, pos);
    if 0 <= pos <= start < bytes.len() {
        let end = token_end(bytes, start);
        if start < end <= bytes.len() {
            seq![(start, end)] + tokens_from(bytes, end)
        } else {
            Seq::empty()
        }
    } else {
        Seq::empty()
    }
}

/// The token holds `x^` or `X^`.
pub open spec fn holds_marker(token: Seq<u8>) -> bool {
    exists|i: int|
        0 <= i < token.len() - 1 && (#[trigger] token[i] == 0x78 || token[i] == 0x58) && token[i
            + 1] == 0x5e
}

/// What the token `token` is.
pub open spec fn kind_of(token: Seq<u8>) -> Token {
    if token == seq![0x2du8] {
        Token::Minus
    } else if token == seq![0x2bu8] {
        Token::Plus
    } else if token == seq![0x2au8] {
        Token::Star
    } else if holds_marker(token) {
        Token::Marker
    } else {
        Token::Number
    }
}

/// The exponent after the tokens `kinds`: the number of `*` among them.
pub open spec fn stars(kinds: Seq<Token>) -> int
    decreases kinds.len(),
{
    if kinds.len() == 0 {
        0
    } else if kinds.last() == Token::Star {
        stars(kinds.drop_last()) + 1
    } else {
        stars(kinds.drop_last())
    }
}

/// The sign after the tokens `kinds`: negative when the last `+` or `-`
/// among them is a `-`.
pub open spec fn negated(kinds: Seq<Token>) -> bool
    decreases kinds.len(),
{
    if kinds.len() == 0 {
        false
    } else if kinds.last() == Token::Minus {
        true
    } else if kinds.last() == Token::Plus {
        false
    } else {
        negated(kinds.drop_last())
    }
}

/// What each of `tokens` is.
pub open spec fn kinds_of(bytes: Seq<u8>, tokens: Seq<(int, int)>) -> Seq<Token> {
    Seq::new(tokens.len(), |k: int| kind_of(bytes.subrange(tokens[k].0, tokens[k].1)))
}

/// The numbers among `tokens`, in order, each with the exponent and the
/// sign that the tokens before it have set.
pub open spec fn terms_among(bytes: Seq<u8>, tokens: Seq<(int, int)>) -> Seq<TermValue>
    decreases tokens.len(),
{
    if tokens.len() == 0 {
        Seq::empty()
    } else {
        let before = tokens.drop_last();
        let last = tokens.last();
        if kind_of(bytes.subrange(last.0, last.1)) == Token::Number {
            terms_among(bytes, before).push(
                TermValue {
                    exponent: stars(kinds_of(bytes, before)),
                    negative: negated(kinds_of(bytes, before)),
                    start: last.0,
                    end: last.1,
                },
            )
        } else {
            terms_among(bytes, before)
        }
    }
}

/// The terms of the expression `bytes`.
pub open spec fn terms_of(bytes: Seq<u8>) -> Seq<TermValue> {
    terms_among(bytes, tokens_from(bytes, 0))
}

/// `range` is a token of `bytes`: a run of bytes that are not blank, which
/// neither its neighbour before nor its neighbour after continues.
pub open spec fn is_token(bytes: Seq<u8>, range: (int, int)) -> bool {
    &&& 0 <= range.0 < range.1 <= bytes.len()
    &&& forall|j: int| range.0 <= j < range.1 ==> !is_blank(#[trigger] bytes[j])
    &&& range.0 == 0 || is_blank(bytes[range.0 - 1])
    &&& range.1 == bytes.len() || is_blank(bytes[range.1])
}

/// From `pos` to where the blanks end there are only blanks.
pub proof fn lemma_skip_blanks(bytes: Seq<u8>, pos: int)
    requires
        0 <= pos <= bytes.len(),
    ensures
        pos <= skip_blanks(bytes, pos) <= bytes.len(),
        forall|j: int| pos <= j < skip_blanks(bytes, pos) ==> is_blank(#[trigger] bytes[j]),
        skip_blanks(bytes, pos) == bytes.len() || !is_blank(bytes[skip_blanks(bytes, pos)]),
    decreases bytes.len() - pos,
{
    if pos < bytes.len() && is_blank(bytes[pos]) {
        lemma_skip_blanks(bytes, pos + 1);
    }
}

/// From `pos` to where the token ends there is no blank.
pub proof fn lemma_token_end(bytes: Seq<u8>, pos: int)
    requires
        0 <= pos <= bytes.len(),
    ensures
        pos <= token_end(bytes, pos) <= bytes.len(),
        forall|j: int| pos <= j < token_end(bytes, pos) ==> !is_blank(#[trigger] bytes[j]),
        token_end(bytes, pos) == bytes.len() || is_blank(bytes[token_end(bytes, pos)]),
    decreases bytes.len() - pos,
{
    if pos < bytes.len() && !is_blank(bytes[pos]) {
        lemma_token_end(bytes, pos + 1);
    }
}

/// What `tokens_from` lists after a token boundary are tokens, each behind
/// the one before it.
pub proof fn lemma_tokens_from(bytes: Seq<u8>, pos: int)
    requires
        0 <= pos <= bytes.len(),
        pos == 0 || pos == bytes.len() || is_blank(bytes[pos - 1]) || is_blank(bytes[pos]),
    ensures
        forall|k: int|
            0 <= k < tokens_from(bytes, pos).len() ==> is_token(
                bytes,
                #[trigger] tokens_from(bytes, pos)[k],
            ) && pos <= tokens_from(bytes, pos)[k].0,
        forall|k: int, l: int|
            0 <= k < l < tokens_from(bytes, pos).len() ==> tokens_from(bytes, pos)[k].1
                < tokens_from(bytes, pos)[l].0,
    decreases bytes.len() - pos,
{
    lemma_skip_blanks(bytes, pos);
    let start = skip_blanks(bytes, pos);
    if start < bytes.len() {
        lemma_token_end(bytes, start);
        let end = token_end(bytes, start);
        assert(end > start);
        lemma_tokens_from(bytes, end);
        let rest = tokens_from(bytes, end);
        let all = tokens_from(bytes, pos);
        assert(all == seq![(start, end)] + rest);
        assert(is_token(bytes, (start, end))) by {
            if start > pos {
                assert(is_blank(bytes[start - 1]));
            }
        }
        assert forall|k: int| 0 <= k < all.len() implies is_token(bytes, #[trigger] all[k]) && pos
            <= all[k].0 by {
            if k > 0 {
                assert(all[k] == rest[k - 1]);
            }
        }
        assert forall|k: int, l: int| 0 <= k < l < all.len() implies all[k].1 < all[l].0 by {
            assert(all[l] == rest[l - 1]);
            assert(is_token(bytes, rest[l - 1]));
            if k > 0 {
                assert(all[k] == rest[k - 1]);
            } else {
                if end < bytes.len() {
                    assert(is_blank(bytes[end]));
                    assert(!is_blank(bytes[rest[l - 1].0]));
                }
            }
        }
    }
}

/// Every term among `tokens` lies where one of the tokens lies.
pub proof fn lemma_terms_among(bytes: Seq<u8>, tokens: Seq<(int, int)>)
    ensures
        forall|k: int|
            0 <= k < terms_among(bytes, tokens).len() ==> tokens.contains(
                (
                    (#[trigger] terms_among(bytes, tokens)[k]).start,
                    terms_among(bytes, tokens)[k].end,
                ),
            ),
    decreases tokens.len(),
{
    if tokens.len() > 0 {
        let before = tokens.drop_last();
        lemma_terms_among(bytes, before);
        let terms = terms_among(bytes, tokens);
        let earlier = terms_among(bytes, before);
        assert forall|k: int| 0 <= k < terms.len() implies tokens.contains(
            ((#[trigger] terms[k]).start, terms[k].end),
        ) by {
            if k < earlier.len() {
                assert(terms[k] == earlier[k]);
                let j = choose|j: int|
                    0 <= j < before.len() && before[j] == (earlier[k].start, earlier[k].end);
                assert(tokens[j] == before[j]);
            } else {
                assert(tokens[tokens.len() - 1] == (terms[k].start, terms[k].end));
            }
        }
    }
}

/// The text of every term of an expression is a token of it: it lies
/// within the expression, holds no blank and is not empty.
pub proof fn lemma_terms_are_tokens(bytes: Seq<u8>)
    ensures
        forall|k: int|
            0 <= k < terms_of(bytes).len() ==> is_token(
                bytes,
                ((#[trigger] terms_of(bytes)[k]).start, terms_of(bytes)[k].end),
            ),
{
    let tokens = tokens_from(bytes, 0);
    lemma_tokens_from(bytes, 0);
    lemma_terms_among(bytes, tokens);
    assert forall|k: int| 0 <= k < terms_of(bytes).len() implies is_token(
        bytes,
        ((#[trigger] terms_of(bytes)[k]).start, terms_of(bytes)[k].end),
    ) by {
        let t = terms_of(bytes)[k];
        let j = choose|j: int| 0 <= j < tokens.len() && tokens[j] == (t.start, t.end);
        assert(is_token(bytes, tokens[j]));
    }
}

/// The state of the scanner between two tokens: the sign and the exponent
/// that the next number gets.
#[derive(Debug, Clone, Copy, PartialEq, Eq, Structural)]
pub struct Scanner {
    pub negative: bool,
    pub exponent: i32,
}

impl Scanner {
    /// The state after the tokens `kinds`.
    pub open spec fn after(kinds: Seq<Token>) -> (bool, int) {
        (negated(kinds), stars(kinds))
    }

    /// The state before the first token: positive, at exponent zero.
    pub fn new() -> (s: Scanner)
        ensures
            (s.negative, s.exponent as int) == Scanner::after(Seq::empty()),
    {
        Scanner { negative: false, exponent: 0 }
    }

    /// The state after one more token. A sign sets the sign, a `*` raises
    /// the exponent by one, and every other token leaves the state as it
    /// is.
    pub fn step(self, token: Token) -> (s: Scanner)
        requires
            token == Token::Star ==> self.exponent < i32::MAX,
        ensures
            s.negative == match token {
                Token::Minus => true,
                Token::Plus => false,
                _ => self.negative,
            },
            s.exponent == self.exponent + if token == Token::Star { 1int } else { 0 },
            forall|kinds: Seq<Token>|
                (self.negative, self.exponent as int) == Scanner::after(kinds) ==> (
                s.negative,
                s.exponent as int,
            ) == #[trigger] Scanner::after(kinds.push(token)),
    {
        let s = match token {
            Token::Minus => Scanner { negative: true, exponent: self.exponent },
            Token::Plus => Scanner { negative: false, exponent: self.exponent },
            Token::Star => Scanner { negative: self.negative, exponent: self.exponent + 1 },
            _ => self,
        };
        assert forall|kinds: Seq<Token>|
            (self.negative, self.exponent as int) == Scanner::after(kinds) implies (
            s.negative,
            s.exponent as int,
        ) == #[trigger] Scanner::after(kinds.push(token)) by {
            assert(kinds.push(token).drop_last() =~= kinds);
        }
        s
    }
}

/// Whether `b` is a blank.
pub fn blank(b: u8) -> (r: bool)
    ensures
        r == is_blank(b),
{
    b == 0x20 || b == 0x09 || b == 0x0a || b == 0x0c || b == 0x0d
}

/// What the token `token` is: `+`, `-` and `*` are themselves, a token that
/// holds `x^` or `X^` is a marker, and every other token is a number.
pub fn classify(token: &[u8]) -> (t: Token)
    ensures
        t == kind_of(token@),
{
    if token.len() == 1 {
        let b = *slice_index_get(token, 0);
        assert(token@ =~= seq![b]);
        assert(!holds_marker(token@));
        assert(token@[0] == b && seq![0x2du8][0] == 0x2d && seq![0x2bu8][0] == 0x2b && seq![
            0x2au8,
        ][0] == 0x2a);
        if b == 0x2d {
            return Token::Minus;
        } else if b == 0x2b {
            return Token::Plus;
        } else if b == 0x2a {
            return Token::Star;
        } else {
            return Token::Number;
        }
    }
    if token.len() < 2 {
        assert(!holds_marker(token@));
        return Token::Number;
    }
    let mut i: usize = 0;
    while i < token.len() - 1
        invariant
            i <= token@.len() - 1,
            forall|j: int|
                0 <= j < i ==> !((#[trigger] token@[j] == 0x78 || token@[j] == 0x58) && token@[j
                    + 1] == 0x5e),
        decreases token@.len() - i,
    {
        let b = *slice_index_get(token, i);
        let next = *slice_index_get(token, i + 1);
        if (b == 0x78 || b == 0x58) && next == 0x5e {
            assert(holds_marker(token@));
            return Token::Marker;
        }
        i = i + 1;
    }
    assert(!holds_marker(token@));
    Token::Number
}

/// The views of `terms`.
pub open spec fn views(terms: Seq<Term>) -> Seq<TermValue> {
    terms.map_values(|t: Term| t@)
}

/// The terms of the expression `input`: one for each token that is a
/// number, in the order of the text. `None` when the expression is longer
/// than an exponent can count, that is longer than `i32::MAX` bytes.
pub fn scan(input: &str) -> (r: Option<Vec<Term>>)
    ensures
        r is Some <==> input.spec_bytes().len() <= i32::MAX,
        r matches Some(terms) ==> views(terms@) == terms_of(input.spec_bytes()) && forall|k: int|
            0 <= k < terms@.len() ==> (#[trigger] terms@[k]).start < terms@[k].end
                <= input.spec_bytes().len(),
{
    proof {
        lemma_terms_are_tokens(input.spec_bytes());
    }
    let bytes = input.as_bytes();
    if bytes.len() > i32::MAX as usize {
        return None;
    }
    let mut terms: Vec<Term> = Vec::new();
    let mut state = Scanner::new();
    let mut pos: usize = 0;
    let ghost mut seen: Seq<(int, int)> = Seq::empty();
    proof {
        assert(kinds_of(bytes@, seen) =~= Seq::<Token>::empty());
        assert(views(terms@) =~= terms_among(bytes@, seen));
    }
    while pos < bytes.len()
        invariant
            pos <= bytes@.len() <= i32::MAX,
            tokens_from(bytes@, 0) == seen + tokens_from(bytes@, pos as int),
            (state.negative, state.exponent as int) == Scanner::after(kinds_of(bytes@, seen)),
            0 <= state.exponent <= pos,
            views(terms@) == terms_among(bytes@, seen),
        decreases bytes@.len() - pos,
    {
        let ghost from = pos;
        while pos < bytes.len() && blank(*slice_index_get(bytes, pos))
            invariant
                from <= pos <= bytes@.len(),
                skip_blanks(bytes@, from as int) == skip_blanks(bytes@, pos as int),
            decreases bytes@.len() - pos,
        {
            pos = pos + 1;
        }
        if pos < bytes.len() {
            let start = pos;
            while pos < bytes.len() && !blank(*slice_index_get(bytes, pos))
                invariant
                    start <= pos <= bytes@.len(),
                    start < bytes@.len(),
                    !is_blank(bytes@[start as int]),
                    token_end(bytes@, start as int) == token_end(bytes@, pos as int),
                decreases bytes@.len() - pos,
            {
                pos = pos + 1;
            }
            let end = pos;
            let kind = classify(slice_subrange(bytes, start, end));
            if kind == Token::Number {
                terms.push(
                    Term { exponent: state.exponent, negative: state.negative, start, end },
                );
            }
            proof {
                let token = (start as int, end as int);
                assert(skip_blanks(bytes@, from as int) == start);
                assert(token_end(bytes@, start as int) == end);
                assert(start < end);
                assert(tokens_from(bytes@, from as int) == seq![token] + tokens_from(
                    bytes@,
                    end as int,
                ));
                assert(seen + (seq![token] + tokens_from(bytes@, end as int)) =~= seen.push(token)
                    + tokens_from(bytes@, end as int));
                assert(seen.push(token).drop_last() =~= seen);
                assert(kinds_of(bytes@, seen.push(token)) =~= kinds_of(bytes@, seen).push(kind));
                assert(views(terms@) =~= terms_among(bytes@, seen.push(token)));
                seen = seen.push(token);
            }
            state = state.step(kind);
        } else {
            proof {
                assert(skip_blanks(bytes@, from as int) == bytes@.len());
                assert(tokens_from(bytes@, from as int) =~= Seq::<(int, int)>::empty());
                assert(tokens_from(bytes@, pos as int) =~= Seq::<(int, int)>::empty());
            }
        }
    }
    proof {
        assert(tokens_from(bytes@, pos as int) =~= Seq::<(int, int)>::empty());
        assert(seen + Seq::<(int, int)>::empty() =~= seen);
        assert forall|k: int| 0 <= k < terms@.len() implies (#[trigger] terms@[k]).start
            < terms@[k].end <= bytes@.len() by {
            assert(views(terms@)[k] == terms@[k]@);
            assert(is_token(bytes@, (terms_of(bytes@)[k].start, terms_of(bytes@)[k].end)));
        }
    }
    Some(terms)
}

} // verus!
