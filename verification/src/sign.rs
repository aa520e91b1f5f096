//! A two-valued sign tag and the rules by which signs combine.

use core::ops::{Add, Mul, Neg};
use vstd::prelude::*;
use vstd::std_specs::ops::{AddSpecImpl, MulSpecImpl, NegSpec};

verus! {

/// The sign of a number whose magnitude is stored unsigned.
#[derive(Debug, Copy, Clone, PartialEq, Eq, Structural, PartialOrd, Hash)]
pub enum Sign {
    Positive,
    Negative,
}

impl Sign {
    /// The sign that two signs combine to: `Positive` when they agree,
    /// `Negative` when they differ.
    pub open spec fn combine(self, other: Sign) -> Sign {
        if self == other {
            Sign::Positive
        } else {
            Sign::Negative
        }
    }

    /// The sign of a mathematical integer; zero counts as positive.
    pub open spec fn of_int(n: int) -> Sign {
        if n >= 0 {
            Sign::Positive
        } else {
            Sign::Negative
        }
    }

    /// The other sign.
    pub open spec fn flipped(self) -> Sign {
        match self {
            Sign::Positive => Sign::Negative,
            Sign::Negative => Sign::Positive,
        }
    }

    /// `v` with this sign applied: `v` itself under `Positive`, `-v` under
    /// `Negative`.
    pub open spec fn signed(self, v: int) -> int {
        match self {
            Sign::Positive => v,
            Sign::Negative => -v,
        }
    }

    /// The text this sign is written as: nothing for `Positive`, a minus for
    /// `Negative`.
    pub open spec fn text(self) -> Seq<char> {
        match self {
            Sign::Positive => Seq::empty(),
            Sign::Negative => seq!['-'],
        }
    }

    /// The sign of `n`; zero counts as positive.
    pub fn from(n: i8) -> (s: Sign)
        ensures
            s == Sign::of_int(n as int),
    {
        if n >= 0 {
            Sign::Positive
        } else {
            Sign::Negative
        }
    }

    /// The opposite sign.
    pub fn flip(self) -> (s: Sign)
        ensures
            s == self.flipped(),
    {
        match self {
            Sign::Positive => Sign::Negative,
            Sign::Negative => Sign::Positive,
        }
    }

    /// The sign as text: empty for `Positive`, `"-"` for `Negative`.
    pub fn to_string(&self) -> (s: String)
        ensures
            s@ == self.text(),
    {
        match self {
            Sign::Positive => String::new(),
            Sign::Negative => {
                proof {
                    reveal_strlit("-");
                }
                let mut s = String::new();
                s.append("-");
                assert(s@ =~= seq!['-']);
                s
            },
        }
    }
}

impl Default for Sign {
    /// `Positive`.
    fn default() -> (s: Sign)
        ensures
            s == Sign::Positive,
    {
        Sign::Positive
    }
}

impl AddSpecImpl for Sign {
    open spec fn obeys_add_spec() -> bool {
        true
    }

    open spec fn add_req(self, rhs: Sign) -> bool {
        true
    }

    open spec fn add_spec(self, rhs: Sign) -> Sign {
        self.combine(rhs)
    }
}

impl Add for Sign {
    type Output = Sign;

    /// The sign that the two combine to: `Positive` when they agree,
    /// `Negative` when they differ.
    fn add(self, rhs: Sign) -> (s: Sign)
        ensures
            s == self.combine(rhs),
    {
        if self == rhs {
            Sign::Positive
        } else {
            Sign::Negative
        }
    }
}

impl MulSpecImpl for Sign {
    open spec fn obeys_mul_spec() -> bool {
        true
    }

    open spec fn mul_req(self, rhs: Sign) -> bool {
        true
    }

    open spec fn mul_spec(self, rhs: Sign) -> Sign {
        self.combine(rhs)
    }
}

impl Mul for Sign {
    type Output = Sign;

    /// The sign of a product: `Positive` when the signs of the factors
    /// agree, `Negative` when they differ.
    fn mul(self, rhs: Sign) -> (s: Sign)
        ensures
            s == self.combine(rhs),
    {
        self + rhs
    }
}

impl<T: Neg<Output = T>> MulSpecImpl<T> for Sign {
    open spec fn obeys_mul_spec() -> bool {
        T::obeys_neg_spec()
    }

    open spec fn mul_req(self, rhs: T) -> bool {
        self == Sign::Negative ==> rhs.neg_req()
    }

    open spec fn mul_spec(self, rhs: T) -> T {
        match self {
            Sign::Positive => rhs,
            Sign::Negative => rhs.neg_spec(),
        }
    }
}

impl<T: Neg<Output = T>> Mul<T> for Sign {
    type Output = T;

    /// `rhs` under this sign: `rhs` itself for `Positive`, `-rhs` for
    /// `Negative`.
    fn mul(self, rhs: T) -> (r: T)
        ensures
            self == Sign::Positive ==> r == rhs,
            self == Sign::Negative && T::obeys_neg_spec() ==> r == rhs.neg_spec(),
    {
        match self {
            Sign::Positive => rhs,
            Sign::Negative => rhs.neg(),
        }
    }
}

} // verus!
