//! Polynomials as text, term by term in ascending order of exponent.

use crate::decimal::{push_signed, signed_digits};
use crate::polynomial::Polynomial;
use crate::ratio::Ratio;
use crate::sign::Sign;
use itertools::Itertools;
use vstd::multiset::group_multiset_axioms;
use vstd::prelude::*;
use vstd::relations::{sorted_by, total_ordering};
use vstd::seq_lib::{group_to_multiset_ensures, lemma_sorted_unique};
use vstd::string::StringExecFns;

verus! {

/// Each item of `order` is less than the next.
pub open spec fn ascending(order: Seq<i32>) -> bool {
    forall|i: int, j: int| 0 <= i < j < order.len() ==> order[i] < order[j]
}

/// `order` holds the exponents of `m`, each once, in ascending order.
pub open spec fn lists(order: Seq<i32>, m: Map<i32, Ratio>) -> bool {
    ascending(order) && order.to_set() == m.dom()
}

/// The exponents of `m` in ascending order.
pub open spec fn listing(m: Map<i32, Ratio>) -> Seq<i32> {
    choose|order: Seq<i32>| lists(order, m)
}

/// One term: the coefficient text `c` alone for the constant, followed by
/// `" * X"` for the first power and by `" * X^"` and the exponent for every
/// other.
pub open spec fn term_text(e: i32, c: Seq<char>) -> Seq<char> {
    if e == 0 {
        c
    } else if e == 1 {
        c + " * X"@
    } else {
        c + " * X^"@ + signed_digits(e as int)
    }
}

/// What stands between a term and the one before it: a space where the
/// coefficient is negative, whose text brings its own minus, and `" + "`
/// otherwise.
pub open spec fn separator(c: Ratio) -> Seq<char> {
    if c.sign == Sign::Negative {
        " "@
    } else {
        " + "@
    }
}

/// The terms of `m` at the exponents `order`, in that order, where
/// `texts[k]` is the text of the coefficient at `order[k]`.
pub open spec fn terms_text(m: Map<i32, Ratio>, order: Seq<i32>, texts: Seq<Seq<char>>) -> Seq<
    char,
>
    decreases order.len(),
{
    if order.len() == 0 {
        Seq::empty()
    } else {
        let k = order.len() - 1;
        let between = if k == 0 {
            Seq::<char>::empty()
        } else {
            separator(m[order[k]])
        };
        terms_text(m, order.drop_last(), texts) + between + term_text(order[k], texts[k])
    }
}

/// The polynomial `m` as text: `"0"` for the zero polynomial, else its
/// terms in ascending order of exponent.
pub open spec fn text_of(m: Map<i32, Ratio>, texts: Seq<Seq<char>>) -> Seq<char> {
    if m.dom().is_empty() {
        "0"@
    } else {
        terms_text(m, listing(m), texts)
    }
}

/// The order of the integers is total.
proof fn lemma_integers_totally_ordered()
    ensures
        total_ordering(|a: i32, b: i32| a <= b),
{
}

/// Two sequences without repetition that hold the same values hold each
/// value equally often.
proof fn lemma_same_values(a: Seq<i32>, b: Seq<i32>)
    requires
        a.no_duplicates(),
        b.no_duplicates(),
        a.to_set() == b.to_set(),
    ensures
        a.to_multiset() == b.to_multiset(),
{
    broadcast use group_multiset_axioms;
    broadcast use group_to_multiset_ensures;

    a.lemma_multiset_has_no_duplicates();
    b.lemma_multiset_has_no_duplicates();
    assert forall|x: i32| a.to_multiset().count(x) == b.to_multiset().count(x) by {
        assert(a.contains(x) <==> a.to_set().contains(x));
        assert(b.contains(x) <==> b.to_set().contains(x));
    }
    assert(a.to_multiset() =~= b.to_multiset());
}

/// The exponents of a polynomial have one ascending order.
pub proof fn lemma_listing_unique(a: Seq<i32>, b: Seq<i32>, m: Map<i32, Ratio>)
    requires
        lists(a, m),
        lists(b, m),
    ensures
        a == b,
{
    lemma_same_values(a, b);
    lemma_integers_totally_ordered();
    let leq = |x: i32, y: i32| x <= y;
    assert(sorted_by(a, leq));
    assert(sorted_by(b, leq));
    lemma_sorted_unique(a, b, leq);
}

/// `Itertools::sorted` on the values of `v`: the same values, each as often
/// as in `v`, in ascending order.
#[verifier::external_body]
fn sorted(v: Vec<i32>) -> (r: Vec<i32>)
    ensures
        r@.to_multiset() == v@.to_multiset(),
        forall|i: int, j: int| 0 <= i < j < r@.len() ==> r@[i] <= r@[j],
{
    v.into_iter().sorted().collect()
}

impl Polynomial {
    /// The exponents of the terms in ascending order.
    pub fn exponents(&self) -> (v: Vec<i32>)
        ensures
            lists(v@, self@),
            v@ == listing(self@),
            v@.len() == self@.dom().len(),
    {
        broadcast use group_multiset_axioms;
        broadcast use group_to_multiset_ensures;

        let keys = self.keys();
        let ghost unsorted = keys@;
        let v = sorted(keys);
        proof {
            unsorted.lemma_multiset_has_no_duplicates();
            v@.lemma_multiset_has_no_duplicates_conv();
            assert forall|x: i32| v@.to_set().contains(x) <==> unsorted.to_set().contains(x) by {
                assert(v@.contains(x) <==> v@.to_multiset().count(x) > 0);
                assert(unsorted.contains(x) <==> unsorted.to_multiset().count(x) > 0);
            }
            assert(v@.to_set() =~= self@.dom());
            assert(lists(v@, self@));
            lemma_listing_unique(v@, listing(self@), self@);
            v@.unique_seq_to_set();
        }
        v
    }

    /// The polynomial as text: `"0"` for the zero polynomial, else its terms
    /// in ascending order of exponent. The first term stands as it is;
    /// every later one follows `" + "`, or a single space where its
    /// coefficient is negative. A term is its coefficient alone for the
    /// constant, with `" * X"` for the first power and with `" * X^"` and
    /// the exponent for every other.
    ///
    /// The coefficients are not written by this function: `texts[k]` is the
    /// text of the coefficient at the `k`-th exponent in ascending order.
    /// `None` when there are more or fewer texts than terms.
    pub fn render(&self, texts: &Vec<String>) -> (r: Option<String>)
        ensures
            r is Some <==> texts@.len() == self@.dom().len(),
            r matches Some(s) ==> s@ == text_of(self@, texts@.map_values(|t: String| t@)),
    {
        let ghost shown = texts@.map_values(|t: String| t@);
        let order = self.exponents();
        if order.len() != texts.len() {
            return None;
        }
        if order.len() == 0 {
            proof {
                assert(self@.dom() =~= Set::<i32>::empty());
            }
            return Some(String::from_str("0"));
        }
        proof {
            assert(order@.to_set().contains(order@[0]));
        }
        let mut s = String::new();
        let mut i: usize = 0;
        while i < order.len()
            invariant
                i <= order.len(),
                order@.len() == texts@.len(),
                shown == texts@.map_values(|t: String| t@),
                order@.to_set() == self@.dom(),
                s@ == terms_text(self@, order@.take(i as int), shown),
            decreases order.len() - i,
        {
            let e = order[i];
            proof {
                assert(order@.to_set().contains(e));
                assert(order@.take(i + 1).drop_last() =~= order@.take(i as int));
                assert(shown[i as int] == texts@[i as int]@);
            }
            if i > 0 {
                let c = self.get(e);
                if *c.sign() == Sign::Negative {
                    s.append(" ");
                } else {
                    s.append(" + ");
                }
            }
            s.append(texts[i].as_str());
            if e == 1 {
                s.append(" * X");
            } else if e != 0 {
                s.append(" * X^");
                push_signed(&mut s, e);
            }
            proof {
                assert(s@ =~= terms_text(self@, order@.take(i + 1), shown));
            }
            i = i + 1;
        }
        proof {
            assert(order@.take(i as int) =~= order@);
        }
        Some(s)
    }
}

} // verus!
