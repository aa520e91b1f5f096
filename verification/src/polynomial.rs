//! Sparse polynomials in one variable with exact rational coefficients.

use crate::ratio::{lemma_sum_with_negated, Ratio};
use crate::rational::{lemma_view_injective, Rational};
use crate::scan::{scan, terms_of, views, Term, TermValue};
use core::ops::{Add, Sub};
use std::collections::HashMap;
use vstd::prelude::*;
use vstd::set_lib::lemma_subset_equality;
use vstd::std_specs::cmp::PartialEqSpecImpl;
use vstd::std_specs::hash::group_hash_axioms;
use vstd::std_specs::iter::IteratorSpec;
use vstd::std_specs::ops::{AddSpecImpl, SubSpecImpl};
use vstd::string::StringSliceAdditionalSpecFns;

verus! {

/// The coefficient of `X^e` in the polynomial `m`: zero where `m` holds
/// none.
pub open spec fn coefficient(m: Map<i32, Ratio>, e: i32) -> Ratio {
    if m.contains_key(e) {
        m[e]
    } else {
        Ratio::zero()
    }
}

/// Every coefficient that `m` holds is a fraction that can be stored and is
/// not zero, and `m` holds finitely many.
pub open spec fn canonical(m: Map<i32, Ratio>) -> bool {
    &&& m.dom().finite()
    &&& forall|e: i32| #[trigger]
        m.contains_key(e) ==> m[e].wf() && m[e].fits() && !m[e].is_zero()
}

/// `m` with the coefficient of `X^e` set to `c`: a zero is not kept.
pub open spec fn with_term(m: Map<i32, Ratio>, e: i32, c: Ratio) -> Map<i32, Ratio> {
    if c.is_zero() {
        m.remove(e)
    } else {
        m.insert(e, c)
    }
}

/// `d` is the degree of `m`: the greatest exponent that `m` holds, and zero
/// where it holds none.
pub open spec fn is_degree(m: Map<i32, Ratio>, d: i32) -> bool {
    if m.dom().is_empty() {
        d == 0
    } else {
        m.contains_key(d) && forall|e: i32| #[trigger] m.contains_key(e) ==> e <= d
    }
}

/// The degree of `m`: the greatest exponent that it holds, and zero where
/// it holds none.
pub open spec fn degree_of(m: Map<i32, Ratio>) -> i32 {
    choose|d: i32| is_degree(m, d)
}

/// A polynomial has one degree.
pub proof fn lemma_degree_unique(m: Map<i32, Ratio>, d: i32)
    requires
        is_degree(m, d),
    ensures
        degree_of(m) == d,
{
    let other = degree_of(m);
    assert(is_degree(m, other));
    if !m.dom().is_empty() {
        assert(m.contains_key(d) && m.contains_key(other));
    }
}

/// The zero polynomial and every constant have degree zero, and a
/// polynomial with terms at the exponents zero, one and two has degree two.
pub proof fn lemma_degree_conventions(c0: Ratio, c1: Ratio, c2: Ratio)
    ensures
        degree_of(Map::<i32, Ratio>::empty()) == 0,
        degree_of(map![0i32 => c0]) == 0,
        degree_of(map![0i32 => c0, 1i32 => c1, 2i32 => c2]) == 2,
{
    let constant = map![0i32 => c0];
    let quadratic = map![0i32 => c0, 1i32 => c1, 2i32 => c2];
    assert(Map::<i32, Ratio>::empty().dom() =~= Set::<i32>::empty());
    assert(constant.contains_key(0));
    assert(quadratic.contains_key(2));
    lemma_degree_unique(Map::<i32, Ratio>::empty(), 0);
    lemma_degree_unique(constant, 0);
    lemma_degree_unique(quadratic, 2);
}

/// `m` with the sign of every coefficient turned.
pub open spec fn opposite(m: Map<i32, Ratio>) -> Map<i32, Ratio> {
    Map::new(|e: i32| m.contains_key(e), |e: i32| m[e].negated())
}

/// The coefficient of `X^e` in the sum of `a` and `b`.
pub open spec fn sum_term(a: Map<i32, Ratio>, b: Map<i32, Ratio>, e: i32) -> Ratio {
    if b.contains_key(e) {
        coefficient(a, e).sum(b[e])
    } else {
        coefficient(a, e)
    }
}

/// Every coefficient of the sum of `a` and `b` can be stored before it is
/// reduced.
pub open spec fn sums_fit(a: Map<i32, Ratio>, b: Map<i32, Ratio>) -> bool {
    forall|e: i32| #[trigger] b.contains_key(e) ==> coefficient(a, e).sum_fits(b[e])
}

/// The sum of `a` and `b`, term by term; a term whose coefficients cancel
/// is not kept.
pub open spec fn sum_of(a: Map<i32, Ratio>, b: Map<i32, Ratio>) -> Map<i32, Ratio> {
    Map::new(
        |e: i32| (a.contains_key(e) || b.contains_key(e)) && !sum_term(a, b, e).is_zero(),
        |e: i32| sum_term(a, b, e),
    )
}

/// Every coefficient of the difference of `a` and `b` can be stored before
/// it is reduced.
pub open spec fn differences_fit(a: Map<i32, Ratio>, b: Map<i32, Ratio>) -> bool {
    sums_fit(a, opposite(b))
}

/// The difference of `a` and `b`, term by term; a term whose coefficients
/// cancel is not kept.
pub open spec fn difference_of(a: Map<i32, Ratio>, b: Map<i32, Ratio>) -> Map<i32, Ratio> {
    sum_of(a, opposite(b))
}

/// The sum of a polynomial and its opposite can always be computed, and it
/// is the zero polynomial.
pub proof fn lemma_sum_with_opposite(p: Map<i32, Ratio>)
    requires
        canonical(p),
    ensures
        sums_fit(p, opposite(p)),
        sum_of(p, opposite(p)) == Map::<i32, Ratio>::empty(),
        sums_fit(opposite(p), p),
        sum_of(opposite(p), p) == Map::<i32, Ratio>::empty(),
{
    assert forall|e: i32| #[trigger] p.contains_key(e) implies coefficient(p, e).sum_fits(
        opposite(p)[e],
    ) && coefficient(p, e).sum(opposite(p)[e]).is_zero() && coefficient(opposite(p), e).sum_fits(
        p[e],
    ) && coefficient(opposite(p), e).sum(p[e]).is_zero() by {
        lemma_sum_with_negated(p[e]);
    }
    assert forall|e: i32| #[trigger] opposite(p).contains_key(e) implies coefficient(p, e).sum_fits(
        opposite(p)[e],
    ) by {
        assert(p.contains_key(e));
    }
    assert(sum_of(p, opposite(p)) =~= Map::<i32, Ratio>::empty());
    assert(sum_of(opposite(p), p) =~= Map::<i32, Ratio>::empty());
}

/// The difference of a polynomial and itself can always be computed, and
/// it is the zero polynomial.
pub proof fn lemma_difference_with_self(p: Map<i32, Ratio>)
    requires
        canonical(p),
    ensures
        differences_fit(p, p),
        difference_of(p, p) == Map::<i32, Ratio>::empty(),
{
    lemma_sum_with_opposite(p);
}

/// The polynomial whose coefficient of `X^i` is `v[i]`.
pub open spec fn of_coefficients(v: Seq<Ratio>) -> Map<i32, Ratio> {
    Map::new(|e: i32| 0 <= e < v.len() && !v[e as int].is_zero(), |e: i32| v[e as int])
}

/// The polynomial that the scanned `terms` make, where `values[k]` is the
/// number that the text of `terms[k]` stands for: each term in turn sets
/// the coefficient at its exponent to its value, negated where the term
/// stands under a minus. A later term replaces an earlier one at the same
/// exponent.
pub open spec fn assembled(terms: Seq<TermValue>, values: Seq<Ratio>) -> Map<i32, Ratio>
    decreases terms.len(),
{
    if terms.len() == 0 {
        Map::empty()
    } else {
        let t = terms.last();
        let v = values[terms.len() - 1];
        with_term(
            assembled(terms.drop_last(), values),
            t.exponent as i32,
            if t.negative {
                v.negated()
            } else {
                v
            },
        )
    }
}

/// A polynomial, as the coefficients of the powers of `X` that occur in it.
/// No coefficient that is kept is zero; the zero polynomial keeps none.
#[derive(Debug)]
pub struct Polynomial {
    terms: HashMap<i32, Rational>,
}

impl View for Polynomial {
    type V = Map<i32, Ratio>;

    closed spec fn view(&self) -> Map<i32, Ratio> {
        Map::new(|e: i32| self.terms@.contains_key(e), |e: i32| self.terms@[e]@)
    }
}

impl Clone for Polynomial {
    /// A polynomial with the same terms.
    fn clone(&self) -> (p: Polynomial)
        ensures
            p@ == self@,
    {
        proof {
            use_type_invariant(self);
        }
        Polynomial { terms: self.terms.clone() }
    }
}

impl Polynomial {
    /// What holds of every `Polynomial`: it keeps no zero coefficient.
    #[verifier::type_invariant]
    pub closed spec fn well_formed(self) -> bool {
        forall|e: i32| #[trigger]
            self.terms@.contains_key(e) ==> self.terms@[e].well_formed() && !self.terms@[e]@.is_zero()
    }

    /// A polynomial for which the type invariant holds is canonical.
    pub proof fn lemma_canonical(self)
        requires
            self.well_formed(),
        ensures
            canonical(self@),
    {
        broadcast use group_hash_axioms;

        assert(self@.dom() =~= self.terms@.dom());
    }

    /// The zero polynomial.
    pub fn new() -> (p: Polynomial)
        ensures
            p@ == Map::<i32, Ratio>::empty(),
            canonical(p@),
    {
        let p = Polynomial { terms: HashMap::new() };
        assert(p@ =~= Map::<i32, Ratio>::empty());
        proof {
            p.lemma_canonical();
        }
        p
    }

    /// Sets the coefficient of `X^key` to `value`; a zero removes the term.
    pub fn insert(&mut self, key: i32, value: Rational)
        ensures
            final(self)@ == with_term(old(self)@, key, value@),
            canonical(final(self)@),
    {
        broadcast use group_hash_axioms;

        proof {
            use_type_invariant(&*self);
            use_type_invariant(value);
        }
        let mut terms: HashMap<i32, Rational> = HashMap::new();
        core::mem::swap(&mut self.terms, &mut terms);
        if value.is_zero() {
            terms.remove(&key);
        } else {
            terms.insert(key, value);
        }
        self.terms = terms;
        proof {
            assert(self@ =~= with_term(old(self)@, key, value@));
            self.lemma_canonical();
        }
    }

    /// The coefficient of `X^key`: zero where the polynomial has no such
    /// term.
    pub fn get(&self, key: i32) -> (c: Rational)
        ensures
            c@ == coefficient(self@, key),
    {
        broadcast use group_hash_axioms;

        match self.terms.get(&key) {
            Some(c) => *c,
            None => Rational::whole(0),
        }
    }

    /// The polynomial whose coefficient of `X^i` is `v[i]`.
    pub fn from_vec(v: &Vec<Rational>) -> (p: Polynomial)
        requires
            v.len() <= i32::MAX,
        ensures
            p@ == of_coefficients(v@.map_values(|c: Rational| c@)),
            canonical(p@),
    {
        let ghost model = v@.map_values(|c: Rational| c@);
        let mut p = Polynomial::new();
        let mut i: usize = 0;
        while i < v.len()
            invariant
                i <= v.len() <= i32::MAX,
                model == v@.map_values(|c: Rational| c@),
                p@ == of_coefficients(model.take(i as int)),
                canonical(p@),
            decreases v.len() - i,
        {
            p.insert(i as i32, v[i]);
            proof {
                assert(model[i as int] == v@[i as int]@);
                assert(p@ =~= of_coefficients(model.take(i + 1)));
            }
            i = i + 1;
        }
        proof {
            assert(model.take(i as int) =~= model);
        }
        p
    }

    /// The polynomial that the scanned `terms` make, where `values[k]` is
    /// the number that the text of `terms[k]` stands for. `None` when there
    /// are more or fewer values than terms.
    pub fn from_terms(terms: &Vec<Term>, values: &Vec<Rational>) -> (r: Option<Polynomial>)
        ensures
            r is Some <==> terms@.len() == values@.len(),
            r matches Some(p) ==> p@ == assembled(
                views(terms@),
                values@.map_values(|c: Rational| c@),
            ) && canonical(p@),
    {
        if terms.len() != values.len() {
            return None;
        }
        let ghost model = values@.map_values(|c: Rational| c@);
        let mut p = Polynomial::new();
        let mut i: usize = 0;
        while i < terms.len()
            invariant
                i <= terms.len() == values.len(),
                model == values@.map_values(|c: Rational| c@),
                p@ == assembled(views(terms@).take(i as int), model),
                canonical(p@),
            decreases terms.len() - i,
        {
            let t = terms[i];
            let v = if t.negative {
                values[i].negated()
            } else {
                values[i]
            };
            proof {
                assert(views(terms@).take(i + 1).drop_last() =~= views(terms@).take(i as int));
                assert(views(terms@).take(i + 1).last() == t@);
                assert(model[i as int] == values@[i as int]@);
            }
            p.insert(t.exponent, v);
            i = i + 1;
        }
        proof {
            assert(views(terms@).take(i as int) =~= views(terms@));
        }
        Some(p)
    }

    /// The polynomial that the expression `raw` stands for, where
    /// `values[k]` is the number that its `k`-th number token stands for,
    /// as the caller has read it. `None` when `values` holds more or fewer
    /// numbers than `raw` has number tokens, and when `raw` is longer than
    /// an exponent can count.
    pub fn from_str(raw: &str, values: &Vec<Rational>) -> (r: Option<Polynomial>)
        ensures
            r is Some <==> raw.spec_bytes().len() <= i32::MAX && terms_of(raw.spec_bytes()).len()
                == values@.len(),
            r matches Some(p) ==> p@ == assembled(
                terms_of(raw.spec_bytes()),
                values@.map_values(|c: Rational| c@),
            ) && canonical(p@),
    {
        let terms = scan(raw)?;
        assert(views(terms@).len() == terms@.len());
        Polynomial::from_terms(&terms, values)
    }

    /// The degree: the greatest exponent of a term, and zero for the zero
    /// polynomial.
    pub fn degree(&self) -> (d: i32)
        ensures
            is_degree(self@, d),
            d == degree_of(self@),
    {
        let keys = self.keys();
        if keys.len() == 0 {
            proof {
                assert(keys@.to_set() =~= Set::<i32>::empty());
                lemma_degree_unique(self@, 0);
            }
            return 0;
        }
        let mut d: i32 = keys[0];
        let mut i: usize = 1;
        while i < keys.len()
            invariant
                1 <= i <= keys.len(),
                keys@.contains(d),
                forall|j: int| 0 <= j < i ==> keys@[j] <= d,
            decreases keys.len() - i,
        {
            if keys[i] > d {
                d = keys[i];
            }
            i = i + 1;
        }
        proof {
            assert(keys@.to_set().contains(d));
            assert forall|e: i32| #[trigger] self@.contains_key(e) implies e <= d by {
                assert(keys@.to_set().contains(e));
                let j = choose|j: int| 0 <= j < keys@.len() && keys@[j] == e;
                assert(keys@[j] <= d);
            }
            lemma_degree_unique(self@, d);
        }
        d
    }

    /// The sum of `self` and `rhs`, or of `self` and the opposite of `rhs`
    /// when `negate` is set; `None` when a coefficient cannot be stored
    /// before it is reduced.
    fn combine(&self, rhs: &Polynomial, negate: bool) -> (r: Option<Polynomial>)
        ensures
            r is Some <==> sums_fit(self@, if negate { opposite(rhs@) } else { rhs@ }),
            r matches Some(p) ==> p@ == sum_of(self@, if negate { opposite(rhs@) } else { rhs@ })
                && canonical(p@),
    {
        broadcast use group_hash_axioms;

        let ghost a = self@;
        let ghost b = if negate {
            opposite(rhs@)
        } else {
            rhs@
        };
        proof {
            use_type_invariant(self);
            use_type_invariant(rhs);
        }
        let keys = rhs.keys();
        let mut terms = self.terms.clone();
        let mut i: usize = 0;
        while i < keys.len()
            invariant
                i <= keys.len(),
                a == self@,
                b == if negate { opposite(rhs@) } else { rhs@ },
                keys@.no_duplicates(),
                keys@.to_set() == rhs@.dom(),
                forall|j: int| 0 <= j < i ==> coefficient(a, #[trigger] keys@[j]).sum_fits(b[keys@[j]]),
                forall|e: i32| #[trigger]
                    terms@.contains_key(e) ==> terms@[e].well_formed() && !terms@[e]@.is_zero(),
                forall|e: i32|
                    keys@.take(i as int).contains(e) ==> (#[trigger] terms@.contains_key(e)
                        <==> !sum_term(a, b, e).is_zero()),
                forall|e: i32|
                    keys@.take(i as int).contains(e) && terms@.contains_key(e) ==> #[trigger] terms@[e]@
                        == sum_term(a, b, e),
                forall|e: i32|
                    !keys@.take(i as int).contains(e) ==> (#[trigger] terms@.contains_key(e)
                        <==> a.contains_key(e)),
                forall|e: i32|
                    !keys@.take(i as int).contains(e) && terms@.contains_key(e) ==> #[trigger] terms@[e]@
                        == a[e],
            decreases keys.len() - i,
        {
            let e = keys[i];
            proof {
                assert(keys@.to_set().contains(e));
                assert(!keys@.take(i as int).contains(e));
                assert(keys@.take(i + 1) =~= keys@.take(i as int).push(e));
            }
            let current = match terms.get(&e) {
                Some(c) => *c,
                None => Rational::whole(0),
            };
            let addend = if negate {
                rhs.get(e).negated()
            } else {
                rhs.get(e)
            };
            assert(current@ == coefficient(a, e));
            assert(addend@ == b[e]);
            match current.checked_add(addend) {
                None => {
                    assert(b.contains_key(e));
                    return None;
                },
                Some(total) => {
                    proof {
                        use_type_invariant(total);
                    }
                    if total.is_zero() {
                        terms.remove(&e);
                    } else {
                        terms.insert(e, total);
                    }
                },
            }
            proof {
                let wider = keys@.take(i + 1);
                let narrow = keys@.take(i as int);
                assert(wider[i as int] == e);
                assert forall|x: i32| !wider.contains(x) implies x != e && !narrow.contains(x) by {
                    if narrow.contains(x) {
                        let j = choose|j: int| 0 <= j < narrow.len() && narrow[j] == x;
                        assert(wider[j] == x);
                    }
                }
                assert forall|x: i32| keys@.take(i + 1).contains(x) implies (
                #[trigger] terms@.contains_key(x) <==> !sum_term(a, b, x).is_zero()) by {
                    if x != e {
                        assert(keys@.take(i as int).contains(x));
                    }
                }
                assert forall|x: i32|
                    keys@.take(i + 1).contains(x) && terms@.contains_key(x) implies #[trigger] terms@[x]@
                    == sum_term(a, b, x) by {
                    if x != e {
                        assert(keys@.take(i as int).contains(x));
                    }
                }
            }
            i = i + 1;
        }
        let p = Polynomial { terms };
        proof {
            assert(keys@.take(i as int) =~= keys@);
            assert forall|e: i32| #[trigger] b.contains_key(e) implies coefficient(a, e).sum_fits(
                b[e],
            ) by {
                assert(keys@.to_set().contains(e));
                let j = choose|j: int| 0 <= j < keys@.len() && keys@[j] == e;
                assert(coefficient(a, keys@[j]).sum_fits(b[keys@[j]]));
            }
            assert forall|e: i32| keys@.contains(e) <==> b.contains_key(e) by {
                assert(keys@.to_set().contains(e) <==> rhs@.dom().contains(e));
            }
            assert(p@ =~= sum_of(a, b));
            p.lemma_canonical();
        }
        Some(p)
    }

    /// The sum of `self` and `rhs`: coefficients of one power are added,
    /// and a term whose coefficients cancel is dropped. `None` when a
    /// coefficient cannot be stored before it is reduced.
    pub fn checked_add(&self, rhs: &Polynomial) -> (r: Option<Polynomial>)
        ensures
            r is Some <==> sums_fit(self@, rhs@),
            r matches Some(p) ==> p@ == sum_of(self@, rhs@) && canonical(p@),
    {
        self.combine(rhs, false)
    }

    /// The difference of `self` and `rhs`: coefficients of one power are
    /// subtracted, and a term whose coefficients cancel is dropped. `None`
    /// when a coefficient cannot be stored before it is reduced.
    pub fn checked_sub(&self, rhs: &Polynomial) -> (r: Option<Polynomial>)
        ensures
            r is Some <==> differences_fit(self@, rhs@),
            r matches Some(p) ==> p@ == difference_of(self@, rhs@) && canonical(p@),
    {
        self.combine(rhs, true)
    }

    /// The exponents of the terms, each once, in no particular order.
    pub(crate) fn keys(&self) -> (v: Vec<i32>)
        ensures
            v@.no_duplicates(),
            v@.to_set() == self@.dom(),
    {
        broadcast use group_hash_axioms;

        let ghost all = self.terms.keys().remaining().unref();
        let mut v: Vec<i32> = Vec::new();
        for k in it: self.terms.keys()
            invariant
                it.seq().unref() == all,
                v@ == all.take(it.index()),
        {
            proof {
                assert(all.take(it.index() + 1) =~= all.take(it.index()).push(*k));
            }
            v.push(*k);
        }
        proof {
            assert(v@ =~= all);
            assert(self@.dom() =~= self.terms@.dom());
            assert forall|i: int, j: int| 0 <= i < all.len() && 0 <= j < all.len() && i != j implies all[i]
                != all[j] by {
                let refs = self.terms.keys().remaining();
                assert(refs[i] != refs[j]);
            }
        }
        v
    }
}

/// `+` asks that every coefficient of the sum can be stored. What it
/// returns is stated on `add` itself, over the views: two polynomials with
/// one view need not be one value, so there is no value to name here.
impl AddSpecImpl for Polynomial {
    open spec fn obeys_add_spec() -> bool {
        false
    }

    open spec fn add_req(self, rhs: Polynomial) -> bool {
        sums_fit(self@, rhs@)
    }

    open spec fn add_spec(self, rhs: Polynomial) -> Polynomial {
        arbitrary()
    }
}

impl Add for Polynomial {
    type Output = Polynomial;

    /// The sum: coefficients of one power are added, and a term whose
    /// coefficients cancel is dropped.
    fn add(self, rhs: Polynomial) -> (r: Polynomial)
        ensures
            r@ == sum_of(self@, rhs@),
            canonical(r@),
    {
        self.checked_add(&rhs).unwrap()
    }
}

/// `-` asks that every coefficient of the difference can be stored. What
/// it returns is stated on `sub` itself, over the views.
impl SubSpecImpl for Polynomial {
    open spec fn obeys_sub_spec() -> bool {
        false
    }

    open spec fn sub_req(self, rhs: Polynomial) -> bool {
        differences_fit(self@, rhs@)
    }

    open spec fn sub_spec(self, rhs: Polynomial) -> Polynomial {
        arbitrary()
    }
}

impl Sub for Polynomial {
    type Output = Polynomial;

    /// The difference: coefficients of one power are subtracted, and a term
    /// whose coefficients cancel is dropped.
    fn sub(self, rhs: Polynomial) -> (r: Polynomial)
        ensures
            r@ == difference_of(self@, rhs@),
            canonical(r@),
    {
        self.checked_sub(&rhs).unwrap()
    }
}

impl PartialEqSpecImpl for Polynomial {
    open spec fn obeys_eq_spec() -> bool {
        true
    }

    open spec fn eq_spec(&self, other: &Polynomial) -> bool {
        self@ == other@
    }
}

impl PartialEq for Polynomial {
    /// Two polynomials are equal when they have the same terms.
    fn eq(&self, other: &Polynomial) -> (r: bool) {
        broadcast use group_hash_axioms;

        proof {
            assert(self@.dom() =~= self.terms@.dom());
            assert(other@.dom() =~= other.terms@.dom());
        }
        if self.terms.len() != other.terms.len() {
            return false;
        }
        let keys = self.keys();
        let mut i: usize = 0;
        while i < keys.len()
            invariant
                i <= keys.len(),
                keys@.to_set() == self@.dom(),
                forall|j: int|
                    0 <= j < i ==> other@.contains_key(#[trigger] keys@[j]) && other@[keys@[j]]
                        == self@[keys@[j]],
            decreases keys.len() - i,
        {
            let e = keys[i];
            proof {
                assert(keys@.to_set().contains(e));
            }
            let mine = self.get(e);
            match other.terms.get(&e) {
                None => {
                    assert(!other@.contains_key(e));
                    return false;
                },
                Some(theirs) => {
                    if *theirs != mine {
                        proof {
                            lemma_view_injective(*theirs, mine);
                        }
                        return false;
                    }
                },
            }
            i = i + 1;
        }
        proof {
            assert forall|e: i32| self@.dom().contains(e) implies other@.dom().contains(e) by {
                assert(keys@.to_set().contains(e));
                let j = choose|j: int| 0 <= j < keys@.len() && keys@[j] == e;
                assert(other@.contains_key(keys@[j]));
            }
            lemma_subset_equality(self@.dom(), other@.dom());
            assert forall|e: i32| self@.dom().contains(e) implies self@[e] == other@[e] by {
                assert(keys@.to_set().contains(e));
                let j = choose|j: int| 0 <= j < keys@.len() && keys@[j] == e;
                assert(other@.contains_key(keys@[j]));
            }
            assert(self@ =~= other@);
        }
        true
    }
}

} // verus!
