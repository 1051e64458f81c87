//! Polynomials as canonical lists of monomials, with addition and multiplication.
use vstd::prelude::*;
use vstd::wrapping::i32_specs;

use crate::monomial::{mono_mul, power_at, powers_fit, pw, same_support, OddMonomial, Term};

verus! {

/// Index of the first term at or after `k` whose support equals `p`; `ts.len()` if none.
pub open spec fn first_match_from(ts: Seq<Term>, p: Seq<u32>, k: int) -> int
    decreases ts.len() - k,
{
    if k >= ts.len() {
        ts.len() as int
    } else if same_support(ts[k].powers, p) {
        k
    } else {
        first_match_from(ts, p, k + 1)
    }
}

pub open spec fn first_match(ts: Seq<Term>, p: Seq<u32>) -> int {
    first_match_from(ts, p, 0)
}

/// Merge of one monomial into a term list: a zero monomial changes nothing; a
/// monomial whose support is present adds its coefficient there (wrapping), and
/// the term goes away when the sum is zero; otherwise it is appended.
pub open spec fn add_term(ts: Seq<Term>, m: Term) -> Seq<Term> {
    if m.coef == 0 {
        ts
    } else {
        let i = first_match(ts, m.powers);
        if i >= ts.len() {
            ts.push(m)
        } else {
            let c = i32_specs::wrapping_add(ts[i].coef, m.coef);
            if c == 0 {
                ts.remove(i)
            } else {
                ts.update(i, Term { coef: c, powers: ts[i].powers })
            }
        }
    }
}

/// Merge of each monomial of `ms`, in order, into `ts`.
pub open spec fn add_terms(ts: Seq<Term>, ms: Seq<Term>) -> Seq<Term>
    decreases ms.len(),
{
    if ms.len() == 0 {
        ts
    } else {
        add_term(add_terms(ts, ms.drop_last()), ms.last())
    }
}

/// The products `t * q` for each `q` of `qs`, in order.
pub open spec fn products(t: Term, qs: Seq<Term>) -> Seq<Term> {
    qs.map_values(|q: Term| mono_mul(t, q))
}

/// Merge of all products `p * q`, row by row over `ps`, into the empty list.
pub open spec fn mul_terms(ps: Seq<Term>, qs: Seq<Term>) -> Seq<Term>
    decreases ps.len(),
{
    if ps.len() == 0 {
        Seq::empty()
    } else {
        add_terms(mul_terms(ps.drop_last(), qs), products(ps.last(), qs))
    }
}

/// Canonical form: no zero coefficient and no two terms with the same support.
pub open spec fn well_formed(ts: Seq<Term>) -> bool {
    &&& forall|i: int| 0 <= i < ts.len() ==> #[trigger] ts[i].coef != 0
    &&& forall|i: int, j: int|
        0 <= i < j < ts.len() ==> !same_support(#[trigger] ts[i].powers, #[trigger] ts[j].powers)
}

/// Every product of a term of `ps` with a term of `qs` has exponents that fit.
pub open spec fn products_fit(ps: Seq<Term>, qs: Seq<Term>) -> bool {
    forall|i: int, j: int|
        0 <= i < ps.len() && 0 <= j < qs.len() ==> powers_fit(
            #[trigger] ps[i].powers,
            #[trigger] qs[j].powers,
        )
}

/// `ts` holds a term with the support and coefficient of `t`.
pub open spec fn has_term(ts: Seq<Term>, t: Term) -> bool {
    exists|j: int|
        0 <= j < ts.len() && same_support(#[trigger] ts[j].powers, t.powers) && ts[j].coef == t.coef
}

/// Two canonical term lists hold the same terms, in any order.
pub open spec fn equivalent(a: Seq<Term>, b: Seq<Term>) -> bool {
    &&& a.len() == b.len()
    &&& forall|i: int| 0 <= i < a.len() ==> has_term(b, #[trigger] a[i])
}

pub proof fn lemma_first_match(ts: Seq<Term>, p: Seq<u32>, k: int)
    requires
        0 <= k <= ts.len(),
    ensures
        k <= first_match_from(ts, p, k) <= ts.len(),
        first_match_from(ts, p, k) < ts.len() ==> same_support(
            ts[first_match_from(ts, p, k)].powers,
            p,
        ),
        forall|j: int| k <= j < first_match_from(ts, p, k) ==> !same_support(#[trigger] ts[j].powers, p),
    decreases ts.len() - k,
{
    if k < ts.len() && !same_support(ts[k].powers, p) {
        lemma_first_match(ts, p, k + 1);
    }
}

pub proof fn lemma_add_term_well_formed(ts: Seq<Term>, m: Term)
    requires
        well_formed(ts),
    ensures
        well_formed(add_term(ts, m)),
{
    lemma_first_match(ts, m.powers, 0);
    let r = add_term(ts, m);
    if m.coef != 0 {
        let i = first_match(ts, m.powers);
        if i >= ts.len() {
            assert forall|a: int, b: int| 0 <= a < b < r.len() implies !same_support(
                #[trigger] r[a].powers,
                #[trigger] r[b].powers,
            ) by {
                if b == ts.len() {
                    assert(!same_support(ts[a].powers, m.powers));
                }
            }
        }
    }
}

pub proof fn lemma_add_terms_well_formed(ts: Seq<Term>, ms: Seq<Term>)
    requires
        well_formed(ts),
    ensures
        well_formed(add_terms(ts, ms)),
    decreases ms.len(),
{
    if ms.len() > 0 {
        lemma_add_terms_well_formed(ts, ms.drop_last());
        lemma_add_term_well_formed(add_terms(ts, ms.drop_last()), ms.last());
    }
}

/// Whether two exponent vectors agree after zero padding.
pub fn same_powers(a: &Vec<u32>, b: &Vec<u32>) -> (r: bool)
    ensures
        r == same_support(a@, b@),
{
    let n = if a.len() >= b.len() {
        a.len()
    } else {
        b.len()
    };
    let mut i: usize = 0;
    while i < n
        invariant
            i <= n,
            n >= a.len(),
            n >= b.len(),
            forall|j: int| 0 <= j < i ==> #[trigger] pw(a@, j) == pw(b@, j),
        decreases n - i,
    {
        if power_at(a, i) != power_at(b, i) {
            assert(pw(a@, i as int) != pw(b@, i as int));
            return false;
        }
        i += 1;
    }
    assert forall|j: int| #[trigger] pw(a@, j) == pw(b@, j) by {
        if 0 <= j < n {
        }
    }
    true
}

/// An odd polynomial: a canonical list of nonzero monomials with distinct supports.
#[derive(Clone, Debug)]
pub struct OddPolynomial {
    terms: Vec<OddMonomial>,
}

impl View for OddPolynomial {
    type V = Seq<Term>;

    closed spec fn view(&self) -> Seq<Term> {
        self.terms@.map_values(|m: OddMonomial| m@)
    }
}

impl OddPolynomial {
    /// The zero polynomial.
    pub fn new() -> (r: OddPolynomial)
        ensures
            r@ == Seq::<Term>::empty(),
            well_formed(r@),
    {
        let r = OddPolynomial { terms: Vec::new() };
        assert(r@ =~= Seq::<Term>::empty());
        r
    }

    /// The polynomial with the single term `monomial`, or zero if it is zero.
    pub fn from_monomial(monomial: OddMonomial) -> (r: OddPolynomial)
        ensures
            r@ == (if monomial@.coef == 0 {
                Seq::<Term>::empty()
            } else {
                seq![monomial@]
            }),
            well_formed(r@),
    {
        if monomial.is_zero() {
            OddPolynomial::new()
        } else {
            let ghost m = monomial@;
            let mut terms: Vec<OddMonomial> = Vec::new();
            terms.push(monomial);
            let r = OddPolynomial { terms };
            assert(r@ =~= seq![m]);
            r
        }
    }

    /// Number of terms.
    pub fn len(&self) -> (r: usize)
        ensures
            r == self@.len(),
    {
        self.terms.len()
    }

    /// A copy of the term at position `i`.
    pub fn term(&self, i: usize) -> (r: OddMonomial)
        requires
            i < self@.len(),
        ensures
            r@ == self@[i as int],
    {
        self.terms[i].duplicate()
    }

    /// A copy whose view equals this one's.
    pub fn duplicate(&self) -> (r: OddPolynomial)
        ensures
            r@ == self@,
    {
        let mut terms: Vec<OddMonomial> = Vec::new();
        let mut i: usize = 0;
        while i < self.terms.len()
            invariant
                i <= self.terms.len(),
                terms@.len() == i,
                forall|k: int| 0 <= k < i ==> #[trigger] terms@[k]@ == self.terms@[k]@,
            decreases self.terms.len() - i,
        {
            terms.push(self.terms[i].duplicate());
            i += 1;
        }
        let r = OddPolynomial { terms };
        assert(r@ =~= self@);
        r
    }

    /// Position of the first term whose support equals `p`, or the number of terms.
    pub fn find_support(&self, p: &Vec<u32>) -> (r: usize)
        ensures
            r == first_match(self@, p@),
    {
        let mut i: usize = 0;
        while i < self.terms.len()
            invariant
                i <= self.terms.len(),
                first_match(self@, p@) == first_match_from(self@, p@, i as int),
            decreases self.terms.len() - i,
        {
            if same_powers(&self.terms[i].powers, p) {
                return i;
            }
            i += 1;
        }
        i
    }

    /// Merges `other` into this polynomial, keeping it canonical.
    pub fn add_monomial(&mut self, other: &OddMonomial)
        requires
            well_formed(old(self)@),
        ensures
            final(self)@ == add_term(old(self)@, other@),
            well_formed(final(self)@),
    {
        proof {
            lemma_add_term_well_formed(self@, other@);
        }
        if other.is_zero() {
            return;
        }
        let ghost ts = self@;
        let i = self.find_support(&other.powers);
        if i < self.terms.len() {
            let c = self.terms[i].coefficient.wrapping_add(other.coefficient);
            if c == 0 {
                self.terms.remove(i);
                assert(self@ =~= ts.remove(i as int));
            } else {
                let powers = self.terms[i].powers.clone();
                assert(powers@ =~= ts[i as int].powers);
                self.terms.set(i, OddMonomial { coefficient: c, powers });
                assert(self@ =~= ts.update(i as int, Term { coef: c, powers: ts[i as int].powers }));
            }
        } else {
            self.terms.push(other.duplicate());
            assert(self@ =~= ts.push(other@));
        }
    }

    /// The sum `self + other`.
    pub fn add(&self, other: &OddPolynomial) -> (r: OddPolynomial)
        requires
            well_formed(self@),
        ensures
            r@ == add_terms(self@, other@),
            well_formed(r@),
    {
        let mut poly = self.duplicate();
        let mut i: usize = 0;
        while i < other.terms.len()
            invariant
                i <= other@.len(),
                other@.len() == other.terms.len(),
                poly@ == add_terms(self@, other@.take(i as int)),
                well_formed(poly@),
            decreases other.terms.len() - i,
        {
            poly.add_monomial(&other.terms[i]);
            proof {
                let t = other@.take(i + 1);
                assert(t.drop_last() =~= other@.take(i as int));
            }
            i += 1;
        }
        assert(other@.take(i as int) =~= other@);
        poly
    }

    /// The product `self * other`, merging the products of all pairs of terms.
    pub fn mul(&self, other: &OddPolynomial) -> (r: OddPolynomial)
        requires
            products_fit(self@, other@),
        ensures
            r@ == mul_terms(self@, other@),
            well_formed(r@),
    {
        let mut poly = OddPolynomial::new();
        let mut i: usize = 0;
        while i < self.terms.len()
            invariant
                i <= self@.len(),
                self@.len() == self.terms.len(),
                other@.len() == other.terms.len(),
                products_fit(self@, other@),
                poly@ == mul_terms(self@.take(i as int), other@),
                well_formed(poly@),
            decreases self.terms.len() - i,
        {
            let ghost start = poly@;
            let ghost t = self@[i as int];
            let mut j: usize = 0;
            while j < other.terms.len()
                invariant
                    i < self@.len(),
                    j <= other@.len(),
                    self@.len() == self.terms.len(),
                    other@.len() == other.terms.len(),
                    products_fit(self@, other@),
                    t == self@[i as int],
                    poly@ == add_terms(start, products(t, other@).take(j as int)),
                    well_formed(poly@),
                decreases other.terms.len() - j,
            {
                assert(powers_fit(self@[i as int].powers, other@[j as int].powers));
                let prod = self.terms[i].mul(&other.terms[j]);
                poly.add_monomial(&prod);
                proof {
                    let s = products(t, other@).take(j + 1);
                    assert(s.drop_last() =~= products(t, other@).take(j as int));
                }
                j += 1;
            }
            proof {
                assert(products(t, other@).take(j as int) =~= products(t, other@));
                let s = self@.take(i + 1);
                assert(s.drop_last() =~= self@.take(i as int));
            }
            i += 1;
        }
        assert(self@.take(i as int) =~= self@);
        poly
    }

    /// The product `self * other`, or `None` when some exponent of a pairwise
    /// product would not fit in `u32`.
    pub fn try_mul(&self, other: &OddPolynomial) -> (r: Option<OddPolynomial>)
        ensures
            r is None <==> !products_fit(self@, other@),
            r matches Some(p) ==> p@ == mul_terms(self@, other@) && well_formed(p@),
    {
        let mut i: usize = 0;
        while i < self.terms.len()
            invariant
                i <= self@.len(),
                self@.len() == self.terms.len(),
                other@.len() == other.terms.len(),
                forall|a: int, b: int|
                    0 <= a < i && 0 <= b < other@.len() ==> powers_fit(
                        #[trigger] self@[a].powers,
                        #[trigger] other@[b].powers,
                    ),
            decreases self.terms.len() - i,
        {
            let mut j: usize = 0;
            while j < other.terms.len()
                invariant
                    i < self@.len(),
                    j <= other@.len(),
                    self@.len() == self.terms.len(),
                    other@.len() == other.terms.len(),
                    forall|a: int, b: int|
                        0 <= a < i && 0 <= b < other@.len() ==> powers_fit(
                            #[trigger] self@[a].powers,
                            #[trigger] other@[b].powers,
                        ),
                    forall|b: int|
                        0 <= b < j ==> powers_fit(self@[i as int].powers, #[trigger] other@[b].powers),
                decreases other.terms.len() - j,
            {
                if !self.terms[i].powers_fit_with(&other.terms[j]) {
                    assert(!powers_fit(self@[i as int].powers, other@[j as int].powers));
                    return None;
                }
                j += 1;
            }
            i += 1;
        }
        Some(self.mul(other))
    }

    /// Whether both polynomials hold the same terms, in any order.
    pub fn same_as(&self, other: &OddPolynomial) -> (r: bool)
        requires
            well_formed(other@),
        ensures
            r == equivalent(self@, other@),
    {
        if self.terms.len() != other.terms.len() {
            assert(self@.len() != other@.len());
            return false;
        }
        let mut i: usize = 0;
        while i < self.terms.len()
            invariant
                i <= self@.len(),
                self@.len() == self.terms.len(),
                self@.len() == other@.len(),
                well_formed(other@),
                forall|k: int| 0 <= k < i ==> has_term(other@, #[trigger] self@[k]),
            decreases self.terms.len() - i,
        {
            let j = other.find_support(&self.terms[i].powers);
            proof {
                lemma_first_match(other@, self@[i as int].powers, 0);
            }
            if j >= other.terms.len() || other.terms[j].coefficient != self.terms[i].coefficient {
                proof {
                    assert forall|k: int|
                        0 <= k < other@.len() && same_support(other@[k].powers, self@[i as int].powers)
                        implies other@[k].coef != self@[i as int].coef by {
                        if k != j {
                            assert(j < other@.len());
                            assert(same_support(other@[j as int].powers, self@[i as int].powers));
                            assert(same_support(other@[j as int].powers, other@[k].powers));
                            if j < k {
                                assert(!same_support(other@[j as int].powers, other@[k].powers));
                            } else {
                                assert(!same_support(other@[k].powers, other@[j as int].powers));
                            }
                        }
                    }
                }
                return false;
            }
            proof {
                assert(same_support(other@[j as int].powers, self@[i as int].powers));
                assert(has_term(other@, self@[i as int]));
            }
            i += 1;
        }
        assert(self@.len() == other@.len());
        assert(equivalent(self@, other@));
        true
    }
}

} // verus!
