//! Algebraic laws of the polynomial operations, stated over the term-list model.
use vstd::prelude::*;

use crate::monomial::Term;
use crate::operators::{apply_poly, Family};
use crate::polynomial::{add_terms, first_match, mul_terms, products, well_formed};

verus! {

/// Adding the zero polynomial on the right leaves a polynomial unchanged.
pub proof fn lemma_add_zero_right(p: Seq<Term>)
    ensures
        add_terms(p, Seq::empty()) == p,
{
}

/// Adding a canonical polynomial to zero gives that polynomial back, term order included.
pub proof fn lemma_add_zero_left(p: Seq<Term>)
    requires
        well_formed(p),
    ensures
        add_terms(Seq::empty(), p) == p,
{
    lemma_add_prefixes(p, p.len() as int);
    assert(p.take(p.len() as int) =~= p);
}

proof fn lemma_add_prefixes(p: Seq<Term>, k: int)
    requires
        well_formed(p),
        0 <= k <= p.len(),
    ensures
        add_terms(Seq::empty(), p.take(k)) == p.take(k),
    decreases k,
{
    if k > 0 {
        let t = p.take(k);
        assert(t.drop_last() =~= p.take(k - 1));
        lemma_add_prefixes(p, k - 1);
        let init = p.take(k - 1);
        crate::polynomial::lemma_first_match(init, p[k - 1].powers, 0);
        if first_match(init, p[k - 1].powers) < init.len() {
            let j = first_match(init, p[k - 1].powers);
            assert(!crate::monomial::same_support(p[j].powers, p[k - 1].powers));
        }
        assert(init.push(p[k - 1]) =~= t);
    }
}

/// The zero polynomial times any polynomial is zero.
pub proof fn lemma_mul_zero_left(q: Seq<Term>)
    ensures
        mul_terms(Seq::empty(), q) == Seq::<Term>::empty(),
{
}

/// Any polynomial times the zero polynomial is zero.
pub proof fn lemma_mul_zero_right(p: Seq<Term>)
    ensures
        mul_terms(p, Seq::empty()) == Seq::<Term>::empty(),
    decreases p.len(),
{
    if p.len() > 0 {
        lemma_mul_zero_right(p.drop_last());
        assert(products(p.last(), Seq::empty()) =~= Seq::<Term>::empty());
    }
}

/// Each operator family maps the zero polynomial to zero.
pub proof fn lemma_apply_zero(f: Family, n: int)
    ensures
        apply_poly(f, Seq::empty(), n) == Seq::<Term>::empty(),
{
}

} // verus!
