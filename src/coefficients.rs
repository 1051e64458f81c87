//! Coefficients of term lists, and distributivity of multiplication over addition.
use vstd::arithmetic::div_mod::{lemma_add_mod_noop, lemma_mul_mod_noop_left, lemma_sub_mod_noop};
use vstd::prelude::*;
use vstd::wrapping::i32_specs;

use crate::monomial::{mono_mul, pw, same_support, sum_powers, Term};
use crate::polynomial::{
    add_term, add_terms, first_match, lemma_add_terms_well_formed,
    lemma_first_match, mul_terms, products, well_formed,
};
use crate::sign::{lemma_crop_mod, lemma_mul_coef, lemma_sign_support, sign_of};

verus! {

/// Sum of `w` over the terms of `ts`.
pub open spec fn weighted(ts: Seq<Term>, w: spec_fn(Term) -> int) -> int
    decreases ts.len(),
{
    if ts.len() == 0 {
        0
    } else {
        weighted(ts.drop_last(), w) + w(ts.last())
    }
}

/// The contribution of a term to the coefficient at support `s`.
pub open spec fn at_support(s: Seq<u32>) -> spec_fn(Term) -> int {
    |t: Term| if same_support(t.powers, s) { t.coef as int } else { 0 }
}

/// The coefficient of a term list at support `s`: the sum of the coefficients
/// of its terms with that support.
pub open spec fn coef_at(ts: Seq<Term>, s: Seq<u32>) -> int {
    weighted(ts, at_support(s))
}

/// The contribution of a term `t` to the coefficient at `s` of `t * qs`.
pub open spec fn times_at(qs: Seq<Term>, s: Seq<u32>) -> spec_fn(Term) -> int {
    |t: Term| coef_at(products(t, qs), s)
}

pub open spec fn congruent(x: int, y: int) -> bool {
    x % 0x1_0000_0000 == y % 0x1_0000_0000
}

/// The merge of two terms of one support, with the support of the first.
pub open spec fn merged(t1: Term, t2: Term) -> Term {
    Term { coef: i32_specs::wrapping_add(t1.coef, t2.coef), powers: t1.powers }
}

/// Weights that add up when two terms of one support merge, and vanish on zero terms.
pub open spec fn additive(w: spec_fn(Term) -> int) -> bool {
    &&& forall|t1: Term, t2: Term|
        same_support(t1.powers, t2.powers) ==> congruent(
            #[trigger] w(merged(t1, t2)),
            w(t1) + #[trigger] w(t2),
        )
    &&& forall|t: Term| t.coef == 0 ==> congruent(#[trigger] w(t), 0)
}

pub proof fn lemma_congruent_add(a1: int, a2: int, b1: int, b2: int)
    requires
        congruent(a1, a2),
        congruent(b1, b2),
    ensures
        congruent(a1 + b1, a2 + b2),
{
    lemma_add_mod_noop(a1, b1, 0x1_0000_0000);
    lemma_add_mod_noop(a2, b2, 0x1_0000_0000);
}

proof fn lemma_congruent_sub(a1: int, a2: int, b1: int, b2: int)
    requires
        congruent(a1, a2),
        congruent(b1, b2),
    ensures
        congruent(a1 - b1, a2 - b2),
{
    lemma_sub_mod_noop(a1, b1, 0x1_0000_0000);
    lemma_sub_mod_noop(a2, b2, 0x1_0000_0000);
}

pub proof fn lemma_congruent_mul(a1: int, a2: int, k: int)
    requires
        congruent(a1, a2),
    ensures
        congruent(a1 * k, a2 * k),
{
    lemma_mul_mod_noop_left(a1, k, 0x1_0000_0000);
    lemma_mul_mod_noop_left(a2, k, 0x1_0000_0000);
}

proof fn lemma_weighted_update(ts: Seq<Term>, i: int, t: Term, w: spec_fn(Term) -> int)
    requires
        0 <= i < ts.len(),
    ensures
        weighted(ts.update(i, t), w) == weighted(ts, w) - w(ts[i]) + w(t),
    decreases ts.len(),
{
    if i < ts.len() - 1 {
        assert(ts.update(i, t).drop_last() =~= ts.drop_last().update(i, t));
        lemma_weighted_update(ts.drop_last(), i, t, w);
    } else {
        assert(ts.update(i, t).drop_last() =~= ts.drop_last());
    }
}

proof fn lemma_weighted_remove(ts: Seq<Term>, i: int, w: spec_fn(Term) -> int)
    requires
        0 <= i < ts.len(),
    ensures
        weighted(ts.remove(i), w) == weighted(ts, w) - w(ts[i]),
    decreases ts.len(),
{
    if i < ts.len() - 1 {
        assert(ts.remove(i).drop_last() =~= ts.drop_last().remove(i));
        lemma_weighted_remove(ts.drop_last(), i, w);
    } else {
        assert(ts.remove(i) =~= ts.drop_last());
    }
}

proof fn lemma_weighted_add_term(ts: Seq<Term>, m: Term, w: spec_fn(Term) -> int)
    requires
        additive(w),
    ensures
        congruent(weighted(add_term(ts, m), w), weighted(ts, w) + w(m)),
{
    let base = weighted(ts, w);
    if m.coef == 0 {
        assert(congruent(w(m), 0));
        lemma_congruent_add(base, base, 0, w(m));
    } else {
        lemma_first_match(ts, m.powers, 0);
        let i = first_match(ts, m.powers);
        if i >= ts.len() {
            assert(ts.push(m).drop_last() =~= ts);
        } else {
            let c = i32_specs::wrapping_add(ts[i].coef, m.coef);
            let mt = merged(ts[i], m);
            assert(same_support(ts[i].powers, m.powers));
            assert(congruent(w(mt), w(ts[i]) + w(m)));
            if c == 0 {
                lemma_weighted_remove(ts, i, w);
                assert(congruent(w(mt), 0));
                lemma_congruent_sub(base + w(m), base + w(m), w(mt), w(ts[i]) + w(m));
                lemma_congruent_add(base + w(m) - w(mt), base - w(ts[i]), w(mt), 0);
            } else {
                lemma_weighted_update(ts, i, mt, w);
                lemma_congruent_add(base - w(ts[i]), base - w(ts[i]), w(mt), w(ts[i]) + w(m));
            }
        }
    }
}

pub proof fn lemma_weighted_add_terms(ts: Seq<Term>, ms: Seq<Term>, w: spec_fn(Term) -> int)
    requires
        additive(w),
    ensures
        congruent(weighted(add_terms(ts, ms), w), weighted(ts, w) + weighted(ms, w)),
    decreases ms.len(),
{
    if ms.len() > 0 {
        let init = add_terms(ts, ms.drop_last());
        lemma_weighted_add_terms(ts, ms.drop_last(), w);
        lemma_weighted_add_term(init, ms.last(), w);
        lemma_congruent_add(
            weighted(init, w),
            weighted(ts, w) + weighted(ms.drop_last(), w),
            w(ms.last()),
            w(ms.last()),
        );
    }
}

proof fn lemma_same_support_transitive(a: Seq<u32>, b: Seq<u32>, c: Seq<u32>)
    requires
        same_support(a, b),
    ensures
        same_support(a, c) == same_support(b, c),
{
    if same_support(b, c) {
        assert forall|i: int| #![trigger crate::monomial::pw(a, i)] #![trigger crate::monomial::pw(c, i)]
            crate::monomial::pw(a, i) == crate::monomial::pw(c, i) by {
            assert(crate::monomial::pw(b, i) == crate::monomial::pw(c, i));
        }
    }
    if same_support(a, c) {
        assert forall|i: int| #![trigger crate::monomial::pw(b, i)] #![trigger crate::monomial::pw(c, i)]
            crate::monomial::pw(b, i) == crate::monomial::pw(c, i) by {
            assert(crate::monomial::pw(a, i) == crate::monomial::pw(c, i));
        }
    }
}

pub proof fn lemma_at_support_additive(s: Seq<u32>)
    ensures
        additive(at_support(s)),
{
    let w = at_support(s);
    assert forall|t1: Term, t2: Term| same_support(t1.powers, t2.powers) implies congruent(
        #[trigger] w(merged(t1, t2)),
        w(t1) + #[trigger] w(t2),
    ) by {
        lemma_same_support_transitive(t1.powers, t2.powers, s);
        let sum = t1.coef + t2.coef;
        lemma_crop_mod(sum);
        assert(i32_specs::wrapping_add(t1.coef, t2.coef) == i32_specs::signed_crop(sum));
    }
}

proof fn lemma_sum_support(p1: Seq<u32>, p2: Seq<u32>, q: Seq<u32>)
    requires
        same_support(p1, p2),
    ensures
        same_support(sum_powers(p1, q), sum_powers(p2, q)),
{
    let a = sum_powers(p1, q);
    let b = sum_powers(p2, q);
    assert forall|i: int| #![trigger pw(a, i)] #![trigger pw(b, i)] pw(a, i) == pw(b, i) by {
        assert(pw(p1, i) == pw(p2, i));
    }
}

/// Merging two terms of one support merges their products with any term.
proof fn lemma_product_additive(t1: Term, t2: Term, q: Term, s: Seq<u32>)
    requires
        same_support(t1.powers, t2.powers),
    ensures
        congruent(
            at_support(s)(mono_mul(merged(t1, t2), q)),
            at_support(s)(mono_mul(t1, q)) + at_support(s)(mono_mul(t2, q)),
        ),
{
    let tm = merged(t1, t2);
    let w = at_support(s);
    lemma_sum_support(t1.powers, t2.powers, q.powers);
    lemma_same_support_transitive(sum_powers(t1.powers, q.powers), sum_powers(t2.powers, q.powers), s);
    if same_support(sum_powers(t1.powers, q.powers), s) {
        let e = sign_of(t1.powers, q.powers);
        lemma_sign_support(t1.powers, t2.powers, q.powers);
        lemma_mul_coef(tm, q);
        lemma_mul_coef(t1, q);
        lemma_mul_coef(t2, q);
        let c1 = t1.coef as int;
        let c2 = t2.coef as int;
        let cq = q.coef as int;
        let cm = tm.coef as int;
        lemma_crop_mod(c1 + c2);
        assert(cm == i32_specs::signed_crop(c1 + c2));
        lemma_congruent_mul(cm, c1 + c2, e * cq);
        assert(e * (cm * cq) == cm * (e * cq)) by (nonlinear_arith);
        assert((c1 + c2) * (e * cq) == e * (c1 * cq) + e * (c2 * cq)) by (nonlinear_arith);
        lemma_crop_mod(e * (cm * cq));
        lemma_crop_mod(e * (c1 * cq));
        lemma_crop_mod(e * (c2 * cq));
        lemma_congruent_add(
            i32_specs::signed_crop(e * (c1 * cq)) as int,
            e * (c1 * cq),
            i32_specs::signed_crop(e * (c2 * cq)) as int,
            e * (c2 * cq),
        );
    }
}

proof fn lemma_products_additive(t1: Term, t2: Term, qs: Seq<Term>, s: Seq<u32>)
    requires
        same_support(t1.powers, t2.powers),
    ensures
        congruent(
            coef_at(products(merged(t1, t2), qs), s),
            coef_at(products(t1, qs), s) + coef_at(products(t2, qs), s),
        ),
    decreases qs.len(),
{
    let tm = merged(t1, t2);
    if qs.len() > 0 {
        let init = qs.drop_last();
        lemma_products_additive(t1, t2, init, s);
        assert(products(tm, qs).drop_last() =~= products(tm, init));
        assert(products(t1, qs).drop_last() =~= products(t1, init));
        assert(products(t2, qs).drop_last() =~= products(t2, init));
        lemma_product_additive(t1, t2, qs.last(), s);
        let w = at_support(s);
        lemma_congruent_add(
            coef_at(products(tm, init), s),
            coef_at(products(t1, init), s) + coef_at(products(t2, init), s),
            w(mono_mul(tm, qs.last())),
            w(mono_mul(t1, qs.last())) + w(mono_mul(t2, qs.last())),
        );
    }
}

proof fn lemma_products_of_zero(t: Term, qs: Seq<Term>, s: Seq<u32>)
    requires
        t.coef == 0,
    ensures
        coef_at(products(t, qs), s) == 0,
    decreases qs.len(),
{
    if qs.len() > 0 {
        lemma_products_of_zero(t, qs.drop_last(), s);
        assert(products(t, qs).drop_last() =~= products(t, qs.drop_last()));
        lemma_mul_coef(t, qs.last());
        assert(sign_of(t.powers, qs.last().powers) * (t.coef * qs.last().coef) == 0) by (nonlinear_arith)
            requires
                t.coef == 0,
        ;
    }
}

proof fn lemma_times_at_additive(qs: Seq<Term>, s: Seq<u32>)
    ensures
        additive(times_at(qs, s)),
{
    let w = times_at(qs, s);
    assert forall|t1: Term, t2: Term| same_support(t1.powers, t2.powers) implies congruent(
        #[trigger] w(merged(t1, t2)),
        w(t1) + #[trigger] w(t2),
    ) by {
        lemma_products_additive(t1, t2, qs, s);
    }
    assert forall|t: Term| t.coef == 0 implies congruent(#[trigger] w(t), 0) by {
        lemma_products_of_zero(t, qs, s);
    }
}

pub proof fn lemma_mul_terms_well_formed(ps: Seq<Term>, qs: Seq<Term>)
    ensures
        well_formed(mul_terms(ps, qs)),
    decreases ps.len(),
{
    if ps.len() > 0 {
        lemma_mul_terms_well_formed(ps.drop_last(), qs);
        lemma_add_terms_well_formed(mul_terms(ps.drop_last(), qs), products(ps.last(), qs));
    }
}

/// The coefficients of a product sum the contributions of each left term.
proof fn lemma_mul_terms_weighted(ps: Seq<Term>, qs: Seq<Term>, s: Seq<u32>)
    ensures
        congruent(coef_at(mul_terms(ps, qs), s), weighted(ps, times_at(qs, s))),
    decreases ps.len(),
{
    if ps.len() > 0 {
        let init = mul_terms(ps.drop_last(), qs);
        lemma_mul_terms_weighted(ps.drop_last(), qs, s);
        lemma_at_support_additive(s);
        lemma_weighted_add_terms(init, products(ps.last(), qs), at_support(s));
        lemma_congruent_add(
            coef_at(init, s),
            weighted(ps.drop_last(), times_at(qs, s)),
            coef_at(products(ps.last(), qs), s),
            times_at(qs, s)(ps.last()),
        );
    }
}

proof fn lemma_coef_at_absent(ts: Seq<Term>, s: Seq<u32>)
    requires
        forall|i: int| 0 <= i < ts.len() ==> !same_support(#[trigger] ts[i].powers, s),
    ensures
        coef_at(ts, s) == 0,
    decreases ts.len(),
{
    if ts.len() > 0 {
        lemma_coef_at_absent(ts.drop_last(), s);
        assert(!same_support(ts[ts.len() - 1].powers, s));
    }
}

/// In a canonical list the coefficient at a support is that of at most one term.
pub proof fn lemma_coef_at_range(ts: Seq<Term>, s: Seq<u32>)
    requires
        well_formed(ts),
    ensures
        i32::MIN <= coef_at(ts, s) <= i32::MAX,
    decreases ts.len(),
{
    if ts.len() > 0 {
        let init = ts.drop_last();
        let last = ts.last();
        if same_support(last.powers, s) {
            assert forall|i: int| 0 <= i < init.len() implies !same_support(#[trigger] init[i].powers, s) by {
                assert(!same_support(ts[i].powers, ts[ts.len() - 1].powers));
                if same_support(init[i].powers, s) {
                    lemma_same_support_transitive(last.powers, s, init[i].powers);
                    assert(same_support(s, init[i].powers)) by {
                        assert forall|j: int| #![trigger pw(s, j)] #![trigger pw(init[i].powers, j)]
                            pw(s, j) == pw(init[i].powers, j) by {
                            assert(pw(init[i].powers, j) == pw(s, j));
                        }
                    }
                    assert(same_support(last.powers, init[i].powers));
                    assert(same_support(ts[i].powers, ts[ts.len() - 1].powers)) by {
                        assert forall|j: int| #![trigger pw(ts[i].powers, j)] #![trigger pw(last.powers, j)]
                            pw(ts[i].powers, j) == pw(last.powers, j) by {
                            assert(pw(last.powers, j) == pw(init[i].powers, j));
                        }
                    }
                }
            }
            lemma_coef_at_absent(init, s);
        } else {
            assert(well_formed(init));
            lemma_coef_at_range(init, s);
        }
    }
}

/// Distributivity: `(P1 + P2) * Q` and `P1 * Q + P2 * Q` have the same
/// coefficient at every support.
pub proof fn lemma_distributive(p1: Seq<Term>, p2: Seq<Term>, q: Seq<Term>, s: Seq<u32>)
    ensures
        coef_at(mul_terms(add_terms(p1, p2), q), s) == coef_at(
            add_terms(mul_terms(p1, q), mul_terms(p2, q)),
            s,
        ),
{
    let w = times_at(q, s);
    let left = mul_terms(add_terms(p1, p2), q);
    let right = add_terms(mul_terms(p1, q), mul_terms(p2, q));
    lemma_times_at_additive(q, s);
    lemma_at_support_additive(s);
    lemma_mul_terms_weighted(add_terms(p1, p2), q, s);
    lemma_weighted_add_terms(p1, p2, w);
    lemma_mul_terms_weighted(p1, q, s);
    lemma_mul_terms_weighted(p2, q, s);
    lemma_weighted_add_terms(mul_terms(p1, q), mul_terms(p2, q), at_support(s));
    lemma_congruent_add(
        coef_at(mul_terms(p1, q), s),
        weighted(p1, w),
        coef_at(mul_terms(p2, q), s),
        weighted(p2, w),
    );
    lemma_mul_terms_well_formed(add_terms(p1, p2), q);
    lemma_mul_terms_well_formed(p1, q);
    lemma_add_terms_well_formed(mul_terms(p1, q), mul_terms(p2, q));
    lemma_coef_at_range(left, s);
    lemma_coef_at_range(right, s);
}

} // verus!
