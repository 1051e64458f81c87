//! Linearity of the operator families.
use vstd::prelude::*;
use vstd::wrapping::i32_specs;

use crate::coefficients::{
    additive, at_support, coef_at, congruent, lemma_at_support_additive, lemma_coef_at_range,
    lemma_congruent_add, lemma_congruent_mul, lemma_weighted_add_terms, merged, weighted,
};
use crate::monomial::{generator, mono_mul, pw, same_support, sum_powers, Term};
use crate::operators::{
    apply_mono, apply_poly, boundary_coef, degree, first_nonzero_from, lemma_first_nonzero,
    lemma_tail_sum_nonneg, lemma_tail_sum_update, lowered, single, transform, Family,
};
use crate::polynomial::{add_terms, lemma_add_terms_well_formed, mul_terms, products, well_formed};
use crate::sign::{lemma_crop_mod, lemma_mul_coef, lemma_sign_right_support, sign_of};

verus! {

/// The weight `w` of the product of `g` with a term.
pub open spec fn after_left(g: Term, w: spec_fn(Term) -> int) -> spec_fn(Term) -> int {
    |x: Term| w(mono_mul(g, x))
}

/// The weight `w` summed over the image of a term under an operator.
pub open spec fn through(f: Family, n: int, w: spec_fn(Term) -> int) -> spec_fn(Term) -> int {
    |t: Term| weighted(apply_mono(f, t, n), w)
}

proof fn lemma_first_nonzero_support(p1: Seq<u32>, p2: Seq<u32>, k: int)
    requires
        0 <= k,
        same_support(p1, p2),
    ensures
        (first_nonzero_from(p1, k) < p1.len()) == (first_nonzero_from(p2, k) < p2.len()),
        first_nonzero_from(p1, k) < p1.len() ==> first_nonzero_from(p1, k) == first_nonzero_from(p2, k),
    decreases p1.len() + p2.len() - k,
{
    if k < p1.len() || k < p2.len() {
        lemma_first_nonzero_support(p1, p2, k + 1);
        assert(pw(p1, k) == pw(p2, k));
        if k >= p1.len() {
            assert(first_nonzero_from(p1, k + 1) == p1.len());
        }
        if k >= p2.len() {
            assert(first_nonzero_from(p2, k + 1) == p2.len());
        }
    }
}

proof fn lemma_sum_support_right(p: Seq<u32>, q1: Seq<u32>, q2: Seq<u32>)
    requires
        same_support(q1, q2),
    ensures
        same_support(sum_powers(p, q1), sum_powers(p, q2)),
{
    let a = sum_powers(p, q1);
    let b = sum_powers(p, q2);
    assert forall|i: int| #![trigger pw(a, i)] #![trigger pw(b, i)] pw(a, i) == pw(b, i) by {
        assert(pw(q1, i) == pw(q2, i));
    }
}

/// Crop of a product does not depend on which representative of the factor is used.
proof fn lemma_crop_scaled(u: int, v: int, k: int)
    requires
        congruent(u, v),
    ensures
        i32_specs::signed_crop(u * k) == i32_specs::signed_crop(v * k),
{
    lemma_congruent_mul(u, v, k);
}

/// The product with a merge is the merge of the products.
#[verifier::rlimit(40)]
proof fn lemma_product_of_merged(g: Term, x1: Term, x2: Term)
    requires
        same_support(x1.powers, x2.powers),
    ensures
        mono_mul(g, merged(x1, x2)) == merged(mono_mul(g, x1), mono_mul(g, x2)),
        same_support(mono_mul(g, x1).powers, mono_mul(g, x2).powers),
{
    let m1 = mono_mul(g, x1);
    let m2 = mono_mul(g, x2);
    lemma_sum_support_right(g.powers, x1.powers, x2.powers);
    lemma_sign_right_support(g.powers, x1.powers, x2.powers);
    let e = sign_of(g.powers, x1.powers);
    lemma_mul_coef(g, x1);
    lemma_mul_coef(g, x2);
    lemma_mul_coef(g, merged(x1, x2));
    let c1 = x1.coef as int;
    let c2 = x2.coef as int;
    let cg = g.coef as int;
    let cm = merged(x1, x2).coef as int;
    lemma_crop_mod(c1 + c2);
    assert(cm == i32_specs::signed_crop(c1 + c2));
    assert(e * (cg * cm) == cm * (e * cg)) by (nonlinear_arith);
    lemma_crop_scaled(cm, c1 + c2, e * cg);
    assert((c1 + c2) * (e * cg) == e * (cg * c1) + e * (cg * c2)) by (nonlinear_arith);
    lemma_crop_mod(e * (cg * c1));
    lemma_crop_mod(e * (cg * c2));
    lemma_congruent_add(m1.coef as int, e * (cg * c1), m2.coef as int, e * (cg * c2));
    lemma_crop_mod(m1.coef + m2.coef);
    assert(i32_specs::wrapping_add(m1.coef, m2.coef) == i32_specs::signed_crop(m1.coef + m2.coef));
}

proof fn lemma_product_of_zero(g: Term, x: Term)
    requires
        x.coef == 0,
    ensures
        mono_mul(g, x).coef == 0,
{
    lemma_mul_coef(g, x);
    assert(sign_of(g.powers, x.powers) * (g.coef * x.coef) == 0) by (nonlinear_arith)
        requires
            x.coef == 0,
    ;
}

/// Multiplying on the left by a fixed term keeps a weight additive.
proof fn lemma_after_left_additive(g: Term, w: spec_fn(Term) -> int)
    requires
        additive(w),
    ensures
        additive(after_left(g, w)),
{
    let v = after_left(g, w);
    assert forall|x1: Term, x2: Term| same_support(x1.powers, x2.powers) implies congruent(
        #[trigger] v(merged(x1, x2)),
        v(x1) + #[trigger] v(x2),
    ) by {
        lemma_product_of_merged(g, x1, x2);
    }
    assert forall|x: Term| x.coef == 0 implies congruent(#[trigger] v(x), 0) by {
        lemma_product_of_zero(g, x);
    }
}

proof fn lemma_weighted_products(g: Term, xs: Seq<Term>, w: spec_fn(Term) -> int)
    ensures
        weighted(products(g, xs), w) == weighted(xs, after_left(g, w)),
    decreases xs.len(),
{
    if xs.len() > 0 {
        assert(products(g, xs).drop_last() =~= products(g, xs.drop_last()));
        lemma_weighted_products(g, xs.drop_last(), w);
    }
}

/// The weight of an operator image splits into its boundary term and the
/// weight of the lowered monomial's image after the transformed generator.
proof fn lemma_apply_split(f: Family, t: Term, n: int, w: spec_fn(Term) -> int)
    requires
        additive(w),
        first_nonzero_from(t.powers, 0) < t.powers.len(),
    ensures
        ({
            let pos = first_nonzero_from(t.powers, 0);
            let g = lowered(t, pos);
            let b = Term { coef: i32_specs::wrapping_mul(g.coef, boundary_coef(f, pos, n)), powers: g.powers };
            let gen = transform(f, generator(pos + 1), n);
            congruent(
                weighted(apply_mono(f, t, n), w),
                w(b) + weighted(apply_mono(f, g, n), after_left(gen, w)),
            )
        }),
{
    let pos = first_nonzero_from(t.powers, 0);
    let g = lowered(t, pos);
    let b = Term { coef: i32_specs::wrapping_mul(g.coef, boundary_coef(f, pos, n)), powers: g.powers };
    let gen = transform(f, generator(pos + 1), n);
    let x = apply_mono(f, g, n);
    assert(gen.coef != 0);
    let sg = single(gen);
    assert(sg.drop_last() =~= Seq::<Term>::empty());
    assert(sg.last() == gen);
    assert(mul_terms(sg.drop_last(), x) == Seq::<Term>::empty());
    assert(mul_terms(sg, x) == add_terms(Seq::<Term>::empty(), products(gen, x)));
    lemma_weighted_add_terms(Seq::<Term>::empty(), products(gen, x), w);
    lemma_weighted_products(gen, x, w);
    lemma_weighted_add_terms(single(b), mul_terms(sg, x), w);
    if b.coef == 0 {
        assert(congruent(w(b), 0));
        assert(weighted(single(b), w) == 0);
    } else {
        assert(single(b).drop_last() =~= Seq::<Term>::empty());
    }
    lemma_congruent_add(
        weighted(single(b), w),
        w(b),
        weighted(mul_terms(sg, x), w),
        weighted(x, after_left(gen, w)),
    );
}

/// An operator image of a zero monomial weighs nothing.
proof fn lemma_apply_zero_weight(f: Family, t: Term, n: int, w: spec_fn(Term) -> int)
    requires
        additive(w),
        t.coef == 0,
    ensures
        congruent(weighted(apply_mono(f, t, n), w), 0),
    decreases degree(t.powers),
{
    lemma_first_nonzero(t.powers, 0);
    let pos = first_nonzero_from(t.powers, 0);
    if pos < t.powers.len() {
        let g = lowered(t, pos);
        let gen = transform(f, generator(pos + 1), n);
        lemma_tail_sum_update(t.powers, 0, pos, (t.powers[pos] - 1) as u32);
        lemma_tail_sum_nonneg(g.powers, 0);
        lemma_after_left_additive(gen, w);
        lemma_apply_zero_weight(f, g, n, after_left(gen, w));
        lemma_apply_split(f, t, n, w);
        let b = Term { coef: i32_specs::wrapping_mul(g.coef, boundary_coef(f, pos, n)), powers: g.powers };
        assert(b.coef == 0);
        assert(congruent(w(b), 0));
        lemma_congruent_add(w(b), 0, weighted(apply_mono(f, g, n), after_left(gen, w)), 0);
    }
}

/// The boundary term of a merge is the merge of the boundary terms.
proof fn lemma_boundary_of_merged(g1: Term, g2: Term, bc: i32)
    ensures
        (Term { coef: i32_specs::wrapping_mul(merged(g1, g2).coef, bc), powers: g1.powers }) == merged(
            Term { coef: i32_specs::wrapping_mul(g1.coef, bc), powers: g1.powers },
            Term { coef: i32_specs::wrapping_mul(g2.coef, bc), powers: g2.powers },
        ),
{
    let c1 = g1.coef as int;
    let c2 = g2.coef as int;
    let k = bc as int;
    let b1 = i32_specs::wrapping_mul(g1.coef, bc);
    let b2 = i32_specs::wrapping_mul(g2.coef, bc);
    let cm = merged(g1, g2).coef;
    lemma_crop_mod(c1 + c2);
    assert(cm == i32_specs::signed_crop(c1 + c2));
    lemma_crop_scaled(cm as int, c1 + c2, k);
    assert((c1 + c2) * k == c1 * k + c2 * k) by (nonlinear_arith);
    lemma_crop_mod(c1 * k);
    lemma_crop_mod(c2 * k);
    lemma_congruent_add(b1 as int, c1 * k, b2 as int, c2 * k);
    lemma_crop_mod(b1 + b2);
    assert(i32_specs::wrapping_add(b1, b2) == i32_specs::signed_crop(b1 + b2));
}

/// Lowering one position keeps two vectors of one support alike.
proof fn lemma_lowered_support(t1: Term, t2: Term, pos: int)
    requires
        same_support(t1.powers, t2.powers),
        0 <= pos < t1.powers.len(),
        pos < t2.powers.len(),
    ensures
        same_support(lowered(t1, pos).powers, lowered(t2, pos).powers),
{
    let g1 = lowered(t1, pos);
    let g2 = lowered(t2, pos);
    assert(pw(t1.powers, pos) == pw(t2.powers, pos));
    assert forall|i: int| #![trigger pw(g1.powers, i)] #![trigger pw(g2.powers, i)]
        pw(g1.powers, i) == pw(g2.powers, i) by {
        assert(pw(t1.powers, i) == pw(t2.powers, i));
    }
}

/// An operator applied to the merge of two terms of one support weighs what
/// the two images weigh together.
proof fn lemma_apply_merged_weight(f: Family, t1: Term, t2: Term, n: int, w: spec_fn(Term) -> int)
    requires
        additive(w),
        same_support(t1.powers, t2.powers),
    ensures
        congruent(
            weighted(apply_mono(f, merged(t1, t2), n), w),
            weighted(apply_mono(f, t1, n), w) + weighted(apply_mono(f, t2, n), w),
        ),
    decreases degree(t1.powers),
{
    let tm = merged(t1, t2);
    lemma_first_nonzero(t1.powers, 0);
    lemma_first_nonzero(t2.powers, 0);
    lemma_first_nonzero_support(t1.powers, t2.powers, 0);
    let pos = first_nonzero_from(t1.powers, 0);
    if pos < t1.powers.len() {
        let g1 = lowered(t1, pos);
        let g2 = lowered(t2, pos);
        let gm = lowered(tm, pos);
        lemma_lowered_support(t1, t2, pos);
        assert(gm == merged(g1, g2));
        let gen = transform(f, generator(pos + 1), n);
        let v = after_left(gen, w);
        lemma_tail_sum_update(t1.powers, 0, pos, (t1.powers[pos] - 1) as u32);
        lemma_tail_sum_nonneg(g1.powers, 0);
        lemma_after_left_additive(gen, w);
        lemma_apply_merged_weight(f, g1, g2, n, v);
        lemma_apply_split(f, t1, n, w);
        lemma_apply_split(f, t2, n, w);
        lemma_apply_split(f, tm, n, w);
        let bc = boundary_coef(f, pos, n);
        let b1 = Term { coef: i32_specs::wrapping_mul(g1.coef, bc), powers: g1.powers };
        let b2 = Term { coef: i32_specs::wrapping_mul(g2.coef, bc), powers: g2.powers };
        let bm = Term { coef: i32_specs::wrapping_mul(gm.coef, bc), powers: gm.powers };
        lemma_boundary_of_merged(g1, g2, bc);
        assert(congruent(w(bm), w(b1) + w(b2)));
        let r1 = weighted(apply_mono(f, g1, n), v);
        let r2 = weighted(apply_mono(f, g2, n), v);
        let rm = weighted(apply_mono(f, gm, n), v);
        lemma_congruent_add(w(bm), w(b1) + w(b2), rm, r1 + r2);
        lemma_congruent_add(
            weighted(apply_mono(f, t1, n), w),
            w(b1) + r1,
            weighted(apply_mono(f, t2, n), w),
            w(b2) + r2,
        );
    } else {
        assert(first_nonzero_from(tm.powers, 0) == pos);
    }
}

/// Summing `w` over the images of the terms of `ts` is additive.
proof fn lemma_through_additive(f: Family, n: int, w: spec_fn(Term) -> int)
    requires
        additive(w),
    ensures
        additive(through(f, n, w)),
{
    let v = through(f, n, w);
    assert forall|t1: Term, t2: Term| same_support(t1.powers, t2.powers) implies congruent(
        #[trigger] v(merged(t1, t2)),
        v(t1) + #[trigger] v(t2),
    ) by {
        lemma_apply_merged_weight(f, t1, t2, n, w);
    }
    assert forall|t: Term| t.coef == 0 implies congruent(#[trigger] v(t), 0) by {
        lemma_apply_zero_weight(f, t, n, w);
    }
}

proof fn lemma_apply_poly_weighted(f: Family, ts: Seq<Term>, n: int, w: spec_fn(Term) -> int)
    requires
        additive(w),
    ensures
        congruent(weighted(apply_poly(f, ts, n), w), weighted(ts, through(f, n, w))),
    decreases ts.len(),
{
    if ts.len() > 0 {
        let init = apply_poly(f, ts.drop_last(), n);
        lemma_apply_poly_weighted(f, ts.drop_last(), n, w);
        lemma_weighted_add_terms(init, apply_mono(f, ts.last(), n), w);
        lemma_congruent_add(
            weighted(init, w),
            weighted(ts.drop_last(), through(f, n, w)),
            weighted(apply_mono(f, ts.last(), n), w),
            through(f, n, w)(ts.last()),
        );
    }
}

proof fn lemma_apply_poly_well_formed(f: Family, ts: Seq<Term>, n: int)
    ensures
        well_formed(apply_poly(f, ts, n)),
    decreases ts.len(),
{
    if ts.len() > 0 {
        lemma_apply_poly_well_formed(f, ts.drop_last(), n);
        lemma_add_terms_well_formed(apply_poly(f, ts.drop_last(), n), apply_mono(f, ts.last(), n));
    }
}

/// Linearity: for each family, `F(P1 + P2)` and `F(P1) + F(P2)` have the same
/// coefficient at every support.
proof fn lemma_operator_congruent(f: Family, p1: Seq<Term>, p2: Seq<Term>, n: int, s: Seq<u32>)
    ensures
        congruent(
            coef_at(apply_poly(f, add_terms(p1, p2), n), s),
            coef_at(add_terms(apply_poly(f, p1, n), apply_poly(f, p2, n)), s),
        ),
{
    let w = at_support(s);
    lemma_at_support_additive(s);
    lemma_through_additive(f, n, w);
    let v = through(f, n, w);
    lemma_apply_poly_weighted(f, add_terms(p1, p2), n, w);
    lemma_weighted_add_terms(p1, p2, v);
    lemma_apply_poly_weighted(f, p1, n, w);
    lemma_apply_poly_weighted(f, p2, n, w);
    lemma_weighted_add_terms(apply_poly(f, p1, n), apply_poly(f, p2, n), w);
    lemma_congruent_add(
        coef_at(apply_poly(f, p1, n), s),
        weighted(p1, v),
        coef_at(apply_poly(f, p2, n), s),
        weighted(p2, v),
    );
}

proof fn lemma_congruent_in_range(x: int, y: int)
    requires
        congruent(x, y),
        i32::MIN <= x <= i32::MAX,
        i32::MIN <= y <= i32::MAX,
    ensures
        x == y,
{
}

/// Linearity: for each family, `F(P1 + P2)` and `F(P1) + F(P2)` have the same
/// coefficient at every support.
pub proof fn lemma_operator_linear(f: Family, p1: Seq<Term>, p2: Seq<Term>, n: int, s: Seq<u32>)
    ensures
        coef_at(apply_poly(f, add_terms(p1, p2), n), s) == coef_at(
            add_terms(apply_poly(f, p1, n), apply_poly(f, p2, n)),
            s,
        ),
{
    let left = apply_poly(f, add_terms(p1, p2), n);
    let right = add_terms(apply_poly(f, p1, n), apply_poly(f, p2, n));
    lemma_operator_congruent(f, p1, p2, n, s);
    lemma_apply_poly_well_formed(f, add_terms(p1, p2), n);
    lemma_apply_poly_well_formed(f, p1, n);
    lemma_add_terms_well_formed(apply_poly(f, p1, n), apply_poly(f, p2, n));
    lemma_coef_at_range(left, s);
    lemma_coef_at_range(right, s);
    lemma_congruent_in_range(coef_at(left, s), coef_at(right, s));
}

} // verus!
