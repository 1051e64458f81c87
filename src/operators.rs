//! The divided-difference operator families, defined by a Leibniz recursion on
//! the first nonzero exponent and extended linearly to polynomials.
use vstd::prelude::*;
use vstd::wrapping::i32_specs;

use crate::monomial::{
    generator, pw, sb_spec, sd_spec, ss_spec, tail_sum, OddMonomial, Term,
};
use crate::polynomial::{add_term, add_terms, mul_terms, products, well_formed, OddPolynomial};

verus! {

/// The three operator families.
#[derive(Clone, Copy, Debug, PartialEq, Eq, Structural)]
pub enum Family {
    /// Built on the signed swap `ss`.
    Simple,
    /// Built on the sign-only transform `sb`.
    Boundary,
    /// Built on the unsigned swap `sd`.
    Difference,
}

/// Smallest strand index that a family accepts.
pub open spec fn strand_ok(f: Family, n: int) -> bool {
    match f {
        Family::Difference => n >= 2,
        _ => n >= 1,
    }
}

/// Total exponent of a monomial.
pub open spec fn degree(p: Seq<u32>) -> int {
    tail_sum(p, 0)
}

/// Monomials the operators can be applied to without exponent overflow.
pub open spec fn operable(m: Term) -> bool {
    m.powers.len() < u32::MAX && degree(m.powers) <= u32::MAX
}

/// Index of the first nonzero exponent at or after `k`; the length if none.
pub open spec fn first_nonzero_from(p: Seq<u32>, k: int) -> int
    decreases p.len() - k,
{
    if k >= p.len() {
        p.len() as int
    } else if p[k] != 0 {
        k
    } else {
        first_nonzero_from(p, k + 1)
    }
}

/// The coefficient of the boundary term when the first nonzero exponent is at `pos`.
pub open spec fn boundary_coef(f: Family, pos: int, n: int) -> i32 {
    match f {
        Family::Simple => if pos == n - 1 || pos == n {
            1i32
        } else {
            0i32
        },
        Family::Boundary => if pos == n - 1 {
            1i32
        } else {
            0i32
        },
        Family::Difference => if pos == n - 2 {
            1i32
        } else if pos == n - 1 {
            -1i32
        } else {
            0i32
        },
    }
}

/// The elementary transform that goes with a family.
pub open spec fn transform(f: Family, m: Term, n: int) -> Term {
    match f {
        Family::Simple => ss_spec(m, n),
        Family::Boundary => sb_spec(m, n),
        Family::Difference => sd_spec(m, n),
    }
}

/// `m` with the exponent at `pos` lowered by one.
pub open spec fn lowered(m: Term, pos: int) -> Term {
    Term { coef: m.coef, powers: m.powers.update(pos, (m.powers[pos] - 1) as u32) }
}

/// The single-term list of `t`, or the empty list when `t` is zero.
pub open spec fn single(t: Term) -> Seq<Term> {
    if t.coef == 0 {
        Seq::empty()
    } else {
        seq![t]
    }
}

/// The operator of family `f` at strand `n` applied to a monomial: zero on a
/// constant; otherwise, with `g` the monomial lowered at its first nonzero
/// exponent `pos`, the boundary term `c * g` plus the transformed generator
/// `x_{pos+1}` times the operator applied to `g`.
pub open spec fn apply_mono(f: Family, m: Term, n: int) -> Seq<Term>
    decreases degree(m.powers),
    via apply_mono_decreases
{
    let pos = first_nonzero_from(m.powers, 0);
    if pos >= m.powers.len() {
        Seq::empty()
    } else {
        let g = lowered(m, pos);
        let boundary = Term {
            coef: i32_specs::wrapping_mul(g.coef, boundary_coef(f, pos, n)),
            powers: g.powers,
        };
        add_terms(
            single(boundary),
            mul_terms(single(transform(f, generator(pos + 1), n)), apply_mono(f, g, n)),
        )
    }
}

#[via_fn]
proof fn apply_mono_decreases(f: Family, m: Term, n: int) {
    lemma_first_nonzero(m.powers, 0);
    let pos = first_nonzero_from(m.powers, 0);
    if pos < m.powers.len() {
        lemma_tail_sum_nonneg(m.powers, 0);
        lemma_tail_sum_update(m.powers, 0, pos, (m.powers[pos] - 1) as u32);
        lemma_tail_sum_nonneg(lowered(m, pos).powers, 0);
    }
}

/// The operator extended linearly: the results for each term, merged in order.
pub open spec fn apply_poly(f: Family, ts: Seq<Term>, n: int) -> Seq<Term>
    decreases ts.len(),
{
    if ts.len() == 0 {
        Seq::empty()
    } else {
        add_terms(apply_poly(f, ts.drop_last(), n), apply_mono(f, ts.last(), n))
    }
}

/// Every term can be fed to the operators.
pub open spec fn all_operable(ts: Seq<Term>) -> bool {
    forall|i: int| 0 <= i < ts.len() ==> operable(#[trigger] ts[i])
}

/// Every exponent of every term is at most `b`.
pub open spec fn terms_bounded(ts: Seq<Term>, b: int) -> bool {
    forall|i: int, j: int| 0 <= i < ts.len() ==> #[trigger] pw(ts[i].powers, j) <= b
}

pub proof fn lemma_first_nonzero(p: Seq<u32>, k: int)
    requires
        0 <= k <= p.len(),
    ensures
        k <= first_nonzero_from(p, k) <= p.len(),
        first_nonzero_from(p, k) < p.len() ==> p[first_nonzero_from(p, k)] != 0,
        forall|j: int| k <= j < first_nonzero_from(p, k) ==> p[j] == 0,
    decreases p.len() - k,
{
    if k < p.len() && p[k] == 0 {
        lemma_first_nonzero(p, k + 1);
    }
}

pub proof fn lemma_tail_sum_nonneg(p: Seq<u32>, k: int)
    ensures
        tail_sum(p, k) >= 0,
    decreases p.len() - k,
{
    if k < p.len() {
        lemma_tail_sum_nonneg(p, k + 1);
    }
}

pub proof fn lemma_tail_sum_update(p: Seq<u32>, k: int, pos: int, v: u32)
    requires
        0 <= k <= pos < p.len(),
    ensures
        tail_sum(p.update(pos, v), k) == tail_sum(p, k) - p[pos] + v,
    decreases pos - k,
{
    if k < pos {
        lemma_tail_sum_update(p, k + 1, pos, v);
    } else {
        lemma_tail_sum_suffix_update(p, k + 1, pos, v);
    }
}

proof fn lemma_tail_sum_suffix_update(p: Seq<u32>, k: int, pos: int, v: u32)
    requires
        0 <= pos < k,
        pos < p.len(),
    ensures
        tail_sum(p.update(pos, v), k) == tail_sum(p, k),
    decreases p.len() - k,
{
    if k < p.len() {
        lemma_tail_sum_suffix_update(p, k + 1, pos, v);
    }
}

/// The total from `k` splits at any later position `j`.
pub proof fn lemma_tail_sum_split(p: Seq<u32>, k: int, j: int)
    requires
        0 <= k <= j,
    ensures
        tail_sum(p, k) >= tail_sum(p, j),
    decreases j - k,
{
    if k < j {
        lemma_tail_sum_split(p, k + 1, j);
        if k >= p.len() {
            assert(tail_sum(p, k + 1) == 0);
        }
    }
}

/// No exponent exceeds the total exponent from its position down.
pub proof fn lemma_pw_le_tail_sum(p: Seq<u32>, k: int, i: int)
    requires
        0 <= k,
    ensures
        k <= i ==> pw(p, i) <= tail_sum(p, k),
    decreases p.len() - k,
{
    if k < p.len() {
        lemma_pw_le_tail_sum(p, k + 1, i);
        lemma_tail_sum_nonneg(p, k + 1);
    } else if k <= i {
    }
}

pub proof fn lemma_add_term_bounded(ts: Seq<Term>, m: Term, b: int)
    requires
        terms_bounded(ts, b),
        forall|j: int| #[trigger] pw(m.powers, j) <= b,
    ensures
        terms_bounded(add_term(ts, m), b),
{
    let r = add_term(ts, m);
    assert forall|i: int, j: int| 0 <= i < r.len() implies #[trigger] pw(r[i].powers, j) <= b by {
        if m.coef != 0 {
            let k = crate::polynomial::first_match(ts, m.powers);
            crate::polynomial::lemma_first_match(ts, m.powers, 0);
            if k >= ts.len() {
                if i < ts.len() {
                    assert(pw(ts[i].powers, j) <= b);
                }
            } else if i32_specs::wrapping_add(ts[k].coef, m.coef) == 0 {
                if i < k {
                    assert(pw(ts[i].powers, j) <= b);
                } else {
                    assert(pw(ts[i + 1].powers, j) <= b);
                }
            } else {
                assert(pw(ts[i].powers, j) <= b);
            }
        }
    }
}

pub proof fn lemma_add_terms_bounded(ts: Seq<Term>, ms: Seq<Term>, b: int)
    requires
        terms_bounded(ts, b),
        terms_bounded(ms, b),
    ensures
        terms_bounded(add_terms(ts, ms), b),
    decreases ms.len(),
{
    if ms.len() > 0 {
        let init = ms.drop_last();
        assert forall|i: int, j: int| 0 <= i < init.len() implies #[trigger] pw(init[i].powers, j) <= b by {
            assert(pw(ms[i].powers, j) <= b);
        }
        lemma_add_terms_bounded(ts, init, b);
        assert forall|j: int| #[trigger] pw(ms.last().powers, j) <= b by {
            assert(pw(ms[ms.len() - 1].powers, j) <= b);
        }
        lemma_add_term_bounded(add_terms(ts, init), ms.last(), b);
    }
}

/// Position of the first nonzero exponent, or the length if there is none.
fn first_nonzero(p: &Vec<u32>) -> (r: usize)
    ensures
        r == first_nonzero_from(p@, 0),
{
    let mut i: usize = 0;
    while i < p.len()
        invariant
            i <= p.len(),
            first_nonzero_from(p@, 0) == first_nonzero_from(p@, i as int),
        decreases p.len() - i,
    {
        if p[i] != 0 {
            return i;
        }
        i += 1;
    }
    i
}

fn boundary_coefficient(f: Family, pos: usize, n: u32) -> (r: i32)
    requires
        pos < u32::MAX,
    ensures
        r == boundary_coef(f, pos as int, n as int),
{
    let p = pos as u64;
    let k = n as u64;
    match f {
        Family::Simple => if p + 1 == k || p == k {
            1
        } else {
            0
        },
        Family::Boundary => if p + 1 == k {
            1
        } else {
            0
        },
        Family::Difference => if p + 2 == k {
            1
        } else if p + 1 == k {
            -1
        } else {
            0
        },
    }
}

impl OddMonomial {
    /// The elementary transform of family `f` at strand `n`.
    pub fn transform(&self, f: Family, n: u32) -> (r: OddMonomial)
        requires
            strand_ok(f, n as int),
        ensures
            r@ == transform(f, self@, n as int),
    {
        match f {
            Family::Simple => self.ss(n),
            Family::Boundary => self.sb(n),
            Family::Difference => self.sd(n),
        }
    }

    /// The operator of family `f` at strand `n` applied to this monomial.
    pub fn apply(&self, f: Family, n: u32) -> (r: OddPolynomial)
        requires
            strand_ok(f, n as int),
            operable(self@),
        ensures
            r@ == apply_mono(f, self@, n as int),
            well_formed(r@),
            terms_bounded(r@, degree(self@.powers)),
        decreases degree(self@.powers),
    {
        let ghost m = self@;
        proof {
            lemma_first_nonzero(m.powers, 0);
        }
        let pos = first_nonzero(&self.powers);
        if pos >= self.powers.len() {
            return OddPolynomial::new();
        }
        let mut powers = self.powers.clone();
        assert(powers@ =~= m.powers);
        let v = powers[pos];
        powers.set(pos, v - 1);
        let g = OddMonomial { coefficient: self.coefficient, powers };
        let ghost gv = lowered(m, pos as int);
        assert(g@ =~= gv);
        proof {
            lemma_tail_sum_update(m.powers, 0, pos as int, (v - 1) as u32);
            lemma_tail_sum_nonneg(gv.powers, 0);
        }
        let c = boundary_coefficient(f, pos, n);
        let boundary = OddMonomial { coefficient: g.coefficient.wrapping_mul(c), powers: g.powers.clone() };
        assert(boundary.powers@ =~= gv.powers);
        let gen_mono = OddMonomial::x(pos as u32 + 1).transform(f, n);
        let rest = g.apply(f, n);
        let left = OddPolynomial::from_monomial(boundary);
        let ghost gen = gen_mono@;
        let ghost restv = rest@;
        proof {
            // the transformed generator has exponents 0 and 1 only
            assert forall|j: int| #[trigger] pw(gen.powers, j) <= 1 by {
                assert(pw(generator(pos + 1).powers, j) <= 1);
            }
            assert(gen.coef != 0);
            assert forall|i: int, j: int|
                0 <= i < seq![gen].len() && 0 <= j < restv.len() implies crate::monomial::powers_fit(
                #[trigger] seq![gen][i].powers,
                #[trigger] restv[j].powers,
            ) by {
                assert forall|k: int| #![trigger pw(gen.powers, k)] #![trigger pw(restv[j].powers, k)]
                    pw(gen.powers, k) + pw(restv[j].powers, k) <= u32::MAX by {
                    assert(pw(restv[j].powers, k) <= degree(gv.powers));
                }
            }
        }
        let right = OddPolynomial::from_monomial(gen_mono).mul(&rest);
        let r = left.add(&right);
        proof {
            let b = degree(m.powers);
            let single_gen = single(gen);
            assert(single_gen =~= seq![gen]);
            assert(single_gen.drop_last() =~= Seq::<Term>::empty());
            let prods = products(gen, restv);
            assert forall|i: int, j: int| 0 <= i < prods.len() implies #[trigger] pw(prods[i].powers, j) <= b by {
                assert(pw(restv[i].powers, j) <= degree(gv.powers));
            }
            assert(mul_terms(Seq::<Term>::empty(), restv) == Seq::<Term>::empty());
            lemma_add_terms_bounded(Seq::<Term>::empty(), prods, b);
            assert forall|i: int, j: int| 0 <= i < left@.len() implies #[trigger] pw(left@[i].powers, j) <= b by {
                lemma_pw_le_tail_sum(gv.powers, 0, j);
            }
            lemma_add_terms_bounded(left@, right@, b);
        }
        r
    }

    /// The simple-family operator (built on the signed swap `ss`) at strand `n`.
    pub fn ps(&self, n: u32) -> (r: OddPolynomial)
        requires
            n >= 1,
            operable(self@),
        ensures
            r@ == apply_mono(Family::Simple, self@, n as int),
            well_formed(r@),
    {
        self.apply(Family::Simple, n)
    }

    /// The boundary-family operator (built on the sign-only transform `sb`) at strand `n`.
    pub fn pb(&self, n: u32) -> (r: OddPolynomial)
        requires
            n >= 1,
            operable(self@),
        ensures
            r@ == apply_mono(Family::Boundary, self@, n as int),
            well_formed(r@),
    {
        self.apply(Family::Boundary, n)
    }

    /// The difference-family operator (built on the unsigned swap `sd`) at strand `n`.
    pub fn pd(&self, n: u32) -> (r: OddPolynomial)
        requires
            n >= 2,
            operable(self@),
        ensures
            r@ == apply_mono(Family::Difference, self@, n as int),
            well_formed(r@),
    {
        self.apply(Family::Difference, n)
    }
}

impl OddPolynomial {
    /// The operator of family `f` at strand `n`, applied term by term and summed.
    pub fn apply(&self, f: Family, n: u32) -> (r: OddPolynomial)
        requires
            strand_ok(f, n as int),
            all_operable(self@),
        ensures
            r@ == apply_poly(f, self@, n as int),
            well_formed(r@),
    {
        let mut res = OddPolynomial::new();
        let mut i: usize = 0;
        while i < self.len()
            invariant
                i <= self@.len(),
                strand_ok(f, n as int),
                all_operable(self@),
                res@ == apply_poly(f, self@.take(i as int), n as int),
                well_formed(res@),
            decreases self@.len() - i,
        {
            let t = self.term(i);
            let part = t.apply(f, n);
            res = res.add(&part);
            proof {
                let s = self@.take(i + 1);
                assert(s.drop_last() =~= self@.take(i as int));
            }
            i += 1;
        }
        assert(self@.take(i as int) =~= self@);
        res
    }

    /// The simple-family operator (built on the signed swap `ss`) at strand `n`, applied term by term.
    pub fn ps(&self, n: u32) -> (r: OddPolynomial)
        requires
            n >= 1,
            all_operable(self@),
        ensures
            r@ == apply_poly(Family::Simple, self@, n as int),
            well_formed(r@),
    {
        self.apply(Family::Simple, n)
    }

    /// The boundary-family operator (built on the sign-only transform `sb`) at strand `n`, applied term by term.
    pub fn pb(&self, n: u32) -> (r: OddPolynomial)
        requires
            n >= 1,
            all_operable(self@),
        ensures
            r@ == apply_poly(Family::Boundary, self@, n as int),
            well_formed(r@),
    {
        self.apply(Family::Boundary, n)
    }

    /// The difference-family operator (built on the unsigned swap `sd`) at strand `n`, applied term by term.
    pub fn pd(&self, n: u32) -> (r: OddPolynomial)
        requires
            n >= 2,
            all_operable(self@),
        ensures
            r@ == apply_poly(Family::Difference, self@, n as int),
            well_formed(r@),
    {
        self.apply(Family::Difference, n)
    }
}

} // verus!
