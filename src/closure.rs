//! Breadth-first closure of a seed polynomial under the operator families.
use vstd::prelude::*;

use crate::error::PolyError;
use crate::monomial::{tail_sum, OddMonomial, Term};
use crate::operators::{all_operable, apply_poly, degree, operable, Family};
use crate::polynomial::{equivalent, well_formed, OddPolynomial};

verus! {

/// `ps` with `p` appended, unless it already holds an equivalent polynomial.
pub open spec fn insert_poly(ps: Seq<Seq<Term>>, p: Seq<Term>) -> Seq<Seq<Term>> {
    if exists|i: int| 0 <= i < ps.len() && equivalent(#[trigger] ps[i], p) {
        ps
    } else {
        ps.push(p)
    }
}

/// Insertion of each polynomial of `qs`, in order.
pub open spec fn insert_all(ps: Seq<Seq<Term>>, qs: Seq<Seq<Term>>) -> Seq<Seq<Term>>
    decreases qs.len(),
{
    if qs.len() == 0 {
        ps
    } else {
        insert_poly(insert_all(ps, qs.drop_last()), qs.last())
    }
}

/// The images of `p` in one round at rank `n`: the simple operator at each
/// strand `1 <= k < n`, then the difference operator at each strand
/// `2 <= k < n` (the difference family is not defined at strand 1, which is
/// left out).
pub open spec fn images(p: Seq<Term>, n: int) -> Seq<Seq<Term>> {
    Seq::new((n - 1) as nat, |k: int| apply_poly(Family::Simple, p, k + 1)) + Seq::new(
        (n - 2) as nat,
        |k: int| apply_poly(Family::Difference, p, k + 2),
    )
}

/// The set after the images of the first `m` members of `snap` were inserted.
pub open spec fn round_upto(snap: Seq<Seq<Term>>, n: int, m: int) -> Seq<Seq<Term>>
    decreases m,
{
    if m <= 0 {
        snap
    } else {
        insert_all(round_upto(snap, n, m - 1), images(snap[m - 1], n))
    }
}

/// The set after `d` rounds from `start`.
pub open spec fn rounds(start: Seq<Seq<Term>>, n: int, d: nat) -> Seq<Seq<Term>>
    decreases d,
{
    if d == 0 {
        start
    } else {
        let prev = rounds(start, n, (d - 1) as nat);
        round_upto(prev, n, prev.len() as int)
    }
}

/// No two members are equivalent.
pub open spec fn distinct(ps: Seq<Seq<Term>>) -> bool {
    forall|i: int, j: int| 0 <= i < j < ps.len() ==> !equivalent(#[trigger] ps[i], #[trigger] ps[j])
}

proof fn lemma_insert_all_distinct(ps: Seq<Seq<Term>>, qs: Seq<Seq<Term>>)
    requires
        distinct(ps),
    ensures
        distinct(insert_all(ps, qs)),
    decreases qs.len(),
{
    if qs.len() > 0 {
        lemma_insert_all_distinct(ps, qs.drop_last());
    }
}

proof fn lemma_round_upto_distinct(snap: Seq<Seq<Term>>, n: int, m: int)
    requires
        distinct(snap),
    ensures
        distinct(round_upto(snap, n, m)),
    decreases m,
{
    if m > 0 {
        lemma_round_upto_distinct(snap, n, m - 1);
        lemma_insert_all_distinct(round_upto(snap, n, m - 1), images(snap[m - 1], n));
    }
}

/// Every round keeps the found polynomials pairwise inequivalent.
pub proof fn lemma_rounds_distinct(start: Seq<Seq<Term>>, n: int, d: nat)
    requires
        distinct(start),
    ensures
        distinct(rounds(start, n, d)),
    decreases d,
{
    if d > 0 {
        lemma_rounds_distinct(start, n, (d - 1) as nat);
        let prev = rounds(start, n, (d - 1) as nat);
        lemma_round_upto_distinct(prev, n, prev.len() as int);
    }
}

/// Insertion only appends.
pub proof fn lemma_insert_all_prefix(ps: Seq<Seq<Term>>, qs: Seq<Seq<Term>>)
    ensures
        insert_all(ps, qs).len() >= ps.len(),
        forall|k: int| 0 <= k < ps.len() ==> #[trigger] insert_all(ps, qs)[k] == ps[k],
    decreases qs.len(),
{
    if qs.len() > 0 {
        lemma_insert_all_prefix(ps, qs.drop_last());
    }
}

/// Every polynomial found before round `d` can be fed to the operators.
pub open spec fn operable_through(start: Seq<Seq<Term>>, n: int, d: nat) -> bool {
    forall|k: nat, i: int|
        k < d && 0 <= i < rounds(start, n, k).len() ==> all_operable(
            #[trigger] rounds(start, n, k)[i],
        )
}

pub open spec fn views(ps: Seq<OddPolynomial>) -> Seq<Seq<Term>> {
    ps.map_values(|p: OddPolynomial| p@)
}

pub open spec fn all_well_formed(ps: Seq<Seq<Term>>) -> bool {
    forall|i: int| 0 <= i < ps.len() ==> well_formed(#[trigger] ps[i])
}

impl OddMonomial {
    /// The total exponent, when it fits in `u32`.
    pub fn total_degree(&self) -> (r: Option<u32>)
        ensures
            r matches Some(d) ==> d == degree(self@.powers),
            r is None ==> degree(self@.powers) > u32::MAX,
    {
        let mut j: usize = self.powers.len();
        let mut acc: u64 = 0;
        while j > 0
            invariant
                j <= self.powers@.len(),
                acc == tail_sum(self.powers@, j as int),
                acc <= u32::MAX,
            decreases j,
        {
            j -= 1;
            acc = acc + self.powers[j] as u64;
            if acc > u32::MAX as u64 {
                proof {
                    crate::operators::lemma_tail_sum_split(self.powers@, 0, j as int);
                }
                return None;
            }
        }
        Some(acc as u32)
    }

    /// Whether the operators can be applied to this monomial.
    pub fn is_operable(&self) -> (r: bool)
        ensures
            r == operable(self@),
    {
        if self.powers.len() >= u32::MAX as usize {
            return false;
        }
        match self.total_degree() {
            Some(_) => true,
            None => false,
        }
    }
}

impl OddPolynomial {
    /// Whether the operators can be applied to every term.
    pub fn is_operable(&self) -> (r: bool)
        ensures
            r == all_operable(self@),
    {
        let mut i: usize = 0;
        while i < self.len()
            invariant
                i <= self@.len(),
                forall|k: int| 0 <= k < i ==> operable(#[trigger] self@[k]),
            decreases self@.len() - i,
        {
            if !self.term(i).is_operable() {
                return false;
            }
            i += 1;
        }
        true
    }
}

/// Appends `p` to `set` unless the set already holds an equivalent polynomial.
pub fn insert_distinct(set: &mut Vec<OddPolynomial>, p: OddPolynomial)
    requires
        well_formed(p@),
    ensures
        views(final(set)@) == insert_poly(views(old(set)@), p@),
{
    let ghost pv = p@;
    let mut i: usize = 0;
    while i < set.len()
        invariant
            i <= set@.len(),
            well_formed(p@),
            p@ == pv,
            forall|k: int| 0 <= k < i ==> !equivalent(#[trigger] views(set@)[k], pv),
        decreases set@.len() - i,
    {
        if set[i].same_as(&p) {
            assert(equivalent(views(set@)[i as int], pv));
            return;
        }
        i += 1;
    }
    let ghost before = set@;
    set.push(p);
    assert(views(set@) =~= views(before).push(pv));
}

/// Inserts the images of `p` at rank `n` into `set`.
fn insert_images(set: &mut Vec<OddPolynomial>, p: &OddPolynomial, n: u32)
    requires
        n >= 2,
        all_operable(p@),
    ensures
        views(final(set)@) == insert_all(views(old(set)@), images(p@, n as int)),
{
    let ghost imgs = images(p@, n as int);
    let mut k: u32 = 1;
    while k < n
        invariant
            1 <= k <= n,
            n >= 2,
            all_operable(p@),
            imgs == images(p@, n as int),
            views(set@) == insert_all(views(old(set)@), imgs.take(k - 1)),
        decreases n - k,
    {
        let q = p.ps(k);
        insert_distinct(set, q);
        proof {
            assert(imgs.take(k as int).drop_last() =~= imgs.take(k - 1));
        }
        k += 1;
    }
    let mut k: u32 = 2;
    while k < n
        invariant
            2 <= k <= n,
            all_operable(p@),
            imgs == images(p@, n as int),
            views(set@) == insert_all(views(old(set)@), imgs.take(n + k - 3)),
        decreases n - k,
    {
        let q = p.pd(k);
        insert_distinct(set, q);
        proof {
            assert(imgs.take(n + k - 2).drop_last() =~= imgs.take(n + k - 3));
        }
        k += 1;
    }
    assert(imgs.take(n + k - 3) =~= imgs);
}

/// The polynomials reachable from `seed` in `degree` rounds at rank `n`: each
/// round applies the simple operator at every strand `1 <= k < n` and the
/// difference operator at every strand `2 <= k < n` to every polynomial found
/// so far, and keeps each result that is not equivalent to one already found.
/// A polynomial met on the way whose exponents could overflow under the
/// operators stops the enumeration with `ExponentOverflow`.
pub fn closure(seed: &OddPolynomial, n: u32, degree: u32) -> (r: Result<Vec<OddPolynomial>, PolyError>)
    requires
        well_formed(seed@),
    ensures
        n < 2 ==> r == Err::<Vec<OddPolynomial>, PolyError>(PolyError::InvalidStrand),
        n >= 2 && operable_through(seq![seed@], n as int, degree as nat) ==> (r matches Ok(set)
            && views(set@) == rounds(seq![seed@], n as int, degree as nat)
            && distinct(views(set@))),
        n >= 2 && !operable_through(seq![seed@], n as int, degree as nat) ==> r
            == Err::<Vec<OddPolynomial>, PolyError>(PolyError::ExponentOverflow),
{
    proof {
        lemma_rounds_distinct(seq![seed@], n as int, degree as nat);
    }
    if n < 2 {
        return Err(PolyError::InvalidStrand);
    }
    let ghost start = seq![seed@];
    let mut set: Vec<OddPolynomial> = Vec::new();
    set.push(seed.duplicate());
    assert(views(set@) =~= start);
    let mut d: u32 = 0;
    while d < degree
        invariant
            d <= degree,
            n >= 2,
            start == seq![seed@],
            views(set@) == rounds(start, n as int, d as nat),
            operable_through(start, n as int, d as nat),
        decreases degree - d,
    {
        let ghost snap = views(set@);
        let count = set.len();
        let mut i: usize = 0;
        while i < count
            invariant
                i <= count,
                count == snap.len(),
                n >= 2,
                d < degree,
                start == seq![seed@],
                snap == rounds(start, n as int, d as nat),
                views(set@) == round_upto(snap, n as int, i as int),
                forall|k: int| 0 <= k < count ==> #[trigger] views(set@)[k] == snap[k],
                forall|k: int| 0 <= k < i ==> all_operable(#[trigger] snap[k]),
                set@.len() >= count,
            decreases count - i,
        {
            let p = set[i].duplicate();
            assert(views(set@)[i as int] == set@[i as int]@);
            assert(p@ == snap[i as int]);
            if !p.is_operable() {
                assert(!all_operable(rounds(start, n as int, d as nat)[i as int]));
                assert(!operable_through(start, n as int, degree as nat)) by {
                    let k: nat = d as nat;
                    assert(k < degree && 0 <= i < rounds(start, n as int, k).len());
                    assert(!all_operable(rounds(start, n as int, k)[i as int]));
                }
                return Err(PolyError::ExponentOverflow);
            }
            let ghost before = views(set@);
            insert_images(&mut set, &p, n);
            proof {
                lemma_insert_all_prefix(before, images(p@, n as int));
            }
            i += 1;
        }
        assert forall|k: nat, j: int|
            k < d + 1 && 0 <= j < rounds(start, n as int, k).len() implies all_operable(
            #[trigger] rounds(start, n as int, k)[j],
        ) by {
            if k == d {
                assert(all_operable(snap[j]));
            }
        }
        d += 1;
    }
    Ok(set)
}

} // verus!
