//! Laws of the graded sign rule of monomial multiplication.
use vstd::arithmetic::div_mod::{lemma_mul_mod_noop_left, lemma_mod_multiples_vanish};
use vstd::prelude::*;
use vstd::wrapping::i32_specs;

use crate::monomial::{
    flips_from, mono_mul, negated, powers_fit, pw, same_support, sum_powers, tail_sum, Term,
};
use crate::operators::{degree, lemma_tail_sum_nonneg};

verus! {

/// Sum over positions `k <= i < bound` of `b[i]` times the total of `a` right of `i`.
pub open spec fn cross(a: Seq<u32>, b: Seq<u32>, k: int, bound: int) -> int
    decreases bound - k,
{
    if k >= bound {
        0
    } else {
        pw(b, k) * tail_sum(a, k + 1) + cross(a, b, k + 1, bound)
    }
}

/// Sum over positions `k <= i < bound` of `a[i] * b[i]`.
pub open spec fn dot(a: Seq<u32>, b: Seq<u32>, k: int, bound: int) -> int
    decreases bound - k,
{
    if k >= bound {
        0
    } else {
        pw(a, k) * pw(b, k) + dot(a, b, k + 1, bound)
    }
}

/// The pairing `sum_i a[i] * b[i]` of two exponent vectors.
pub open spec fn pairing(a: Seq<u32>, b: Seq<u32>) -> int {
    dot(a, b, 0, if a.len() >= b.len() { a.len() as int } else { b.len() as int })
}

proof fn lemma_tail_step(a: Seq<u32>, k: int)
    requires
        0 <= k,
    ensures
        tail_sum(a, k) == pw(a, k) + tail_sum(a, k + 1),
{
    if k >= a.len() {
        assert(tail_sum(a, k + 1) == 0);
    }
}

proof fn lemma_parity_product(x: int, y: int)
    requires
        x >= 0,
        y >= 0,
    ensures
        ((x * y) % 2 == 1) == (x % 2 == 1 && y % 2 == 1),
{
    lemma_mul_mod_noop_left(x, y, 2);
    lemma_mul_mod_noop_left(y, x % 2, 2);
    assert((x % 2) * y == y * (x % 2)) by (nonlinear_arith);
    assert(x * y == y * x) by (nonlinear_arith);
    if x % 2 == 0 {
        assert((x % 2) * (y % 2) == 0);
    } else {
        assert((y % 2) * (x % 2) == y % 2);
    }
}

/// The flip count has the parity of the weighted crossing sum.
proof fn lemma_flips_parity(a: Seq<u32>, b: Seq<u32>, k: int)
    requires
        0 <= k,
    ensures
        flips_from(a, b, k) % 2 == cross(a, b, k, b.len() as int) % 2,
    decreases b.len() - k,
{
    if k < b.len() {
        lemma_flips_parity(a, b, k + 1);
        lemma_tail_sum_nonneg(a, k + 1);
        lemma_parity_product(pw(b, k), tail_sum(a, k + 1));
    }
}

/// Positions past the end of `b` add nothing to the crossing sum.
proof fn lemma_cross_bound(a: Seq<u32>, b: Seq<u32>, k: int, bound: int)
    requires
        0 <= k,
        bound >= b.len(),
    ensures
        cross(a, b, k, bound) == cross(a, b, k, b.len() as int),
    decreases bound - k,
{
    if k < bound {
        lemma_cross_bound(a, b, k + 1, bound);
    }
}

/// Both crossing sums and the pairing make up the product of the degrees.
proof fn lemma_cross_identity(a: Seq<u32>, b: Seq<u32>, k: int, bound: int)
    requires
        0 <= k <= bound,
        bound >= a.len(),
        bound >= b.len(),
    ensures
        cross(a, b, k, bound) + cross(b, a, k, bound) + dot(a, b, k, bound) == tail_sum(a, k)
            * tail_sum(b, k),
    decreases bound - k,
{
    if k < bound {
        lemma_cross_identity(a, b, k + 1, bound);
        lemma_tail_step(a, k);
        lemma_tail_step(b, k);
        let x = pw(a, k);
        let y = pw(b, k);
        let tx = tail_sum(a, k + 1);
        let ty = tail_sum(b, k + 1);
        assert((x + tx) * (y + ty) == y * tx + x * ty + x * y + tx * ty) by (nonlinear_arith);
    } else {
        assert(tail_sum(a, k) == 0);
    }
}

/// Graded anticommutativity: `A * B` and `B * A` have the same exponents, and
/// their coefficients differ by the sign `(-1)^(deg A * deg B - <A, B>)`, where
/// `<A, B>` pairs the exponents position by position.
pub proof fn lemma_graded_anticommutativity(a: Term, b: Term)
    ensures
        mono_mul(a, b).powers == mono_mul(b, a).powers,
        mono_mul(a, b).coef == if (degree(a.powers) * degree(b.powers) - pairing(a.powers, b.powers))
            % 2 == 1 {
            negated(mono_mul(b, a).coef)
        } else {
            mono_mul(b, a).coef
        },
{
    assert(sum_powers(a.powers, b.powers) =~= sum_powers(b.powers, a.powers));
    assert(a.coef * b.coef == b.coef * a.coef) by (nonlinear_arith);
    let bound = if a.powers.len() >= b.powers.len() {
        a.powers.len() as int
    } else {
        b.powers.len() as int
    };
    lemma_flips_parity(a.powers, b.powers, 0);
    lemma_flips_parity(b.powers, a.powers, 0);
    lemma_cross_bound(a.powers, b.powers, 0, bound);
    lemma_cross_bound(b.powers, a.powers, 0, bound);
    lemma_cross_identity(a.powers, b.powers, 0, bound);
    assert(dot(a.powers, b.powers, 0, bound) == pairing(a.powers, b.powers));
}

proof fn lemma_tail_sum_of_sum(a: Seq<u32>, b: Seq<u32>, k: int)
    requires
        0 <= k,
        powers_fit(a, b),
    ensures
        tail_sum(sum_powers(a, b), k) == tail_sum(a, k) + tail_sum(b, k),
    decreases sum_powers(a, b).len() - k,
{
    let s = sum_powers(a, b);
    if k < s.len() {
        lemma_tail_sum_of_sum(a, b, k + 1);
        lemma_tail_step(a, k);
        lemma_tail_step(b, k);
        lemma_tail_step(s, k);
        assert(pw(a, k) + pw(b, k) <= u32::MAX);
    } else {
        assert(tail_sum(a, k) == 0);
        assert(tail_sum(b, k) == 0);
    }
}

proof fn lemma_cross_left_sum(a: Seq<u32>, b: Seq<u32>, c: Seq<u32>, k: int, bound: int)
    requires
        0 <= k,
        powers_fit(a, b),
    ensures
        cross(sum_powers(a, b), c, k, bound) == cross(a, c, k, bound) + cross(b, c, k, bound),
    decreases bound - k,
{
    if k < bound {
        lemma_cross_left_sum(a, b, c, k + 1, bound);
        lemma_tail_sum_of_sum(a, b, k + 1);
        let x = pw(c, k);
        let ta = tail_sum(a, k + 1);
        let tb = tail_sum(b, k + 1);
        assert(x * (ta + tb) == x * ta + x * tb) by (nonlinear_arith);
    }
}

proof fn lemma_cross_right_sum(a: Seq<u32>, b: Seq<u32>, c: Seq<u32>, k: int, bound: int)
    requires
        0 <= k,
        powers_fit(b, c),
    ensures
        cross(a, sum_powers(b, c), k, bound) == cross(a, b, k, bound) + cross(a, c, k, bound),
    decreases bound - k,
{
    if k < bound {
        lemma_cross_right_sum(a, b, c, k + 1, bound);
        assert(pw(b, k) + pw(c, k) <= u32::MAX);
        assert(pw(sum_powers(b, c), k) == pw(b, k) + pw(c, k));
        let t = tail_sum(a, k + 1);
        let x = pw(b, k);
        let y = pw(c, k);
        assert((x + y) * t == x * t + y * t) by (nonlinear_arith);
    }
}

/// The sign of a product as a factor `1` or `-1`.
pub open spec fn sign_of(a: Seq<u32>, b: Seq<u32>) -> int {
    if flips_from(a, b, 0) % 2 == 1 {
        -1
    } else {
        1
    }
}

pub proof fn lemma_crop_mod(x: int)
    ensures
        i32_specs::signed_crop(x) as int % 0x1_0000_0000 == x % 0x1_0000_0000,
{
    let m: int = 0x1_0000_0000;
    let r = x % m;
    if r > i32::MAX {
        lemma_mod_multiples_vanish(-1, r, m);
    }
}

proof fn lemma_crop_of_product(u: int, v: int, w: int)
    requires
        u % 0x1_0000_0000 == v % 0x1_0000_0000,
    ensures
        i32_specs::signed_crop(u * w) == i32_specs::signed_crop(v * w),
{
    lemma_mul_mod_noop_left(u, w, 0x1_0000_0000);
    lemma_mul_mod_noop_left(v, w, 0x1_0000_0000);
}

proof fn lemma_negated_crop(x: int)
    ensures
        negated(i32_specs::signed_crop(x)) == i32_specs::signed_crop(-x),
{
    let c = i32_specs::signed_crop(x);
    lemma_crop_mod(x);
    lemma_crop_of_product(c as int, x, -1);
    assert(c * -1 == -c) by (nonlinear_arith);
    assert(x * -1 == -x) by (nonlinear_arith);
    let m: int = 0x1_0000_0000;
    if c == i32::MIN {
        assert((-c) % m == 0x8000_0000);
    } else if c > 0 {
        lemma_mod_multiples_vanish(1, -c, m);
        assert((m + -c) % m == m - c);
    } else {
        assert((-c) % m == -c);
    }
}

pub proof fn lemma_mul_coef(a: Term, b: Term)
    ensures
        mono_mul(a, b).coef == i32_specs::signed_crop(sign_of(a.powers, b.powers) * (a.coef * b.coef)),
{
    lemma_negated_crop(a.coef * b.coef);
}

/// Associativity: `(A * B) * C == A * (B * C)` whenever the exponents of the
/// triple product fit.
pub proof fn lemma_mul_associative(a: Term, b: Term, c: Term)
    requires
        forall|i: int|
            #![trigger pw(a.powers, i)]
            #![trigger pw(b.powers, i)]
            #![trigger pw(c.powers, i)]
            pw(a.powers, i) + pw(b.powers, i) + pw(c.powers, i) <= u32::MAX,
    ensures
        mono_mul(mono_mul(a, b), c) == mono_mul(a, mono_mul(b, c)),
{
    let ab = mono_mul(a, b);
    let bc = mono_mul(b, c);
    assert(powers_fit(a.powers, b.powers));
    assert(powers_fit(b.powers, c.powers));
    assert(powers_fit(ab.powers, c.powers)) by {
        assert forall|i: int| #![trigger pw(ab.powers, i)] #![trigger pw(c.powers, i)]
            pw(ab.powers, i) + pw(c.powers, i) <= u32::MAX by {
            assert(pw(a.powers, i) + pw(b.powers, i) + pw(c.powers, i) <= u32::MAX);
        }
    }
    assert(powers_fit(a.powers, bc.powers)) by {
        assert forall|i: int| #![trigger pw(a.powers, i)] #![trigger pw(bc.powers, i)]
            pw(a.powers, i) + pw(bc.powers, i) <= u32::MAX by {
            assert(pw(a.powers, i) + pw(b.powers, i) + pw(c.powers, i) <= u32::MAX);
        }
    }
    let left = mono_mul(ab, c);
    let right = mono_mul(a, bc);
    assert forall|i: int| 0 <= i < left.powers.len() implies left.powers[i] == right.powers[i] by {
        assert(pw(a.powers, i) + pw(b.powers, i) + pw(c.powers, i) <= u32::MAX);
    }
    assert(left.powers =~= right.powers);

    // signs: both groupings cross every ordered pair of factors once
    let la = a.powers.len() as int;
    let lb = b.powers.len() as int;
    let lc = c.powers.len() as int;
    let bound = if la >= lb && la >= lc {
        la
    } else if lb >= lc {
        lb
    } else {
        lc
    };
    lemma_flips_parity(a.powers, b.powers, 0);
    lemma_flips_parity(ab.powers, c.powers, 0);
    lemma_flips_parity(b.powers, c.powers, 0);
    lemma_flips_parity(a.powers, bc.powers, 0);
    lemma_cross_bound(a.powers, b.powers, 0, bound);
    lemma_cross_bound(ab.powers, c.powers, 0, bound);
    lemma_cross_bound(b.powers, c.powers, 0, bound);
    lemma_cross_bound(a.powers, bc.powers, 0, bound);
    lemma_cross_left_sum(a.powers, b.powers, c.powers, 0, bound);
    lemma_cross_right_sum(a.powers, b.powers, c.powers, 0, bound);
    let e1 = sign_of(a.powers, b.powers);
    let e2 = sign_of(ab.powers, c.powers);
    let e3 = sign_of(b.powers, c.powers);
    let e4 = sign_of(a.powers, bc.powers);
    assert(e1 * e2 == e3 * e4);

    // coefficients: wrapping is compatible with the products
    let x = a.coef as int;
    let y = b.coef as int;
    let z = c.coef as int;
    lemma_mul_coef(a, b);
    lemma_mul_coef(b, c);
    lemma_mul_coef(ab, c);
    lemma_mul_coef(a, bc);
    lemma_crop_mod(e1 * (x * y));
    lemma_crop_mod(e3 * (y * z));
    lemma_crop_of_product(ab.coef as int, e1 * (x * y), e2 * z);
    lemma_crop_of_product(bc.coef as int, e3 * (y * z), e4 * x);
    assert(e2 * (ab.coef * z) == ab.coef * (e2 * z)) by (nonlinear_arith);
    assert(e4 * (x * bc.coef) == bc.coef * (e4 * x)) by (nonlinear_arith);
    assert((e1 * (x * y)) * (e2 * z) == (e1 * e2) * (x * y * z)) by (nonlinear_arith);
    assert((e3 * (y * z)) * (e4 * x) == (e3 * e4) * (x * y * z)) by (nonlinear_arith);
}

proof fn lemma_tail_sum_support(p1: Seq<u32>, p2: Seq<u32>, k: int)
    requires
        0 <= k,
        same_support(p1, p2),
    ensures
        tail_sum(p1, k) == tail_sum(p2, k),
    decreases p1.len() + p2.len() - k,
{
    if k < p1.len() || k < p2.len() {
        lemma_tail_sum_support(p1, p2, k + 1);
        lemma_tail_step(p1, k);
        lemma_tail_step(p2, k);
        assert(pw(p1, k) == pw(p2, k));
    } else {
        assert(tail_sum(p1, k) == 0);
        assert(tail_sum(p2, k) == 0);
    }
}

proof fn lemma_flips_support(p1: Seq<u32>, p2: Seq<u32>, q: Seq<u32>, k: int)
    requires
        0 <= k,
        same_support(p1, p2),
    ensures
        flips_from(p1, q, k) == flips_from(p2, q, k),
    decreases q.len() - k,
{
    if k < q.len() {
        lemma_flips_support(p1, p2, q, k + 1);
        lemma_tail_sum_support(p1, p2, k + 1);
    }
}

/// The sign of a product depends on the left factor's support only.
pub proof fn lemma_sign_support(p1: Seq<u32>, p2: Seq<u32>, q: Seq<u32>)
    requires
        same_support(p1, p2),
    ensures
        sign_of(p1, q) == sign_of(p2, q),
{
    lemma_flips_support(p1, p2, q, 0);
}

proof fn lemma_flips_right_support(a: Seq<u32>, b1: Seq<u32>, b2: Seq<u32>, k: int)
    requires
        0 <= k,
        same_support(b1, b2),
    ensures
        flips_from(a, b1, k) == flips_from(a, b2, k),
    decreases b1.len() + b2.len() - k,
{
    if k < b1.len() || k < b2.len() {
        lemma_flips_right_support(a, b1, b2, k + 1);
        assert(pw(b1, k) == pw(b2, k));
    }
}

/// The sign of a product depends on the right factor's support only.
pub proof fn lemma_sign_right_support(a: Seq<u32>, b1: Seq<u32>, b2: Seq<u32>)
    requires
        same_support(b1, b2),
    ensures
        sign_of(a, b1) == sign_of(a, b2),
{
    lemma_flips_right_support(a, b1, b2, 0);
}

} // verus!
