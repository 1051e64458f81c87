//! Monomials of the odd polynomial ring and their signed multiplication.
use vstd::prelude::*;
use vstd::wrapping::i32_specs;

verus! {

/// The abstract content of a monomial: its coefficient and its exponent vector.
pub struct Term {
    pub coef: i32,
    pub powers: Seq<u32>,
}

/// Exponent of generator `i + 1`; zero beyond the stored vector.
pub open spec fn pw(p: Seq<u32>, i: int) -> int {
    if 0 <= i < p.len() {
        p[i] as int
    } else {
        0
    }
}

/// Two exponent vectors have the same support when they agree after zero padding.
pub open spec fn same_support(a: Seq<u32>, b: Seq<u32>) -> bool {
    forall|i: int| #![trigger pw(a, i)] #![trigger pw(b, i)] pw(a, i) == pw(b, i)
}

/// `p` extended with zeros to length at least `k`.
pub open spec fn padded(p: Seq<u32>, k: int) -> Seq<u32> {
    if p.len() >= k {
        p
    } else {
        p + Seq::new((k - p.len()) as nat, |_i: int| 0u32)
    }
}

/// Sign change of a coefficient in two's complement (the minimum maps to itself).
pub open spec fn negated(c: i32) -> i32 {
    if c == i32::MIN {
        c
    } else {
        (-c) as i32
    }
}

/// Sum of the exponents at positions `k` and above.
pub open spec fn tail_sum(a: Seq<u32>, k: int) -> int
    decreases a.len() - k,
{
    if k >= a.len() {
        0
    } else {
        pw(a, k) + tail_sum(a, k + 1)
    }
}

/// Number of positions `i >= k` where `b` has an odd exponent and `a` has an
/// odd total exponent strictly to the right of `i`.
pub open spec fn flips_from(a: Seq<u32>, b: Seq<u32>, k: int) -> int
    decreases b.len() - k,
{
    if k >= b.len() {
        0
    } else {
        (if pw(b, k) % 2 == 1 && tail_sum(a, k + 1) % 2 == 1 {
            1int
        } else {
            0int
        }) + flips_from(a, b, k + 1)
    }
}

/// Exponent vector of a product: the zero-padded sum.
pub open spec fn sum_powers(a: Seq<u32>, b: Seq<u32>) -> Seq<u32> {
    let len = if a.len() >= b.len() {
        a.len()
    } else {
        b.len()
    };
    Seq::new(len, |i: int| (pw(a, i) + pw(b, i)) as u32)
}

/// Exponent sums of a product fit in `u32`.
pub open spec fn powers_fit(a: Seq<u32>, b: Seq<u32>) -> bool {
    forall|i: int| #![trigger pw(a, i)] #![trigger pw(b, i)] pw(a, i) + pw(b, i) <= u32::MAX
}

/// The signed product of two monomials: exponents add, coefficients multiply
/// (wrapping), and the sign flips once per crossing of odd exponents.
pub open spec fn mono_mul(a: Term, b: Term) -> Term {
    let c = i32_specs::wrapping_mul(a.coef, b.coef);
    Term {
        coef: if flips_from(a.powers, b.powers, 0) % 2 == 1 {
            negated(c)
        } else {
            c
        },
        powers: sum_powers(a.powers, b.powers),
    }
}

/// The single generator `x_n`.
pub open spec fn generator(n: int) -> Term {
    Term { coef: 1, powers: Seq::new(n as nat, |i: int| if i == n - 1 { 1u32 } else { 0u32 }) }
}

/// Swap of generators `n` and `n + 1`, with a sign when their exponents have odd sum.
pub open spec fn ss_spec(m: Term, n: int) -> Term {
    let p = padded(m.powers, n + 1);
    Term {
        coef: if (p[n - 1] + p[n]) % 2 == 1 {
            negated(m.coef)
        } else {
            m.coef
        },
        powers: p.update(n - 1, p[n]).update(n, p[n - 1]),
    }
}

/// Sign change when generator `n` has an odd exponent.
pub open spec fn sb_spec(m: Term, n: int) -> Term {
    let p = padded(m.powers, n);
    Term {
        coef: if p[n - 1] % 2 == 1 {
            negated(m.coef)
        } else {
            m.coef
        },
        powers: p,
    }
}

/// Swap of generators `n - 1` and `n`, without a sign.
pub open spec fn sd_spec(m: Term, n: int) -> Term {
    let p = padded(m.powers, n + 1);
    Term { coef: m.coef, powers: p.update(n - 2, p[n - 1]).update(n - 1, p[n - 2]) }
}

/// An odd monomial: a coefficient times a product of generator powers.
#[derive(Clone, Debug)]
pub struct OddMonomial {
    /// The coefficient of the monomial.
    pub coefficient: i32,
    /// The power of each generator, in ascending order.
    pub powers: Vec<u32>,
}

impl View for OddMonomial {
    type V = Term;

    open spec fn view(&self) -> Term {
        Term { coef: self.coefficient, powers: self.powers@ }
    }
}

/// `c` with its sign changed, wrapping at the minimum.
pub fn negate(c: i32) -> (r: i32)
    ensures
        r == negated(c),
{
    if c == i32::MIN {
        c
    } else {
        -c
    }
}

/// The exponent at position `i`, or zero past the end.
pub fn power_at(p: &Vec<u32>, i: usize) -> (r: u32)
    ensures
        r == pw(p@, i as int),
{
    if i < p.len() {
        p[i]
    } else {
        0
    }
}

/// A copy of `p` padded with zeros to length at least `k`.
pub fn padded_powers(p: &Vec<u32>, k: usize) -> (r: Vec<u32>)
    ensures
        r@ == padded(p@, k as int),
{
    let mut r: Vec<u32> = Vec::new();
    let mut i: usize = 0;
    while i < p.len()
        invariant
            i <= p.len(),
            r@ == p@.subrange(0, i as int),
        decreases p.len() - i,
    {
        r.push(p[i]);
        i += 1;
        assert(r@ =~= p@.subrange(0, i as int));
    }
    assert(r@ =~= p@);
    while r.len() < k
        invariant
            r.len() >= p.len(),
            r.len() <= k || r.len() == p.len(),
            r@ =~= p@ + Seq::new((r.len() - p.len()) as nat, |_i: int| 0u32),
        decreases k - r.len(),
    {
        r.push(0);
    }
    if p.len() >= k {
        assert(r@ =~= p@);
    } else {
        assert(r@ =~= padded(p@, k as int));
    }
    r
}

/// A copy of `p` padded with zeros to length at least `k + 1`.
pub fn padded_powers_past(p: &Vec<u32>, k: usize) -> (r: Vec<u32>)
    ensures
        r@ == padded(p@, k + 1),
{
    let mut r = padded_powers(p, k);
    if r.len() == k {
        r.push(0);
        assert(r@ =~= padded(p@, k + 1));
    }
    r
}

/// Parity of the total exponent at positions `k` and above.
fn tail_parity(a: &Vec<u32>, k: usize) -> (odd: bool)
    ensures
        odd == (tail_sum(a@, k as int) % 2 == 1),
{
    let mut j: usize = a.len();
    let mut odd = false;
    if k >= a.len() {
        return false;
    }
    while j > k
        invariant
            k <= j <= a.len(),
            odd == (tail_sum(a@, j as int) % 2 == 1),
        decreases j,
    {
        j -= 1;
        odd = odd != (a[j] % 2 == 1);
    }
    odd
}

impl OddMonomial {
    pub fn new(coefficient: i32, powers: Vec<u32>) -> (r: OddMonomial)
        ensures
            r@ == (Term { coef: coefficient, powers: powers@ }),
    {
        OddMonomial { coefficient, powers }
    }

    /// The single generator `x_n`.
    pub fn x(n: u32) -> (r: OddMonomial)
        requires
            n >= 1,
        ensures
            r@ == generator(n as int),
    {
        let mut powers: Vec<u32> = Vec::new();
        let mut i: u32 = 0;
        while i < n - 1
            invariant
                i <= n - 1,
                powers@ =~= Seq::new(i as nat, |_j: int| 0u32),
            decreases n - 1 - i,
        {
            powers.push(0);
            i += 1;
        }
        powers.push(1);
        assert(powers@ =~= generator(n as int).powers);
        OddMonomial { coefficient: 1, powers }
    }

    pub fn is_zero(&self) -> (r: bool)
        ensures
            r == (self.coefficient == 0),
    {
        self.coefficient == 0
    }

    /// A copy whose view equals this one's.
    pub fn duplicate(&self) -> (r: OddMonomial)
        ensures
            r@ == self@,
    {
        let powers = self.powers.clone();
        assert(powers@ =~= self.powers@);
        OddMonomial { coefficient: self.coefficient, powers }
    }

    /// Signed swap of generators `n` and `n + 1`.
    pub fn ss(&self, n: u32) -> (r: OddMonomial)
        requires
            n >= 1,
        ensures
            r@ == ss_spec(self@, n as int),
    {
        let k = n as usize;
        let mut powers = padded_powers_past(&self.powers, k);
        let a = powers[k - 1];
        let b = powers[k];
        let coefficient = if a % 2 != b % 2 {
            negate(self.coefficient)
        } else {
            self.coefficient
        };
        powers.set(k - 1, b);
        powers.set(k, a);
        OddMonomial { coefficient, powers }
    }

    /// Sign change when generator `n` has an odd exponent.
    pub fn sb(&self, n: u32) -> (r: OddMonomial)
        requires
            n >= 1,
        ensures
            r@ == sb_spec(self@, n as int),
    {
        let k = n as usize;
        let powers = padded_powers(&self.powers, k);
        let coefficient = if powers[k - 1] % 2 == 1 {
            negate(self.coefficient)
        } else {
            self.coefficient
        };
        OddMonomial { coefficient, powers }
    }

    /// Unsigned swap of generators `n - 1` and `n`.
    pub fn sd(&self, n: u32) -> (r: OddMonomial)
        requires
            n >= 2,
        ensures
            r@ == sd_spec(self@, n as int),
    {
        let k = n as usize;
        let mut powers = padded_powers_past(&self.powers, k);
        let a = powers[k - 2];
        let b = powers[k - 1];
        powers.set(k - 2, b);
        powers.set(k - 1, a);
        OddMonomial { coefficient: self.coefficient, powers }
    }

    /// Whether the exponent sums of `self * other` fit in `u32`.
    pub fn powers_fit_with(&self, other: &OddMonomial) -> (r: bool)
        ensures
            r == powers_fit(self@.powers, other@.powers),
    {
        let n = if self.powers.len() >= other.powers.len() {
            self.powers.len()
        } else {
            other.powers.len()
        };
        let mut i: usize = 0;
        while i < n
            invariant
                i <= n,
                n >= self.powers@.len(),
                n >= other.powers@.len(),
                forall|j: int|
                    #![trigger pw(self.powers@, j)]
                    0 <= j < i ==> pw(self.powers@, j) + pw(other.powers@, j) <= u32::MAX,
            decreases n - i,
        {
            let a = power_at(&self.powers, i);
            let b = power_at(&other.powers, i);
            if a as u64 + b as u64 > u32::MAX as u64 {
                return false;
            }
            i += 1;
        }
        assert forall|j: int| #![trigger pw(self@.powers, j)] #![trigger pw(other@.powers, j)]
            pw(self@.powers, j) + pw(other@.powers, j) <= u32::MAX by {
            if 0 <= j < n {
            }
        }
        true
    }

    /// The signed product `self * other`.
    pub fn mul(&self, other: &OddMonomial) -> (r: OddMonomial)
        requires
            powers_fit(self@.powers, other@.powers),
        ensures
            r@ == mono_mul(self@, other@),
    {
        let ghost a = self.powers@;
        let ghost b = other.powers@;
        let mut powers = padded_powers(&self.powers, other.powers.len());
        let product = self.coefficient.wrapping_mul(other.coefficient);
        let mut flip = false;
        let mut rest_odd = tail_parity(&self.powers, 1);
        let mut i: usize = 0;
        while i < other.powers.len()
            invariant
                i <= b.len(),
                a == self.powers@,
                b == other.powers@,
                powers_fit(a, b),
                powers@.len() == if a.len() >= b.len() { a.len() } else { b.len() },
                forall|j: int|
                    0 <= j < powers@.len() ==> #[trigger] powers@[j] == if j < i {
                        pw(a, j) + pw(b, j)
                    } else {
                        pw(a, j)
                    },
                flip == ((flips_from(a, b, 0) - flips_from(a, b, i as int)) % 2 == 1),
                rest_odd == (tail_sum(a, i + 1) % 2 == 1),
            decreases b.len() - i,
        {
            let p = other.powers[i];
            assert(pw(a, i as int) + pw(b, i as int) <= u32::MAX);
            let cur = powers[i];
            powers.set(i, cur + p);
            if rest_odd && p % 2 == 1 {
                flip = !flip;
            }
            let next = power_at(&self.powers, i + 1);
            rest_odd = rest_odd != (next % 2 == 1);
            i += 1;
        }
        let coefficient = if flip {
            negate(product)
        } else {
            product
        };
        let r = OddMonomial { coefficient, powers };
        assert(r@.powers =~= mono_mul(self@, other@).powers);
        r
    }
}

} // verus!
