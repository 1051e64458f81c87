//! Reading polynomials and operator lists from text, and writing polynomials as text.
use vstd::prelude::*;
use vstd::string::StringSliceAdditionalSpecFns;

use crate::error::PolyError;
use crate::monomial::{OddMonomial, Term};
use crate::operators::{all_operable, apply_poly, Family};
use crate::polynomial::{add_term, equivalent, has_term, well_formed, OddPolynomial};
use crate::monomial::{pw, same_support};

verus! {

/// ASCII whitespace: space, tab, line feed, vertical tab, form feed, carriage
/// return. Words are split at these after every other whitespace character has
/// been replaced by a space (see `normalized`).
pub open spec fn is_space(b: u8) -> bool {
    b == 32 || (9 <= b <= 13)
}

/// Width in bytes of the whitespace character that UTF-8 text `s` starts with,
/// or 0. The whitespace characters are those of `char::is_whitespace`: ASCII
/// tab, line feed, vertical tab, form feed, carriage return and space, and
/// U+0085, U+00A0, U+1680, U+2000 to U+200A, U+2028, U+2029, U+202F, U+205F and
/// U+3000, here in their UTF-8 encodings.
pub open spec fn space_width(s: Seq<u8>) -> int {
    if s.len() >= 1 && is_space(s[0]) {
        1
    } else if s.len() >= 2 && s[0] == 0xC2 && (s[1] == 0x85 || s[1] == 0xA0) {
        2
    } else if s.len() >= 3 && s[0] == 0xE1 && s[1] == 0x9A && s[2] == 0x80 {
        3
    } else if s.len() >= 3 && s[0] == 0xE2 && s[1] == 0x80 && ((0x80 <= s[2] <= 0x8A) || s[2]
        == 0xA8 || s[2] == 0xA9 || s[2] == 0xAF) {
        3
    } else if s.len() >= 3 && s[0] == 0xE2 && s[1] == 0x81 && s[2] == 0x9F {
        3
    } else if s.len() >= 3 && s[0] == 0xE3 && s[1] == 0x80 && s[2] == 0x80 {
        3
    } else {
        0
    }
}

/// `s` with each whitespace character replaced by one ASCII space. Lead bytes
/// of multi-byte characters never occur inside another character, so in valid
/// UTF-8 a match is always a whole character.
pub open spec fn normalized(s: Seq<u8>) -> Seq<u8>
    decreases s.len(),
{
    if s.len() == 0 {
        Seq::empty()
    } else if space_width(s) > 0 {
        seq![32u8] + normalized(s.skip(space_width(s)))
    } else {
        seq![s[0]] + normalized(s.skip(1))
    }
}

pub open spec fn byte_views(vs: Seq<Vec<u8>>) -> Seq<Seq<u8>> {
    vs.map_values(|v: Vec<u8>| v@)
}

/// The pieces of `s` between occurrences of `c` (one more piece than separators).
pub open spec fn split_sep(s: Seq<u8>, c: u8) -> Seq<Seq<u8>>
    decreases s.len(),
{
    if s.len() == 0 {
        seq![Seq::empty()]
    } else {
        let rest = split_sep(s.drop_last(), c);
        if s.last() == c {
            rest.push(Seq::empty())
        } else {
            rest.update(rest.len() - 1, rest.last().push(s.last()))
        }
    }
}

/// The finished words and the word in progress after reading `s`.
pub open spec fn words_state(s: Seq<u8>) -> (Seq<Seq<u8>>, Seq<u8>)
    decreases s.len(),
{
    if s.len() == 0 {
        (Seq::empty(), Seq::empty())
    } else {
        let (done, cur) = words_state(s.drop_last());
        if is_space(s.last()) {
            if cur.len() > 0 {
                (done.push(cur), Seq::empty())
            } else {
                (done, cur)
            }
        } else {
            (done, cur.push(s.last()))
        }
    }
}

/// The maximal runs of bytes of `s` other than ASCII whitespace, in order.
pub open spec fn ascii_words(s: Seq<u8>) -> Seq<Seq<u8>> {
    let (done, cur) = words_state(s);
    if cur.len() > 0 {
        done.push(cur)
    } else {
        done
    }
}

/// The whitespace-separated words of UTF-8 text `s`, in order.
pub open spec fn words(s: Seq<u8>) -> Seq<Seq<u8>> {
    ascii_words(normalized(s))
}

pub open spec fn is_digit(b: u8) -> bool {
    48 <= b <= 57
}

pub open spec fn all_digits(s: Seq<u8>) -> bool {
    forall|i: int| 0 <= i < s.len() ==> is_digit(#[trigger] s[i])
}

/// The number written by a string of decimal digits.
pub open spec fn digits_value(s: Seq<u8>) -> nat
    decreases s.len(),
{
    if s.len() == 0 {
        0
    } else {
        digits_value(s.drop_last()) * 10 + (s.last() - 48) as nat
    }
}

/// A nonempty run of digits whose value is at most `limit`.
pub open spec fn bounded_digits(s: Seq<u8>, limit: int) -> Option<int> {
    if s.len() > 0 && all_digits(s) && digits_value(s) <= limit {
        Some(digits_value(s) as int)
    } else {
        None
    }
}

/// A `u32` in decimal, with an optional leading `+`.
pub open spec fn parse_u32(s: Seq<u8>) -> Option<int> {
    if s.len() > 0 && s[0] == 43 {
        bounded_digits(s.drop_first(), u32::MAX as int)
    } else {
        bounded_digits(s, u32::MAX as int)
    }
}

/// An `i32` in decimal, with an optional leading `+` or `-`.
pub open spec fn parse_i32(s: Seq<u8>) -> Option<int> {
    if s.len() > 0 && s[0] == 45 {
        match bounded_digits(s.drop_first(), 0x8000_0000) {
            Some(v) => Some(-v),
            None => None,
        }
    } else if s.len() > 0 && s[0] == 43 {
        bounded_digits(s.drop_first(), i32::MAX as int)
    } else {
        bounded_digits(s, i32::MAX as int)
    }
}

/// Exponents read from words, if every word is a `u32`.
pub open spec fn parse_powers(ws: Seq<Seq<u8>>) -> Option<Seq<u32>>
    decreases ws.len(),
{
    if ws.len() == 0 {
        Some(Seq::empty())
    } else {
        match parse_powers(ws.drop_last()) {
            Some(ps) => match parse_u32(ws.last()) {
                Some(v) => Some(ps.push(v as u32)),
                None => None,
            },
            None => None,
        }
    }
}

/// A term: its coefficient, then its exponents, separated by whitespace.
pub open spec fn parse_term(s: Seq<u8>) -> Result<Term, PolyError> {
    let ws = words(s);
    if ws.len() == 0 {
        Err(PolyError::InvalidCoefficient)
    } else {
        match parse_i32(ws[0]) {
            None => Err(PolyError::InvalidCoefficient),
            Some(c) => match parse_powers(ws.drop_first()) {
                None => Err(PolyError::InvalidPower),
                Some(ps) => Ok(Term { coef: c as i32, powers: ps }),
            },
        }
    }
}

/// Terms read in order and merged into the zero polynomial; the first bad term decides the error.
pub open spec fn parse_pieces(pieces: Seq<Seq<u8>>) -> Result<Seq<Term>, PolyError>
    decreases pieces.len(),
{
    if pieces.len() == 0 {
        Ok(Seq::empty())
    } else {
        match parse_pieces(pieces.drop_last()) {
            Err(e) => Err(e),
            Ok(acc) => match parse_term(pieces.last()) {
                Err(e) => Err(e),
                Ok(t) => Ok(add_term(acc, t)),
            },
        }
    }
}

/// A polynomial: terms separated by `/`.
pub open spec fn parse_text(s: Seq<u8>) -> Result<Seq<Term>, PolyError> {
    parse_pieces(split_sep(s, 47))
}

pub proof fn lemma_digits_prefix(s: Seq<u8>, k: int)
    requires
        0 <= k <= s.len(),
    ensures
        digits_value(s.take(k)) <= digits_value(s),
    decreases s.len(),
{
    if k < s.len() {
        assert(s.drop_last().take(k) =~= s.take(k));
        lemma_digits_prefix(s.drop_last(), k);
    } else {
        assert(s.take(k) =~= s);
    }
}

/// Splits `s` at every byte equal to `c`.
pub fn split_bytes(s: &[u8], c: u8) -> (r: Vec<Vec<u8>>)
    ensures
        byte_views(r@) == split_sep(s@, c),
{
    let mut parts: Vec<Vec<u8>> = Vec::new();
    parts.push(Vec::new());
    assert(byte_views(parts@) =~= split_sep(s@.take(0), c));
    let mut i: usize = 0;
    while i < s.len()
        invariant
            i <= s@.len(),
            parts@.len() >= 1,
            byte_views(parts@) == split_sep(s@.take(i as int), c),
        decreases s@.len() - i,
    {
        let b = s[i];
        let ghost before = byte_views(parts@);
        assert(s@.take(i + 1).drop_last() =~= s@.take(i as int));
        if b == c {
            parts.push(Vec::new());
            assert(byte_views(parts@) =~= before.push(Seq::empty()));
        } else {
            let mut last = parts.pop().unwrap();
            last.push(b);
            parts.push(last);
            assert(byte_views(parts@) =~= before.update(before.len() - 1, before.last().push(b)));
        }
        i += 1;
    }
    assert(s@.take(i as int) =~= s@);
    parts
}

/// Width of the whitespace character at position `i`, or 0.
fn space_width_at(s: &[u8], i: usize) -> (r: usize)
    requires
        i <= s@.len(),
    ensures
        r == space_width(s@.skip(i as int)),
{
    let n = s.len() - i;
    if n >= 1 && (s[i] == 32 || (9 <= s[i] && s[i] <= 13)) {
        1
    } else if n >= 2 && s[i] == 0xC2 && (s[i + 1] == 0x85 || s[i + 1] == 0xA0) {
        2
    } else if n >= 3 && s[i] == 0xE1 && s[i + 1] == 0x9A && s[i + 2] == 0x80 {
        3
    } else if n >= 3 && s[i] == 0xE2 && s[i + 1] == 0x80 && ((0x80 <= s[i + 2] && s[i + 2]
        <= 0x8A) || s[i + 2] == 0xA8 || s[i + 2] == 0xA9 || s[i + 2] == 0xAF) {
        3
    } else if n >= 3 && s[i] == 0xE2 && s[i + 1] == 0x81 && s[i + 2] == 0x9F {
        3
    } else if n >= 3 && s[i] == 0xE3 && s[i + 1] == 0x80 && s[i + 2] == 0x80 {
        3
    } else {
        0
    }
}

/// A copy of `s` with each whitespace character replaced by one ASCII space.
pub fn normalize_spaces(s: &[u8]) -> (r: Vec<u8>)
    ensures
        r@ == normalized(s@),
{
    let mut out: Vec<u8> = Vec::new();
    let mut i: usize = 0;
    assert(s@.skip(0) =~= s@);
    while i < s.len()
        invariant
            i <= s@.len(),
            out@ + normalized(s@.skip(i as int)) == normalized(s@),
        decreases s@.len() - i,
    {
        let ghost before = out@;
        let ghost rest = s@.skip(i as int);
        let w = space_width_at(s, i);
        if w > 0 {
            out.push(32);
            assert(rest.skip(w as int) =~= s@.skip(i + w));
            i += w;
        } else {
            out.push(s[i]);
            assert(rest.skip(1) =~= s@.skip(i + 1));
            i += 1;
        }
        assert(out@ + normalized(s@.skip(i as int)) =~= before + normalized(rest));
    }
    assert(s@.skip(i as int) =~= Seq::<u8>::empty());
    assert(out@ + normalized(s@.skip(i as int)) =~= out@);
    out
}

/// The whitespace-separated words of UTF-8 text `s`.
pub fn split_words(s: &[u8]) -> (r: Vec<Vec<u8>>)
    ensures
        byte_views(r@) == words(s@),
{
    let t = normalize_spaces(s);
    split_ascii_words(t.as_slice())
}

/// The words of `s` between ASCII whitespace.
fn split_ascii_words(s: &[u8]) -> (r: Vec<Vec<u8>>)
    ensures
        byte_views(r@) == ascii_words(s@),
{
    let mut done: Vec<Vec<u8>> = Vec::new();
    let mut cur: Vec<u8> = Vec::new();
    assert(byte_views(done@) =~= Seq::<Seq<u8>>::empty());
    assert(s@.take(0) =~= Seq::<u8>::empty());
    let mut i: usize = 0;
    while i < s.len()
        invariant
            i <= s@.len(),
            (byte_views(done@), cur@) == words_state(s@.take(i as int)),
        decreases s@.len() - i,
    {
        let b = s[i];
        let ghost before = byte_views(done@);
        assert(s@.take(i + 1).drop_last() =~= s@.take(i as int));
        if b == 32 || (9 <= b && b <= 13) {
            if cur.len() > 0 {
                let ghost c = cur@;
                done.push(cur);
                cur = Vec::new();
                assert(byte_views(done@) =~= before.push(c));
                assert(cur@ =~= Seq::<u8>::empty());
            }
        } else {
            cur.push(b);
        }
        i += 1;
    }
    assert(s@.take(i as int) =~= s@);
    if cur.len() > 0 {
        let ghost before = byte_views(done@);
        let ghost c = cur@;
        done.push(cur);
        assert(byte_views(done@) =~= before.push(c));
    }
    done
}

/// The digits of `s` from `start` on, when they are a nonempty run of digits
/// whose value is at most `limit`.
fn read_digits(s: &Vec<u8>, start: usize, limit: u64) -> (r: Option<u64>)
    requires
        start <= s@.len(),
        limit <= 0x8000_0000u64 * 2,
    ensures
        r matches Some(v) ==> bounded_digits(s@.skip(start as int), limit as int) == Some(v as int),
        r is None ==> bounded_digits(s@.skip(start as int), limit as int) is None,
{
    let ghost t = s@.skip(start as int);
    if start >= s.len() {
        return None;
    }
    let mut acc: u64 = 0;
    let mut i: usize = start;
    while i < s.len()
        invariant
            start <= i <= s@.len(),
            t == s@.skip(start as int),
            limit <= 0x8000_0000u64 * 2,
            all_digits(t.take(i - start)),
            acc == digits_value(t.take(i - start)),
            acc <= limit,
        decreases s@.len() - i,
    {
        let b = s[i];
        assert(t.take(i - start + 1).drop_last() =~= t.take(i - start));
        if b < 48 || b > 57 {
            assert(!is_digit(t[i - start]));
            return None;
        }
        acc = acc * 10 + (b - 48) as u64;
        i += 1;
        if acc > limit {
            proof {
                if all_digits(t) {
                    lemma_digits_prefix(t, i - start);
                }
            }
            return None;
        }
    }
    assert(t.take(i - start) =~= t);
    Some(acc)
}

/// Reads a `u32` written in decimal.
pub fn read_u32(s: &Vec<u8>) -> (r: Option<u32>)
    ensures
        r matches Some(v) ==> parse_u32(s@) == Some(v as int),
        r is None ==> parse_u32(s@) is None,
{
    let start: usize = if s.len() > 0 && s[0] == 43 {
        1
    } else {
        0
    };
    assert(s@.skip(1) =~= s@.drop_first());
    assert(s@.skip(0) =~= s@);
    match read_digits(s, start, u32::MAX as u64) {
        Some(v) => Some(v as u32),
        None => None,
    }
}

/// Reads an `i32` written in decimal.
pub fn read_i32(s: &Vec<u8>) -> (r: Option<i32>)
    ensures
        r matches Some(v) ==> parse_i32(s@) == Some(v as int),
        r is None ==> parse_i32(s@) is None,
{
    assert(s@.skip(1) =~= s@.drop_first());
    assert(s@.skip(0) =~= s@);
    if s.len() > 0 && s[0] == 45 {
        match read_digits(s, 1, 0x8000_0000) {
            Some(v) => Some((0 - (v as i64)) as i32),
            None => None,
        }
    } else {
        let start: usize = if s.len() > 0 && s[0] == 43 {
            1
        } else {
            0
        };
        match read_digits(s, start, i32::MAX as u64) {
            Some(v) => Some(v as i32),
            None => None,
        }
    }
}

/// Reads one term: a coefficient and its exponents.
pub fn read_term(s: &[u8]) -> (r: Result<OddMonomial, PolyError>)
    ensures
        r matches Ok(m) ==> parse_term(s@) == Ok::<Term, PolyError>(m@),
        r matches Err(e) ==> parse_term(s@) == Err::<Term, PolyError>(e),
{
    let ws = split_words(s);
    let ghost wv = byte_views(ws@);
    if ws.len() == 0 {
        return Err(PolyError::InvalidCoefficient);
    }
    let coefficient = match read_i32(&ws[0]) {
        Some(c) => c,
        None => {
            return Err(PolyError::InvalidCoefficient);
        },
    };
    assert(wv[0] == ws@[0]@);
    assert(parse_i32(wv[0]) == Some(coefficient as int));
    let mut powers: Vec<u32> = Vec::new();
    let mut i: usize = 1;
    assert(wv.drop_first().take(0) =~= Seq::<Seq<u8>>::empty());
    while i < ws.len()
        invariant
            1 <= i <= ws@.len(),
            wv == byte_views(ws@),
            parse_powers(wv.drop_first().take(i - 1)) == Some(powers@),
            parse_i32(wv[0]) == Some(coefficient as int),
            wv == words(s@),
        decreases ws@.len() - i,
    {
        assert(wv.drop_first().take(i as int).drop_last() =~= wv.drop_first().take(i - 1));
        assert(wv.drop_first().take(i as int).last() == ws@[i as int]@);
        match read_u32(&ws[i]) {
            Some(v) => powers.push(v),
            None => {
                proof {
                    let pre = wv.drop_first().take(i as int);
                    assert(parse_u32(pre.last()) is None);
                    assert(parse_powers(pre) is None);
                    lemma_parse_powers_none(wv.drop_first(), i as int);
                    assert(ws@.len() > 0);
                }
                return Err(PolyError::InvalidPower);
            },
        }
        i += 1;
    }
    assert(wv.drop_first().take(i - 1) =~= wv.drop_first());
    Ok(OddMonomial::new(coefficient, powers))
}

/// Once a prefix of words fails to read, the whole list fails.
proof fn lemma_parse_powers_none(ws: Seq<Seq<u8>>, k: int)
    requires
        0 <= k <= ws.len(),
        parse_powers(ws.take(k)) is None,
    ensures
        parse_powers(ws) is None,
    decreases ws.len() - k,
{
    if k < ws.len() {
        assert(ws.take(k + 1).drop_last() =~= ws.take(k));
        lemma_parse_powers_none(ws, k + 1);
    } else {
        assert(ws.take(k) =~= ws);
    }
}

/// Once a prefix of pieces fails to read, the whole list fails with the same error.
proof fn lemma_parse_pieces_err(ps: Seq<Seq<u8>>, k: int, e: PolyError)
    requires
        0 <= k <= ps.len(),
        parse_pieces(ps.take(k)) == Err::<Seq<Term>, PolyError>(e),
    ensures
        parse_pieces(ps) == Err::<Seq<Term>, PolyError>(e),
    decreases ps.len() - k,
{
    if k < ps.len() {
        assert(ps.take(k + 1).drop_last() =~= ps.take(k));
        lemma_parse_pieces_err(ps, k + 1, e);
    } else {
        assert(ps.take(k) =~= ps);
    }
}

impl OddPolynomial {
    /// Reads a polynomial: terms separated by `/`, each a coefficient followed by
    /// the exponents of the generators in ascending order.
    pub fn parse(input: &str) -> (r: Result<OddPolynomial, PolyError>)
        ensures
            r matches Ok(p) ==> parse_text(input.spec_bytes()) == Ok::<Seq<Term>, PolyError>(p@)
                && well_formed(p@),
            r matches Err(e) ==> parse_text(input.spec_bytes()) == Err::<Seq<Term>, PolyError>(e),
    {
        let bytes = input.as_bytes();
        let pieces = split_bytes(bytes, 47);
        let ghost pv = byte_views(pieces@);
        let mut poly = OddPolynomial::new();
        let mut i: usize = 0;
        assert(pv.take(0) =~= Seq::<Seq<u8>>::empty());
        while i < pieces.len()
            invariant
                i <= pieces@.len(),
                pv == byte_views(pieces@),
                pv == split_sep(input.spec_bytes(), 47),
                parse_pieces(pv.take(i as int)) == Ok::<Seq<Term>, PolyError>(poly@),
                well_formed(poly@),
            decreases pieces@.len() - i,
        {
            assert(pv.take(i + 1).drop_last() =~= pv.take(i as int));
            assert(pv.take(i + 1).last() == pieces@[i as int]@);
            match read_term(pieces[i].as_slice()) {
                Ok(m) => poly.add_monomial(&m),
                Err(e) => {
                    proof {
                        lemma_parse_pieces_err(pv, i + 1, e);
                    }
                    return Err(e);
                },
            }
            i += 1;
        }
        assert(pv.take(i as int) =~= pv);
        Ok(poly)
    }
}

/// Decimal digits of `n`.
pub open spec fn decimal(n: nat) -> Seq<u8>
    decreases n,
{
    if n < 10 {
        seq![(48 + n) as u8]
    } else {
        decimal(n / 10).push((48 + n % 10) as u8)
    }
}

/// The magnitude of a coefficient.
pub open spec fn magnitude(c: i32) -> nat {
    if c < 0 {
        (-c) as nat
    } else {
        c as nat
    }
}

/// Index of the last nonzero exponent below `k`, or -1.
pub open spec fn last_nonzero(p: Seq<u32>, k: int) -> int
    decreases k,
{
    if k <= 0 {
        -1
    } else if p[k - 1] != 0 {
        k - 1
    } else {
        last_nonzero(p, k - 1)
    }
}

/// `x_{i+1}^e`.
pub open spec fn factor_text(i: int, e: u32) -> Seq<u8> {
    seq![120u8, 95u8] + decimal((i + 1) as nat) + seq![94u8] + decimal(e as nat)
}

/// The factors with a nonzero exponent below position `k`, each followed by a space.
pub open spec fn factors_text(p: Seq<u32>, k: int) -> Seq<u8>
    decreases k,
{
    if k <= 0 {
        Seq::empty()
    } else if p[k - 1] != 0 {
        factors_text(p, k - 1) + factor_text(k - 1, p[k - 1]) + seq![32u8]
    } else {
        factors_text(p, k - 1)
    }
}

/// A term without its sign: the magnitude (left out when it is one and a factor
/// follows), then the factors with nonzero exponents.
pub open spec fn term_text(t: Term) -> Seq<u8> {
    let pos = last_nonzero(t.powers, t.powers.len() as int);
    if t.coef == 0 {
        seq![48u8]
    } else if pos < 0 {
        decimal(magnitude(t.coef))
    } else {
        (if magnitude(t.coef) == 1 {
            Seq::empty()
        } else {
            decimal(magnitude(t.coef))
        }) + factors_text(t.powers, pos) + factor_text(pos, t.powers[pos])
    }
}

/// The first `k` terms: the first with a leading `-` when negative, the others
/// joined by ` + ` or ` - `.
pub open spec fn terms_text(ts: Seq<Term>, k: int) -> Seq<u8>
    decreases k,
{
    if k <= 0 {
        Seq::empty()
    } else if k == 1 {
        (if ts[0].coef < 0 {
            seq![45u8]
        } else {
            Seq::empty()
        }) + term_text(ts[0])
    } else {
        terms_text(ts, k - 1) + (if ts[k - 1].coef < 0 {
            seq![32u8, 45u8, 32u8]
        } else {
            seq![32u8, 43u8, 32u8]
        }) + term_text(ts[k - 1])
    }
}

/// A polynomial as text; `0` for the zero polynomial.
pub open spec fn poly_text(ts: Seq<Term>) -> Seq<u8> {
    if ts.len() == 0 {
        seq![48u8]
    } else {
        terms_text(ts, ts.len() as int)
    }
}

/// Appends the decimal digits of `n`.
pub fn push_decimal(out: &mut Vec<u8>, n: u64)
    ensures
        final(out)@ == old(out)@ + decimal(n as nat),
    decreases n,
{
    if n >= 10 {
        push_decimal(out, n / 10);
    }
    let ghost before = out@;
    out.push((48 + n % 10) as u8);
    assert(out@ =~= old(out)@ + decimal(n as nat));
}

fn push_factor(out: &mut Vec<u8>, i: usize, e: u32)
    requires
        i < u32::MAX,
    ensures
        final(out)@ == old(out)@ + factor_text(i as int, e),
{
    out.push(120);
    out.push(95);
    push_decimal(out, i as u64 + 1);
    out.push(94);
    push_decimal(out, e as u64);
    assert(out@ =~= old(out)@ + factor_text(i as int, e));
}

fn magnitude_of(c: i32) -> (r: u64)
    ensures
        r == magnitude(c),
{
    if c < 0 {
        (0 - (c as i64)) as u64
    } else {
        c as u64
    }
}

impl OddMonomial {
    /// Appends this term without its sign.
    pub fn push_text(&self, out: &mut Vec<u8>)
        requires
            self@.powers.len() <= u32::MAX,
        ensures
            final(out)@ == old(out)@ + term_text(self@),
    {
        let ghost t = self@;
        if self.coefficient == 0 {
            out.push(48);
            assert(out@ =~= old(out)@ + term_text(t));
            return;
        }
        let mut pos: usize = self.powers.len();
        while pos > 0 && self.powers[pos - 1] == 0
            invariant
                pos <= t.powers.len(),
                t == self@,
                last_nonzero(t.powers, t.powers.len() as int) == last_nonzero(t.powers, pos as int),
            decreases pos,
        {
            pos -= 1;
        }
        let mag = magnitude_of(self.coefficient);
        if pos == 0 {
            push_decimal(out, mag);
            return;
        }
        let last = pos - 1;
        let ghost start = out@;
        if mag != 1 {
            push_decimal(out, mag);
        }
        let ghost head = out@;
        let mut i: usize = 0;
        while i < last
            invariant
                i <= last,
                last < t.powers.len(),
                t == self@,
                t.powers.len() <= u32::MAX,
                out@ == head + factors_text(t.powers, i as int),
            decreases last - i,
        {
            let e = self.powers[i];
            if e != 0 {
                push_factor(out, i, e);
                out.push(32);
            }
            assert(out@ =~= head + factors_text(t.powers, i + 1));
            i += 1;
        }
        push_factor(out, last, self.powers[last]);
        assert(out@ =~= old(out)@ + term_text(t));
    }
}

impl OddPolynomial {
    /// The polynomial as ASCII text.
    pub fn to_bytes(&self) -> (r: Vec<u8>)
        requires
            forall|i: int| 0 <= i < self@.len() ==> (#[trigger] self@[i]).powers.len() <= u32::MAX,
        ensures
            r@ == poly_text(self@),
    {
        let mut out: Vec<u8> = Vec::new();
        if self.len() == 0 {
            out.push(48);
            assert(out@ =~= seq![48u8]);
            return out;
        }
        let mut i: usize = 0;
        while i < self.len()
            invariant
                i <= self@.len(),
                forall|k: int| 0 <= k < self@.len() ==> (#[trigger] self@[k]).powers.len() <= u32::MAX,
                out@ == terms_text(self@, i as int),
            decreases self@.len() - i,
        {
            let t = self.term(i);
            let ghost before = out@;
            if i == 0 {
                if t.coefficient < 0 {
                    out.push(45);
                }
                assert(out@ =~= before + (if self@[0].coef < 0 {
                    seq![45u8]
                } else {
                    Seq::<u8>::empty()
                }));
            } else if t.coefficient < 0 {
                out.push(32);
                out.push(45);
                out.push(32);
                assert(out@ =~= before + seq![32u8, 45u8, 32u8]);
            } else {
                out.push(32);
                out.push(43);
                out.push(32);
                assert(out@ =~= before + seq![32u8, 43u8, 32u8]);
            }
            let ghost mid = out@;
            t.push_text(&mut out);
            assert(out@ =~= terms_text(self@, i + 1));
            i += 1;
        }
        out
    }
}

/// One operator word (`s3`, `b1`, `d2`) applied to `p`: the strand index is
/// read first, then the symbol and the family's minimum strand are checked.
pub open spec fn apply_word(w: Seq<u8>, p: Seq<Term>) -> Result<Seq<Term>, PolyError> {
    match parse_u32(w.drop_first()) {
        None => Err(PolyError::InvalidOperatorNumber),
        Some(k) => {
            let f = if w[0] == 115 {
                Some(Family::Simple)
            } else if w[0] == 98 {
                Some(Family::Boundary)
            } else if w[0] == 100 {
                Some(Family::Difference)
            } else {
                None
            };
            match f {
                None => Err(PolyError::UnknownOperator),
                Some(f) => if !crate::operators::strand_ok(f, k) {
                    Err(PolyError::InvalidStrand)
                } else if !all_operable(p) {
                    Err(PolyError::ExponentOverflow)
                } else {
                    Ok(apply_poly(f, p, k))
                },
            }
        },
    }
}

/// The words applied from the last to the first.
pub open spec fn apply_words(ws: Seq<Seq<u8>>, p: Seq<Term>) -> Result<Seq<Term>, PolyError>
    decreases ws.len(),
{
    if ws.len() == 0 {
        Ok(p)
    } else {
        match apply_word(ws.last(), p) {
            Err(e) => Err(e),
            Ok(q) => apply_words(ws.drop_last(), q),
        }
    }
}

fn apply_operator_word(w: &Vec<u8>, p: &OddPolynomial) -> (r: Result<OddPolynomial, PolyError>)
    requires
        w@.len() > 0,
    ensures
        r matches Ok(q) ==> apply_word(w@, p@) == Ok::<Seq<Term>, PolyError>(q@) && well_formed(q@),
        r matches Err(e) ==> apply_word(w@, p@) == Err::<Seq<Term>, PolyError>(e),
{
    let mut digits: Vec<u8> = Vec::new();
    let mut i: usize = 1;
    while i < w.len()
        invariant
            1 <= i <= w@.len(),
            digits@ == w@.subrange(1, i as int),
        decreases w@.len() - i,
    {
        digits.push(w[i]);
        i += 1;
        assert(digits@ =~= w@.subrange(1, i as int));
    }
    assert(digits@ =~= w@.drop_first());
    let k = match read_u32(&digits) {
        Some(k) => k,
        None => {
            return Err(PolyError::InvalidOperatorNumber);
        },
    };
    let f = if w[0] == 115 {
        Family::Simple
    } else if w[0] == 98 {
        Family::Boundary
    } else if w[0] == 100 {
        Family::Difference
    } else {
        return Err(PolyError::UnknownOperator);
    };
    let minimum: u32 = match f {
        Family::Difference => 2,
        _ => 1,
    };
    if k < minimum {
        return Err(PolyError::InvalidStrand);
    }
    if !p.is_operable() {
        return Err(PolyError::ExponentOverflow);
    }
    Ok(p.apply(f, k))
}

/// Applies whitespace-separated operators such as `s1 d2` to `poly`, the last
/// one first, as operators compose.
pub fn apply_operators(ops: &str, poly: &OddPolynomial) -> (r: Result<OddPolynomial, PolyError>)
    ensures
        r matches Ok(q) ==> apply_words(words(ops.spec_bytes()), poly@) == Ok::<Seq<Term>, PolyError>(q@),
        r matches Err(e) ==> apply_words(words(ops.spec_bytes()), poly@) == Err::<Seq<Term>, PolyError>(e),
{
    let ws = split_words(ops.as_bytes());
    let ghost wv = byte_views(ws@);
    proof {
        lemma_words_nonempty(ops.spec_bytes());
    }
    let mut cur = poly.duplicate();
    let mut i: usize = ws.len();
    assert(wv.take(i as int) =~= wv);
    while i > 0
        invariant
            i <= ws@.len(),
            wv == byte_views(ws@),
            wv == words(ops.spec_bytes()),
            forall|j: int| 0 <= j < wv.len() ==> (#[trigger] wv[j]).len() > 0,
            apply_words(wv, poly@) == apply_words(wv.take(i as int), cur@),
        decreases i,
    {
        i -= 1;
        assert(wv.take(i + 1).drop_last() =~= wv.take(i as int));
        assert(wv.take(i + 1).last() == ws@[i as int]@);
        assert(wv[i as int].len() > 0);
        match apply_operator_word(&ws[i], &cur) {
            Ok(q) => {
                cur = q;
            },
            Err(e) => {
                return Err(e);
            },
        }
    }
    assert(wv.take(0) =~= Seq::<Seq<u8>>::empty());
    Ok(cur)
}

/// Words are never empty.
pub proof fn lemma_words_nonempty(s: Seq<u8>)
    ensures
        forall|j: int| 0 <= j < words(s).len() ==> (#[trigger] words(s)[j]).len() > 0,
{
    lemma_words_state_nonempty(normalized(s));
}

proof fn lemma_words_state_nonempty(s: Seq<u8>)
    ensures
        forall|j: int|
            0 <= j < words_state(s).0.len() ==> (#[trigger] words_state(s).0[j]).len() > 0,
    decreases s.len(),
{
    if s.len() > 0 {
        lemma_words_state_nonempty(s.drop_last());
        let prev = words_state(s.drop_last());
        let d = words_state(s).0;
        assert forall|j: int| 0 <= j < d.len() implies (#[trigger] d[j]).len() > 0 by {
            if j < prev.0.len() {
                assert(d[j] == prev.0[j]);
            }
        }
    }
}

proof fn lemma_decimal(n: nat)
    ensures
        decimal(n).len() > 0,
        all_digits(decimal(n)),
        digits_value(decimal(n)) == n,
    decreases n,
{
    if n >= 10 {
        lemma_decimal(n / 10);
        let d = decimal(n);
        assert(d.drop_last() =~= decimal(n / 10));
        assert forall|i: int| 0 <= i < d.len() implies is_digit(#[trigger] d[i]) by {
            if i < d.len() - 1 {
                assert(d[i] == decimal(n / 10)[i]);
            }
        }
        vstd::arithmetic::div_mod::lemma_fundamental_div_mod(n as int, 10);
        assert(d.last() == (48 + n % 10) as u8);
        assert(((n / 10) as int) * 10 == 10 * ((n / 10) as int)) by (nonlinear_arith);
        assert(digits_value(d) == digits_value(d.drop_last()) * 10 + (d.last() - 48) as nat);
        assert(digits_value(d.drop_last()) == n / 10);
        assert((d.last() - 48) as nat == n % 10);
    } else {
        let d = decimal(n);
        assert(d.drop_last() =~= Seq::<u8>::empty());
        assert(digits_value(d) == digits_value(d.drop_last()) * 10 + (d.last() - 48) as nat);
    }
}

/// Text without whitespace is a single word.
proof fn lemma_one_word(s: Seq<u8>)
    requires
        forall|i: int| 0 <= i < s.len() ==> !is_space(#[trigger] s[i]),
    ensures
        words_state(s) == (Seq::<Seq<u8>>::empty(), s),
    decreases s.len(),
{
    if s.len() > 0 {
        lemma_one_word(s.drop_last());
        assert(s.drop_last().push(s.last()) =~= s);
    } else {
        assert(s =~= Seq::<u8>::empty());
    }
}

/// Text without `c` is a single piece.
proof fn lemma_one_piece(s: Seq<u8>, c: u8)
    requires
        forall|i: int| 0 <= i < s.len() ==> #[trigger] s[i] != c,
    ensures
        split_sep(s, c) == seq![s],
    decreases s.len(),
{
    if s.len() > 0 {
        lemma_one_piece(s.drop_last(), c);
        assert(s.drop_last().push(s.last()) =~= s);
        assert(seq![s.drop_last()].update(0, s.drop_last().push(s.last())) =~= seq![s]);
    } else {
        assert(s =~= Seq::<u8>::empty());
    }
}

/// Reading back the text of a constant polynomial (every term has only zero
/// exponents) gives an equivalent polynomial. Text of other polynomials writes
/// factors such as `x_1^2`, which the term syntax does not read.
pub proof fn lemma_constant_round_trip(p: Seq<Term>)
    requires
        well_formed(p),
        forall|i: int| 0 <= i < p.len() ==> same_support(#[trigger] p[i].powers, Seq::empty()),
    ensures
        parse_text(poly_text(p)) matches Ok(q) && equivalent(q, p),
{
    let txt = poly_text(p);
    let (sign, m): (Seq<u8>, nat) = if p.len() == 0 {
        (Seq::empty(), 0)
    } else if p[0].coef < 0 {
        (seq![45u8], magnitude(p[0].coef))
    } else {
        (Seq::empty(), magnitude(p[0].coef))
    };
    if p.len() > 1 {
        assert(same_support(p[0].powers, p[1].powers)) by {
            assert forall|i: int| #![trigger pw(p[0].powers, i)] #![trigger pw(p[1].powers, i)]
                pw(p[0].powers, i) == pw(p[1].powers, i) by {
                assert(pw(p[0].powers, i) == pw(Seq::<u32>::empty(), i));
                assert(pw(p[1].powers, i) == pw(Seq::<u32>::empty(), i));
            }
        }
    }
    if p.len() == 1 {
        let t = p[0];
        assert(last_nonzero(t.powers, t.powers.len() as int) < 0) by {
            assert forall|k: int| 0 <= k <= t.powers.len() implies last_nonzero(t.powers, k) < 0 by {
                lemma_last_nonzero_none(t, k);
            }
        }
    }
    lemma_decimal(m);
    let d = decimal(m);
    assert(txt =~= sign + d);
    assert forall|i: int| 0 <= i < txt.len() implies !is_space(#[trigger] txt[i]) && txt[i] != 47
        && (is_digit(txt[i]) || txt[i] == 45) by {
        if i >= sign.len() {
            assert(txt[i] == d[i - sign.len()]);
            assert(is_digit(d[i - sign.len()]));
        }
    }
    lemma_one_piece(txt, 47);
    lemma_normalized_plain(txt);
    lemma_one_word(txt);
    assert(words(txt) =~= seq![txt]);
    assert(seq![txt].drop_first() =~= Seq::<Seq<u8>>::empty());
    assert(seq![txt].drop_last() =~= Seq::<Seq<u8>>::empty());
    if sign.len() > 0 {
        assert(txt.drop_first() =~= d);
    } else {
        assert(txt =~= d);
        assert(is_digit(d[0]));
    }
    let c: i32 = if p.len() == 0 { 0 } else { p[0].coef };
    assert(parse_i32(txt) == Some(c as int));
    let t = Term { coef: c, powers: Seq::empty() };
    assert(parse_term(txt) == Ok::<Term, PolyError>(t));
    let q = add_term(Seq::empty(), t);
    assert(seq![txt].last() == txt);
    assert(parse_pieces(seq![txt].drop_last()) == Ok::<Seq<Term>, PolyError>(Seq::empty()));
    assert(parse_pieces(seq![txt]) == Ok::<Seq<Term>, PolyError>(q));
    assert(parse_text(txt) == Ok::<Seq<Term>, PolyError>(q));
    if p.len() == 1 {
        assert(q =~= seq![t]);
        assert(same_support(q[0].powers, p[0].powers)) by {
            assert forall|i: int| #![trigger pw(q[0].powers, i)] #![trigger pw(p[0].powers, i)]
                pw(q[0].powers, i) == pw(p[0].powers, i) by {
                assert(pw(p[0].powers, i) == pw(Seq::<u32>::empty(), i));
            }
        }
        assert(has_term(p, q[0]));
    } else {
        assert(q =~= Seq::<Term>::empty());
    }
}

proof fn lemma_last_nonzero_none(t: Term, k: int)
    requires
        0 <= k <= t.powers.len(),
        same_support(t.powers, Seq::empty()),
    ensures
        last_nonzero(t.powers, k) < 0,
    decreases k,
{
    if k > 0 {
        assert(pw(t.powers, k - 1) == pw(Seq::<u32>::empty(), k - 1));
        lemma_last_nonzero_none(t, k - 1);
    }
}

/// Digits and minus signs contain no whitespace.
proof fn lemma_normalized_plain(s: Seq<u8>)
    requires
        forall|i: int| 0 <= i < s.len() ==> is_digit(#[trigger] s[i]) || s[i] == 45,
    ensures
        normalized(s) == s,
    decreases s.len(),
{
    if s.len() > 0 {
        assert(space_width(s) == 0);
        let t = s.skip(1);
        assert forall|i: int| 0 <= i < t.len() implies is_digit(#[trigger] t[i]) || t[i] == 45 by {
            assert(t[i] == s[i + 1]);
        }
        lemma_normalized_plain(t);
        assert(seq![s[0]] + t =~= s);
    } else {
        assert(s =~= Seq::<u8>::empty());
    }
}

} // verus!
