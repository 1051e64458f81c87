use nilhecke::closure::closure;
use nilhecke::error::PolyError;
use nilhecke::text::apply_operators;
use nilhecke::{OddMonomial, OddPolynomial};

fn text(p: &OddPolynomial) -> String {
    String::from_utf8(p.to_bytes()).unwrap()
}

fn mono(c: i32, powers: Vec<u32>) -> OddMonomial {
    OddMonomial::new(c, powers)
}

fn poly(s: &str) -> OddPolynomial {
    OddPolynomial::parse(s).unwrap()
}

#[test]
fn it_works() {}

#[test]
fn generator_has_single_unit_power() {
    let x = OddMonomial::x(3);
    assert_eq!(x.coefficient, 1);
    assert_eq!(x.powers, vec![0, 0, 1]);
}

#[test]
fn is_zero_checks_coefficient() {
    assert!(mono(0, vec![1, 2]).is_zero());
    assert!(!mono(-1, vec![]).is_zero());
}

#[test]
fn x1_times_x2_is_minus_x2_times_x1() {
    let x1 = OddMonomial::x(1);
    let x2 = OddMonomial::x(2);
    let a = x1.mul(&x2);
    let b = x2.mul(&x1);
    assert_eq!(a.powers, vec![1, 1]);
    assert_eq!(b.powers, vec![1, 1]);
    assert_eq!(a.coefficient, 1);
    assert_eq!(b.coefficient, -1);
}

#[test]
fn even_exponents_commute() {
    let a = mono(2, vec![0, 2]);
    let b = mono(3, vec![1]);
    assert_eq!(a.mul(&b).coefficient, 6);
    assert_eq!(b.mul(&a).coefficient, 6);
}

#[test]
fn monomial_product_is_associative_on_example() {
    let a = mono(1, vec![1, 1]);
    let b = mono(2, vec![0, 1, 1]);
    let c = mono(-1, vec![1, 0, 1]);
    let left = a.mul(&b).mul(&c);
    let right = a.mul(&b.mul(&c));
    assert_eq!(left.powers, right.powers);
    assert_eq!(left.coefficient, right.coefficient);
}

#[test]
fn ss_swaps_with_sign() {
    let m = mono(5, vec![1]).ss(1);
    assert_eq!(m.powers, vec![0, 1]);
    assert_eq!(m.coefficient, -5);
    let e = mono(5, vec![1, 1]).ss(1);
    assert_eq!(e.powers, vec![1, 1]);
    assert_eq!(e.coefficient, 5);
}

#[test]
fn sb_sign_only() {
    let m = mono(4, vec![0, 3]).sb(2);
    assert_eq!(m.powers, vec![0, 3]);
    assert_eq!(m.coefficient, -4);
    let p = mono(4, vec![]).sb(2);
    assert_eq!(p.powers, vec![0, 0]);
    assert_eq!(p.coefficient, 4);
}

#[test]
fn sd_swaps_without_sign() {
    let m = mono(-2, vec![1]).sd(2);
    assert_eq!(m.powers, vec![0, 1, 0]);
    assert_eq!(m.coefficient, -2);
}

#[test]
fn negating_minimum_wraps() {
    let m = mono(i32::MIN, vec![1]).ss(1);
    assert_eq!(m.coefficient, i32::MIN);
}

#[test]
fn from_zero_monomial_is_zero() {
    assert_eq!(OddPolynomial::from_monomial(mono(0, vec![1])).len(), 0);
    assert_eq!(OddPolynomial::from_monomial(mono(3, vec![1])).len(), 1);
}

#[test]
fn different_supports_do_not_merge() {
    let p = poly("1 1 0");
    let q = poly("1 0 1");
    let s = p.add(&q);
    assert_eq!(s.len(), 2);
    assert_eq!(text(&s), "x_1^1 + x_2^1");
}

#[test]
fn padded_supports_merge() {
    let p = poly("2 1");
    let q = poly("3 1 0 0");
    let s = p.add(&q);
    assert_eq!(s.len(), 1);
    assert_eq!(s.term(0).coefficient, 5);
    assert_eq!(s.term(0).powers, vec![1]);
}

#[test]
fn cancelling_terms_vanish() {
    let s = poly("2 1 1").add(&poly("-2 1 1"));
    assert_eq!(s.len(), 0);
    assert_eq!(text(&s), "0");
}

#[test]
fn add_monomial_merges_in_place() {
    let mut p = poly("1 1/1 0 1");
    p.add_monomial(&mono(4, vec![1, 0]));
    assert_eq!(text(&p), "5x_1^1 + x_2^1");
    p.add_monomial(&mono(0, vec![7]));
    assert_eq!(p.len(), 2);
}

#[test]
fn adding_zero_keeps_polynomial() {
    let p = poly("3 1 2/-1 0 1");
    let s = p.add(&OddPolynomial::new());
    assert!(s.same_as(&p));
    assert_eq!(text(&s), text(&p));
}

#[test]
fn zero_times_anything_is_zero() {
    let z = OddPolynomial::new();
    let p = poly("3 1 2/-1 0 1");
    assert_eq!(z.mul(&p).len(), 0);
    assert_eq!(p.mul(&z).len(), 0);
}

#[test]
fn product_of_binomials() {
    let p = poly("1 1/1 0 1");
    let q = p.mul(&p);
    // x1*x1 = x1^2, x1*x2 = x1x2, x2*x1 = -x1x2, x2*x2 = x2^2
    assert_eq!(text(&q), "x_1^2 + x_2^2");
}

#[test]
fn distributivity_on_example() {
    let p1 = poly("1 1/2 0 1");
    let p2 = poly("-1 0 1 1/3 2");
    let q = poly("1 0 1/1 1 1");
    let left = p1.add(&p2).mul(&q);
    let right = p1.mul(&q).add(&p2.mul(&q));
    assert!(left.same_as(&right));
}

#[test]
fn equality_ignores_order() {
    let a = poly("1 1/2 0 1");
    let b = poly("2 0 1/1 1");
    assert!(a.same_as(&b));
    assert!(!a.same_as(&poly("1 1/3 0 1")));
    assert!(!a.same_as(&poly("1 1")));
}

#[test]
fn parse_reports_errors() {
    assert!(matches!(OddPolynomial::parse("x 1"), Err(PolyError::InvalidCoefficient)));
    assert!(matches!(OddPolynomial::parse("1 1/"), Err(PolyError::InvalidCoefficient)));
    assert!(matches!(OddPolynomial::parse("1 -1"), Err(PolyError::InvalidPower)));
    assert!(matches!(OddPolynomial::parse("1 a/x"), Err(PolyError::InvalidPower)));
    assert!(matches!(OddPolynomial::parse("3000000000 1"), Err(PolyError::InvalidCoefficient)));
}

#[test]
fn parse_signs_and_limits() {
    let p = poly("-2147483648 +4294967295");
    assert_eq!(p.term(0).coefficient, i32::MIN);
    assert_eq!(p.term(0).powers, vec![u32::MAX]);
    assert_eq!(poly("+7").term(0).coefficient, 7);
}

#[test]
fn format_examples() {
    assert_eq!(text(&poly("-3 2 0 1")), "-3x_1^2 x_3^1");
    assert_eq!(text(&poly("5")), "5");
    assert_eq!(text(&poly("-5 0 0")), "-5");
    assert_eq!(text(&poly("1 1/-1 0 2/-7")), "x_1^1 - x_2^2 - 7");
}

#[test]
fn format_round_trip_of_constant() {
    let p = poly("-12");
    let again = poly(&text(&p));
    assert!(again.same_as(&p));
}

#[test]
fn ps_examples() {
    assert_eq!(text(&OddMonomial::x(1).ps(1)), "1");
    assert_eq!(text(&OddMonomial::x(2).ps(1)), "1");
    assert_eq!(text(&mono(1, vec![1, 1]).ps(1)), "0");
    assert_eq!(text(&mono(1, vec![2]).ps(1)), "x_1^1 - x_2^1");
    assert_eq!(text(&OddMonomial::x(3).ps(1)), "0");
}

#[test]
fn pb_examples() {
    assert_eq!(text(&OddMonomial::x(1).pb(1)), "1");
    assert_eq!(text(&mono(1, vec![2]).pb(1)), "0");
}

#[test]
fn pd_examples() {
    assert_eq!(text(&OddMonomial::x(1).pd(2)), "1");
    assert_eq!(text(&OddMonomial::x(2).pd(2)), "-1");
}

#[test]
fn operators_on_zero_are_zero() {
    let z = OddPolynomial::new();
    assert_eq!(z.ps(1).len(), 0);
    assert_eq!(z.pb(1).len(), 0);
    assert_eq!(z.pd(2).len(), 0);
}

#[test]
fn operators_are_linear_on_example() {
    let p1 = poly("1 2/3 1 1");
    let p2 = poly("-1 0 2/2 1 0 1");
    let sum = p1.add(&p2);
    assert!(sum.ps(1).same_as(&p1.ps(1).add(&p2.ps(1))));
    assert!(sum.pb(2).same_as(&p1.pb(2).add(&p2.pb(2))));
    assert!(sum.pd(2).same_as(&p1.pd(2).add(&p2.pd(2))));
}

#[test]
fn apply_operators_right_to_left() {
    let p = poly("1 2");
    assert_eq!(text(&apply_operators("s1", &p).unwrap()), "x_1^1 - x_2^1");
    assert_eq!(text(&apply_operators("d2 s1", &p).unwrap()), "2");
    assert!(matches!(apply_operators("s0", &p), Err(PolyError::InvalidStrand)));
    assert!(matches!(apply_operators("d1", &p), Err(PolyError::InvalidStrand)));
    assert!(matches!(apply_operators("q1", &p), Err(PolyError::UnknownOperator)));
    assert!(matches!(apply_operators("sx", &p), Err(PolyError::InvalidOperatorNumber)));
    assert!(apply_operators("", &p).unwrap().same_as(&p));
}

#[test]
fn exponent_overflow_is_reported() {
    let p = poly("1 4294967295 1");
    assert!(matches!(apply_operators("s1", &p), Err(PolyError::ExponentOverflow)));
}

#[test]
fn closure_of_x1_at_rank_two() {
    let seed = OddPolynomial::from_monomial(OddMonomial::x(1));
    let one = closure(&seed, 2, 1).unwrap();
    assert_eq!(one.len(), 2);
    assert!(one[0].same_as(&seed));
    assert_eq!(text(&one[1]), "1");
    let two = closure(&seed, 2, 2).unwrap();
    assert_eq!(two.len(), 3);
    assert_eq!(two[2].len(), 0);
    assert_eq!(closure(&seed, 2, 0).unwrap().len(), 1);
}

#[test]
fn try_mul_reports_exponent_overflow() {
    let p = poly("1 4294967295");
    assert!(p.try_mul(&poly("1 1")).is_none());
    assert_eq!(text(&p.try_mul(&poly("2 0 1")).unwrap()), "2x_1^4294967295 x_2^1");
}

#[test]
fn closure_rejects_small_rank() {
    let seed = OddPolynomial::from_monomial(OddMonomial::x(1));
    assert!(matches!(closure(&seed, 1, 3), Err(PolyError::InvalidStrand)));
}

#[test]
fn parse_splits_at_unicode_whitespace() {
    let p = poly("1\u{3000}1");
    assert_eq!(p.term(0).coefficient, 1);
    assert_eq!(p.term(0).powers, vec![1]);
    let q = poly("-4\u{a0}2\u{2003}3\u{85}\u{2028}0 / 1\u{1680}");
    assert_eq!(q.term(0).coefficient, -4);
    assert_eq!(q.term(0).powers, vec![2, 3, 0]);
    assert_eq!(q.term(1).coefficient, 1);
}

#[test]
fn other_non_ascii_is_not_whitespace() {
    assert!(matches!(OddPolynomial::parse("1\u{e9}1"), Err(PolyError::InvalidCoefficient)));
}

#[test]
fn apply_operators_splits_at_unicode_whitespace() {
    let p = poly("1 2");
    let a = apply_operators("s1\u{3000}d2", &p).unwrap();
    let b = apply_operators("s1 d2", &p).unwrap();
    assert!(a.same_as(&b));
}

#[test]
fn closure_applies_every_valid_strand() {
    let seed = OddPolynomial::from_monomial(OddMonomial::x(2));
    let set = closure(&seed, 3, 1).unwrap();
    assert_eq!(set.len(), 3);
    assert!(set[0].same_as(&seed));
    assert_eq!(text(&set[1]), "1");
    assert_eq!(text(&set[2]), "-1");
}

#[test]
fn closure_reports_exponent_overflow() {
    let seed = poly("1 4294967295 1");
    assert!(matches!(closure(&seed, 2, 1), Err(PolyError::ExponentOverflow)));
    assert_eq!(closure(&seed, 2, 0).unwrap().len(), 1);
}
