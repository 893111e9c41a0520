use poly::monomial::Monomial;
use poly::parser::ParserErr;
use std::cmp::Ordering;

#[test]
fn test_ordering_same_term_ignores_coefficient() {
    // 6x and 5x are the same term
    let a = Monomial::from_parts(5, 1, 0, 0);
    let b = Monomial::from_parts(6, 1, 0, 0);
    assert_eq!(a.cmp_terms(&b), Ordering::Equal);
}

#[test]
fn test_ordering_b() {
    // xy > x^2
    let a = Monomial::from_parts(1, 1, 1, 0);
    let b = Monomial::from_parts(1, 2, 0, 0);
    assert_eq!(a.cmp_terms(&b), Ordering::Greater);
}

#[test]
fn test_ordering_c() {
    // y^2 > xy
    let a = Monomial::from_parts(1, 0, 2, 0);
    let b = Monomial::from_parts(1, 1, 1, 0);
    assert_eq!(a.cmp_terms(&b), Ordering::Greater);
}

#[test]
fn test_ordering_d() {
    // y^2 > xz
    let a = Monomial::from_parts(1, 0, 2, 0);
    let b = Monomial::from_parts(1, 1, 0, 1);
    assert_eq!(a.cmp_terms(&b), Ordering::Greater);
}

#[test]
fn test_ordering_e() {
    // yz > xz
    let a = Monomial::from_parts(1, 0, 1, 1);
    let b = Monomial::from_parts(1, 1, 0, 1);
    assert_eq!(a.cmp_terms(&b), Ordering::Greater);
}

#[test]
fn test_ordering_f() {
    // z^2 > yz
    let a = Monomial::from_parts(1, 0, 0, 2);
    let b = Monomial::from_parts(1, 0, 1, 1);
    assert_eq!(a.cmp_terms(&b), Ordering::Greater);
}

#[test]
fn test_ordering_g() {
    // x^2yz^3 > x^5y
    let a = Monomial::from_parts(1, 2, 1, 3);
    let b = Monomial::from_parts(1, 5, 1, 0);
    assert_eq!(a.cmp_terms(&b), Ordering::Greater);
}

#[test]
fn test_ordering_h() {
    // x^2y > x^3
    let a = Monomial::from_parts(1, 2, 1, 0);
    let b = Monomial::from_parts(1, 3, 0, 0);
    assert_eq!(a.cmp_terms(&b), Ordering::Greater);
}

#[test]
fn test_ordering_m() {
    // x^2 < x
    let a = Monomial::from_parts(1, 2, 0, 0);
    let b = Monomial::from_parts(1, 1, 0, 0);
    assert_eq!(a.cmp_terms(&b), Ordering::Less);
}

#[test]
fn test_ordering_n() {
    // x^2y^2 < x^3
    let a = Monomial::from_parts(1, 2, 2, 0);
    let b = Monomial::from_parts(1, 3, 0, 0);
    assert_eq!(a.cmp_terms(&b), Ordering::Less);
}

#[test]
fn test_ordering_totality_scenario() {
    // for two distinct terms, the two directions disagree and equality
    // holds only of the same term
    let a = Monomial::from_parts(1, 1, 2, 0);
    let b = Monomial::from_parts(1, 2, 1, 0);
    assert_eq!(a.cmp_terms(&b), Ordering::Greater);
    assert_eq!(b.cmp_terms(&a), Ordering::Less);
    assert_eq!(a.cmp_terms(&a), Ordering::Equal);
}

#[test]
fn test_new_is_identity() {
    let m = Monomial::new();
    assert_eq!(m.coefficient, 1);
    assert_eq!(m.degree(), 0);
    assert_eq!(m.power(0), 0);
    assert_eq!(m.power(1), 0);
    assert_eq!(m.power(2), 0);
    assert_eq!(m.power(7), 0);
}

#[test]
fn test_degree_and_power() {
    let m = Monomial::from_parts(3, 2, 1, 5);
    assert_eq!(m.degree(), 8);
    assert_eq!(m.power(0), 2);
    assert_eq!(m.power(1), 1);
    assert_eq!(m.power(2), 5);
    assert_eq!(m.power(3), 0);
}

#[test]
fn test_monomial_mul() {
    let a = Monomial::from_parts(2, 1, 0, 2);
    let b = Monomial::from_parts(3, 0, 4, 1);
    let c = a.mul_monomial(&b);
    assert_eq!(c.coefficient, 6);
    assert_eq!(c.power(0), 1);
    assert_eq!(c.power(1), 4);
    assert_eq!(c.power(2), 3);
}

#[test]
fn test_monomial_mul_zero_collapses_powers() {
    let a = Monomial::from_parts(0, 1, 2, 3);
    let b = Monomial::from_parts(5, 4, 5, 6);
    let c = a.mul_monomial(&b);
    assert_eq!(c.coefficient, 0);
    assert_eq!(c.power(0), 0);
    assert_eq!(c.power(1), 0);
    assert_eq!(c.power(2), 0);
    assert_eq!(c.degree(), 0);
}

#[test]
fn test_monomial_negate() {
    let a = Monomial::from_parts(1, 1, 1, 1);
    let res = a.scale(-1);
    assert_eq!(res.coefficient, -1);
    assert_eq!(res.degree(), 3);
    assert_eq!(res.power(0), 1);
    assert_eq!(res.power(1), 1);
    assert_eq!(res.power(2), 1);
}

#[test]
fn test_monomial_display() {
    let m = Monomial::from_parts(5, 1, 0, 1);
    assert_eq!(m.expr().as_str(), "5xz");
}

#[test]
fn test_monomial_display_one() {
    let m = Monomial::from_parts(1, 1, 1, 0);
    assert_eq!(m.expr().as_str(), "xy");
}

#[test]
fn test_monomial_display_negative() {
    let m = Monomial::from_parts(-4, 1, 0, 0);
    assert_eq!(m.expr().as_str(), "-4x");
}

#[test]
fn test_monomial_display_negative_one() {
    let m = Monomial::from_parts(-1, 1, 0, 0);
    assert_eq!(m.expr().as_str(), "-x");
}

#[test]
fn test_monomial_display_empty() {
    let m = Monomial::from_parts(1, 0, 0, 0);
    assert_eq!(m.expr().as_str(), "1");
}

#[test]
fn test_monomial_display_powers() {
    let m = Monomial::from_parts(12, 3, 1, 10);
    assert_eq!(m.expr().as_str(), "12x^3yz^10");
    assert_eq!(m.term_expr().as_str(), "x^3yz^10");
}

#[test]
fn test_monomial_from_str() {
    let m = Monomial::from("3x^2yz^5").unwrap();
    assert_eq!(m.coefficient, 3);
    assert_eq!(m.degree(), 8);
    assert_eq!(m.power(0), 2);
    assert_eq!(m.power(1), 1);
    assert_eq!(m.power(2), 5);
}

#[test]
fn test_monomial_from_single_vars() {
    let x = Monomial::from("x").unwrap();
    assert_eq!(x.coefficient, 1);
    assert_eq!(x.power(0), 1);
    assert_eq!(x.degree(), 1);
    let y = Monomial::from("y").unwrap();
    assert_eq!(y.power(1), 1);
    let z = Monomial::from("z").unwrap();
    assert_eq!(z.power(2), 1);
}

#[test]
fn test_monomial_from_overwrites_repeated_variable() {
    // a repeated variable overwrites, it does not accumulate
    let m = Monomial::from("x^2x^3").unwrap();
    assert_eq!(m.power(0), 3);
    assert_eq!(m.degree(), 3);
}

#[test]
fn test_monomial_from_decimal_is_rejected() {
    let res = Monomial::from("3.5x");
    assert!(matches!(res, Err(ParserErr::InvalidSyntax(_))));
}

#[test]
fn test_duplicate_is_independent() {
    let a = Monomial::from_parts(7, 1, 2, 3);
    let b = a.duplicate();
    assert_eq!(b.coefficient, 7);
    assert_eq!(b.power(0), 1);
    assert_eq!(b.power(1), 2);
    assert_eq!(b.power(2), 3);
}

#[test]
fn test_monomial_display_large_coefficient() {
    let m = Monomial::from_parts(12345678901234, 1, 0, 0);
    assert_eq!(m.expr().as_str(), "12345678901234x");
}

#[test]
fn test_monomial_display_most_negative_coefficient() {
    let m = Monomial::from_parts(i64::MIN, 1, 0, 0);
    assert_eq!(m.expr().as_str(), "-9223372036854775808x");
}
