use poly::polynomial::Polynomial;
use poly::rational::RationalPoly;

#[test]
fn test_rational_poly_expr() {
    let numer = Polynomial::from("x^3 + x").unwrap();
    let denom = Polynomial::from("x + 1").unwrap();
    let rational = RationalPoly::new(numer, denom);
    assert_eq!(rational.expr().as_str(), "(x^3 + x)/(x + 1)");
}

#[test]
fn test_rational_poly_zero_denominator_is_kept_literally() {
    let numer = Polynomial::from("x").unwrap();
    let denom = Polynomial::new();
    let rational = RationalPoly::new(numer, denom);
    assert_eq!(rational.expr().as_str(), "(x)/()");
}
