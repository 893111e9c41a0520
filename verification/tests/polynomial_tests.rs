use poly::monomial::Monomial;
use poly::polynomial::Polynomial;

fn poly_of(expr: &str) -> Polynomial {
    Polynomial::from(expr).unwrap()
}

#[test]
fn test_insert_monomial() {
    let mut polynomial = Polynomial::new();
    polynomial.insert_monomial(Monomial::from_parts(1, 2, 0, 0));
    assert_eq!(polynomial.monomials.len(), 1);
    assert_eq!(polynomial.monomials[0].coefficient, 1);
    assert_eq!(polynomial.monomials[0].power(0), 2);
}

#[test]
fn test_insert_monomial_sorts() {
    let mut polynomial = Polynomial::new();
    polynomial.insert_monomial(Monomial::from_parts(1, 2, 0, 0));
    polynomial.insert_monomial(Monomial::from_parts(3, 1, 1, 1));
    // the degree-3 term sorts first
    assert_eq!(polynomial.monomials[0].coefficient, 3);
    assert_eq!(polynomial.monomials[0].power(0), 1);
    assert_eq!(polynomial.monomials[0].power(1), 1);
    assert_eq!(polynomial.monomials[0].power(2), 1);
    assert_eq!(polynomial.monomials[1].coefficient, 1);
}

#[test]
fn test_insert_monomial_drops_duplicate_term() {
    // insertion without merging: a second entry for the same term is
    // dropped, its coefficient ignored
    let mut polynomial = Polynomial::new();
    polynomial.insert_monomial(Monomial::from_parts(1, 2, 0, 0));
    polynomial.insert_monomial(Monomial::from_parts(3, 2, 0, 0));
    assert_eq!(polynomial.monomials.len(), 1);
    assert_eq!(polynomial.monomials[0].coefficient, 1);
}

#[test]
fn test_add_monomial_merges_like_terms() {
    let mut polynomial = Polynomial::new();
    polynomial.add_monomial(Monomial::from_parts(1, 2, 0, 0));
    polynomial.add_monomial(Monomial::from_parts(3, 2, 0, 0));
    assert_eq!(polynomial.monomials.len(), 1);
    assert_eq!(polynomial.monomials[0].coefficient, 4);
}

#[test]
fn test_polynomial_from_str_merges() {
    let polynomial = poly_of("2x + y + z + 2x + y + y + y + z");
    assert_eq!(polynomial.monomials.len(), 3);
    assert_eq!(polynomial.expr().as_str(), "4x + 4y + 2z");
    assert_eq!(polynomial.monomials[0].coefficient, 4);
    assert_eq!(polynomial.monomials[1].coefficient, 4);
    assert_eq!(polynomial.monomials[2].coefficient, 2);
    assert_eq!(polynomial.monomials[0].expr().as_str(), "4x");
    assert_eq!(polynomial.monomials[1].expr().as_str(), "4y");
    assert_eq!(polynomial.monomials[2].expr().as_str(), "2z");
}

#[test]
fn test_polynomial_from_str_multivariate() {
    let polynomial = poly_of("2xyz + yzx + zxy + xy");
    assert_eq!(polynomial.monomials.len(), 2);
    assert_eq!(polynomial.expr().as_str(), "4xyz + xy");
    assert_eq!(polynomial.monomials[0].coefficient, 4);
    assert_eq!(polynomial.monomials[1].coefficient, 1);
}

#[test]
fn test_addition() {
    // (5x^2 + 6y^2) + 7y^2
    let a = poly_of("5x^2 + 6y^2");
    let b = poly_of("7y^2");
    let sum = b.add(&a);
    assert_eq!(sum.monomials.len(), 2);
    assert_eq!(sum.expr().as_str(), "5x^2 + 13y^2");
}

#[test]
fn test_addition_like_terms() {
    let a = poly_of("x^4 + x^3 + x^2");
    let b = poly_of("x^2");
    let sum = a.add(&b);
    assert_eq!(sum.monomials.len(), 3);
    assert_eq!(sum.expr().as_str(), "x^4 + x^3 + 2x^2");
}

#[test]
fn test_subtraction() {
    let a = poly_of("5x^2 + 6y^2");
    let b = poly_of("7y^2");
    let diff = a.sub(&b);
    assert_eq!(diff.monomials.len(), 2);
    assert_eq!(diff.expr().as_str(), "5x^2 - y^2");
}

#[test]
fn test_subtraction_cancels_but_keeps_term() {
    // cancellation leaves a zero-coefficient entry in the sequence;
    // only rendering hides it
    let a = poly_of("x^4 + x^3 + x^2");
    let b = poly_of("x^2");
    let diff = a.sub(&b);
    assert_eq!(diff.monomials.len(), 3);
    assert_eq!(diff.monomials[2].coefficient, 0);
    assert_eq!(diff.expr().as_str(), "x^4 + x^3");
}

#[test]
fn test_subtraction_inserts_negated() {
    let a = poly_of("5x^2 + 6y^2");
    let b = poly_of("5z^2");
    let diff = a.sub(&b);
    assert_eq!(diff.expr().as_str(), "5x^2 + 6y^2 - 5z^2");
    assert_eq!(diff.monomials[2].coefficient, -5);
}

#[test]
fn test_mul() {
    let a = poly_of("5x^2 + 6y^2");
    let b = poly_of("7y^2");
    let prod = a.mul(&b);
    assert_eq!(prod.expr().as_str(), "35x^2y^2 + 42y^4");
}

#[test]
fn test_scale() {
    let mut a = poly_of("5x^2 + 6y^2");
    a.scale(4);
    assert_eq!(a.expr().as_str(), "20x^2 + 24y^2");
}

#[test]
fn test_scale_by_zero_keeps_terms_hides_rendering() {
    let mut a = poly_of("5x^2 + 6y^2");
    a.scale(0);
    assert_eq!(a.monomials.len(), 2);
    assert_eq!(a.expr().as_str(), "");
}

#[test]
fn test_pow_1() {
    let linear = poly_of("x + 2");
    assert_eq!(linear.pow(1).expr().as_str(), "x + 2");
}

#[test]
fn test_pow_2() {
    let linear = poly_of("x + 2");
    assert_eq!(linear.pow(2).expr().as_str(), "x^2 + 4x + 4");
}

#[test]
fn test_pow_3() {
    let linear = poly_of("x + 2");
    assert_eq!(linear.pow(3).expr().as_str(), "x^3 + 6x^2 + 12x + 8");
}

#[test]
fn test_pow_0_leaves_polynomial() {
    // pow itself does n-1 self-multiplications; zero behaves like one
    let linear = poly_of("x + 2");
    assert_eq!(linear.pow(0).expr().as_str(), "x + 2");
}

#[test]
fn test_empty_polynomial_renders_empty() {
    let p = Polynomial::new();
    assert_eq!(p.monomials.len(), 0);
    assert_eq!(p.expr().as_str(), "");
}

#[test]
fn test_constant_renders_coefficient() {
    let p = poly_of("5");
    assert_eq!(p.expr().as_str(), "5");
    let one = poly_of("1");
    assert_eq!(one.expr().as_str(), "1");
}

#[test]
fn test_leading_negative_term() {
    let p = poly_of("0 - x^3");
    assert_eq!(p.expr().as_str(), "-x^3");
}

#[test]
fn test_duplicate_polynomial() {
    let a = poly_of("x^2 + 3y");
    let b = a.duplicate();
    assert_eq!(b.expr().as_str(), a.expr().as_str());
}

#[test]
fn test_coefficient_addition_wraps() {
    // coefficients are machine integers with two's-complement wrapping
    let mut p = Polynomial::new();
    p.add_monomial(Monomial::from_parts(i64::MAX, 1, 0, 0));
    p.add_monomial(Monomial::from_parts(1, 1, 0, 0));
    assert_eq!(p.monomials[0].coefficient, i64::MIN);
}
