use poly::lexer::TokType;
use poly::parser::{Parser, ParserErr};

fn parse(expr: &str) -> Result<String, ParserErr> {
    let mut parser = Parser::parser_init(String::from(expr))?;
    let polynomial = parser.start_parser()?;
    Ok(String::from(polynomial.expr().as_str()))
}

fn parsed(expr: &str) -> String {
    parse(expr).unwrap()
}

#[test]
fn parser_monomial_run_simple() {
    let mut parser = Parser::parser_init(String::from("2x + y + z + 2x + y + y + y + z\n")).unwrap();
    let polynomial = parser.parse_polynomial().unwrap();
    assert_eq!(polynomial.monomials.len(), 3);
}

#[test]
fn parser_monomial_run_multivariate() {
    let mut parser =
        Parser::parser_init(String::from("2xyz + zyx+ zy + 2x + zy + x + yzx + yz\n")).unwrap();
    let polynomial = parser.parse_polynomial().unwrap();
    assert_eq!(polynomial.monomials.len(), 3);
    assert_eq!(polynomial.monomials[0].expr().as_str(), "4xyz");
    assert_eq!(polynomial.monomials[1].expr().as_str(), "3yz");
    assert_eq!(polynomial.monomials[2].expr().as_str(), "3x");
}

#[test]
fn parser_monomial_run_numbers_only() {
    let mut parser = Parser::parser_init(String::from("2 + 3 + 4\n")).unwrap();
    let polynomial = parser.parse_polynomial().unwrap();
    assert_eq!(polynomial.monomials.len(), 1);
    assert_eq!(polynomial.monomials[0].coefficient, 9);
}

#[test]
fn parse_polynomial_error_leading_plus() {
    let mut parser = Parser::parser_init(String::from("+ y + z")).unwrap();
    let res = parser.parse_polynomial();
    assert!(matches!(res, Err(ParserErr::InvalidSyntax(_))));
}

#[test]
fn parse_polynomial_error_leading_minus() {
    let mut parser = Parser::parser_init(String::from("- y + z")).unwrap();
    let res = parser.parse_polynomial();
    assert!(matches!(res, Err(ParserErr::InvalidSyntax(_))));
}

#[test]
fn parse_multiplication_binomial_square() {
    assert_eq!(parsed("(x + y) * (x + y)"), "x^2 + 2xy + y^2");
}

#[test]
fn parse_multiplication_nested() {
    assert_eq!(parsed("(((x + y) * (x + y))) * (x + y)"), "x^3 + 3x^2y + 3xy^2 + y^3");
}

#[test]
fn parse_multiplication_grouped() {
    assert_eq!(
        parsed("(x^4 + 1) * ((x^3 + 2x) * (x + 1))"),
        "x^8 + x^7 + 2x^6 + 2x^5 + x^4 + x^3 + 2x^2 + 2x"
    );
}

#[test]
fn parse_multiplication_negative() {
    assert_eq!(parsed("((x - y) * (x + y)) * (x + y)"), "x^3 + x^2y - xy^2 - y^3");
}

#[test]
fn parse_parentheses_only() {
    assert_eq!(parsed("(((x + y)))"), "x + y");
}

#[test]
fn parse_addition_and_multiplication() {
    assert_eq!(parsed("x^3 + x^2 + (x + 5)*(x - 7)"), "x^3 + 2x^2 - 2x - 35");
}

#[test]
fn parse_subtraction_and_multiplication() {
    assert_eq!(parsed("x^3 - x^2 + (x + 5)*(x - 7)"), "x^3 - 2x - 35");
}

#[test]
fn parse_subtracted_product() {
    assert_eq!(parsed("x^2 - (x + 5)*(x - 7)"), "2x + 35");
}

#[test]
fn parse_repeated_multiplication_linear_factors() {
    assert_eq!(parsed("(x + 5)*(x - 7)*(x - 4)"), "x^3 - 6x^2 - 27x + 140");
}

#[test]
fn parse_repeated_multiplication_with_sum() {
    assert_eq!(parsed("x^4 + x^3 + (x + 5)*(x - 7)*(x - 4)"), "x^4 + 2x^3 - 6x^2 - 27x + 140");
}

#[test]
fn parse_sum_of_products() {
    assert_eq!(
        parsed("(x + 5)*(x - 7)*(x - 4) + (x + 5)*(x - 7)*(x - 4)"),
        "2x^3 - 12x^2 - 54x + 280"
    );
}

#[test]
fn parse_multivariate_product() {
    assert_eq!(
        parsed("(2x + 10)*(x - 7)*(x^2 + y + z + 1)"),
        "2x^4 - 4x^3 + 2x^2y + 2x^2z - 68x^2 - 4xy - 4xz - 4x - 70y - 70z - 70"
    );
}

#[test]
fn parse_exponentiation() {
    assert_eq!(parsed("(x + 2)^3"), "x^3 + 6x^2 + 12x + 8");
}

#[test]
fn parse_exponentiation_then_product() {
    assert_eq!(parsed("(x + 3)^2*(x + 3)"), "x^3 + 9x^2 + 27x + 27");
}

#[test]
fn parse_exponentiation_multivariate() {
    assert_eq!(
        parsed("(x + y + z)^5"),
        "x^5 + 5x^4y + 5x^4z + 10x^3y^2 + 20x^3yz + 10x^3z^2 + 10x^2y^3 + 30x^2y^2z + 30x^2yz^2 + 10x^2z^3 + 5xy^4 + 20xy^3z + 30xy^2z^2 + 20xyz^3 + 5xz^4 + y^5 + 5y^4z + 10y^3z^2 + 10y^2z^3 + 5yz^4 + z^5"
    );
}

#[test]
fn parse_exponentiation_of_expression() {
    assert_eq!(parsed("(x^2 + (x + 2)*(x + 2))^2"), "4x^4 + 16x^3 + 32x^2 + 32x + 16");
}

#[test]
fn parse_exponent_zero_gives_identity() {
    assert_eq!(parsed("(x + 2)^0"), "1");
}

#[test]
fn parse_repeated_addition() {
    assert_eq!(parsed("x^3 + (x^3) + x^3 "), "3x^3");
}

#[test]
fn parse_repeated_addition_with_product() {
    assert_eq!(parsed("x^3 + (x + 3)*(x + 3) + x^2"), "x^3 + 2x^2 + 6x + 9");
}

#[test]
fn parse_repeated_addition_cancellation() {
    assert_eq!(parsed("x^3 + (x + 2)*(x + 2) + x^3 + (x + 2)*(x + 2) - x^3"), "x^3 + 2x^2 + 8x + 8");
}

#[test]
fn parse_subtracted_square_cancels() {
    assert_eq!(parsed("x^3 + (x + 3)*(x + 3) - x^2"), "x^3 + 6x + 9");
}

#[test]
fn parse_negated_sum() {
    assert_eq!(parsed("-(x + y + z)"), "-x - y - z");
}

#[test]
fn parse_negated_product() {
    assert_eq!(parsed("-(x + 2)*(x + 2)"), "-x^2 - 4x - 4");
}

#[test]
fn parse_negated_expression() {
    assert_eq!(parsed("-(x^3 - (x + 3)*(x + 3) + x^2)"), "-x^3 + 6x + 9");
}

#[test]
fn parse_triple_negated_product() {
    assert_eq!(parsed("-(x + 2)*-(x + 2)*-(x + 2)"), "-x^3 - 6x^2 - 12x - 8");
}

#[test]
fn parse_negation_mixed() {
    assert_eq!(parsed("-(x + 2)*-(x + 2) - -(x + 2)"), "x^2 + 5x + 6");
}

#[test]
fn test_invalid_syntax_trailing_garbage() {
    // a structurally valid prefix does not save a parse with trailing
    // input
    let res = parse("(x + 2)5");
    assert!(matches!(res, Err(ParserErr::InvalidSyntax(_))));
}

#[test]
fn test_unclosed_parenthesis() {
    let res = parse("(x + 5");
    match res {
        Err(ParserErr::ExpectedToken(msg)) => {
            assert_eq!(msg.as_str(), "Expected closing parenthesis at end of expression");
        }
        other => panic!("expected an ExpectedToken error, got {:?}", other),
    }
}

#[test]
fn test_parser_empty_input() {
    assert_eq!(parsed(""), "");
}

#[test]
fn test_parser_input_space() {
    assert_eq!(parsed(" "), "");
}

#[test]
fn test_parser_input_new_line() {
    assert_eq!(parsed("\n"), "");
}

#[test]
fn test_parser_input_space_and_new_line() {
    assert_eq!(parsed("   \n"), "");
}

#[test]
fn test_lexical_error_kind() {
    let res = parse("a");
    assert!(matches!(res, Err(ParserErr::LexerErr(_))));
}

#[test]
fn test_unexpected_token_kind() {
    // a `-` that introduces neither a monomial nor a parenthesized
    // factor
    let res = parse("-");
    assert!(matches!(res, Err(ParserErr::UnexpectedToken(_))));
}

#[test]
fn test_expected_token_kind_missing_exponent() {
    let res = parse("(x + 2)^");
    assert!(matches!(res, Err(ParserErr::ExpectedToken(_))));
    let res2 = parse("x^");
    assert!(matches!(res2, Err(ParserErr::ExpectedToken(_))));
}

#[test]
fn test_decimal_literal_rejected() {
    let res = parse("2.5x");
    assert!(matches!(res, Err(ParserErr::InvalidSyntax(_))));
}

#[test]
fn test_coefficient_out_of_range_rejected() {
    let res = parse("99999999999999999999x");
    assert!(matches!(res, Err(ParserErr::InvalidSyntax(_))));
}

#[test]
fn test_exponent_out_of_range_rejected() {
    let res = parse("x^9999999999");
    assert!(matches!(res, Err(ParserErr::InvalidSyntax(_))));
}

#[test]
fn test_parser_peek_is_idempotent() {
    let mut parser = Parser::parser_init(String::from("x + (y)")).unwrap();
    let first = parser.peek_next_token().unwrap();
    let before_pos = parser.lexer.curr_pos;
    let second = parser.peek_next_token().unwrap();
    assert_eq!(first.token_type, second.token_type);
    assert_eq!(first.token_content.as_str(), second.token_content.as_str());
    assert_eq!(parser.lexer.curr_pos, before_pos);
    assert_eq!(parser.lexer.curr_tok.token_type, TokType::Xvar);
}

#[test]
fn test_round_trip_rendering() {
    // re-parsing rendered text and re-rendering yields the same string,
    // for any rendering whose leading term is not negative (a leading
    // `-` introduces only a parenthesized factor in this grammar)
    let cases = [
        "(x + y) * (x + y)",
        "x^3 + x^2 + (x + 5)*(x - 7)",
        "(x + y + z)^5",
        "2xyz + yzx + zxy + xy",
        "x^2 - x^2",
        "x^2 - 4*(x) - 4",
        "7",
    ];
    for case in cases.iter() {
        let once = parsed(case);
        let twice = parsed(once.as_str());
        assert_eq!(once, twice);
    }
}

#[test]
fn test_leading_negative_rendering_does_not_reparse() {
    // the one family outside the round trip: a canonical text that
    // starts with a negative term is not itself a valid expression,
    // exactly as a bare `-x` is not
    let rendered = parsed("-(x + 2)*-(x + 2)*-(x + 2)");
    assert_eq!(rendered, "-x^3 - 6x^2 - 12x - 8");
    assert!(parse(rendered.as_str()).is_err());
}

#[test]
fn test_mul_commutes_up_to_rendering() {
    let ab = parsed("(x + 2*y) * (3*z + x^2)");
    let ba = parsed("(3*z + x^2) * (x + 2*y)");
    assert_eq!(ab, ba);
    let ab2 = parsed("(x + 5)*(x - 7)");
    let ba2 = parsed("(x - 7)*(x + 5)");
    assert_eq!(ab2, ba2);
}

#[test]
fn test_add_associates_up_to_rendering() {
    let left = parsed("((x + y) + z) + (x)");
    let right = parsed("(x) + ((y + z) + x)");
    assert_eq!(left, right);
    let l2 = parsed("(x^2 + x) + (1)");
    let r2 = parsed("(x^2) + (x + 1)");
    assert_eq!(l2, r2);
}

#[test]
fn parse_monomial_entry_point() {
    let mut parser = Parser::parser_init(String::from("3x^2yz^5\n")).unwrap();
    let monomial = parser.parse_monomial().unwrap();
    assert_eq!(monomial.coefficient, 3);
    assert_eq!(monomial.degree(), 8);
    assert_eq!(monomial.power(0), 2);
    assert_eq!(monomial.power(1), 1);
    assert_eq!(monomial.power(2), 5);
}

#[test]
fn test_mul_associates_up_to_rendering() {
    let left = parsed("((x + 1)*(x + 2))*(x + 3)");
    let right = parsed("(x + 1)*((x + 2)*(x + 3))");
    assert_eq!(left, right);
    assert_eq!(left, "x^3 + 6x^2 + 11x + 6");
}
