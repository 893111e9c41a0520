use poly::lexer::{Lexer, LexerErr, TokType, tokenize};

#[test]
fn test_get_next_token_one_char() {
    let mut lexer = Lexer::lexer_init(String::from("x"));
    lexer.get_next_token().unwrap();
    assert_eq!(lexer.curr_tok.token_type, TokType::Xvar);
    assert_eq!(lexer.curr_tok.token_content.as_str(), "x");
    assert_eq!(lexer.curr_pos, 1);
}

#[test]
fn test_get_next_token_initial() {
    let mut lexer = Lexer::lexer_init(String::from("x + y + z\n"));
    lexer.get_next_token().unwrap();
    assert_eq!(lexer.curr_tok.token_type, TokType::Xvar);
    assert_eq!(lexer.curr_pos, 1);
    lexer.get_next_token().unwrap();
    assert_eq!(lexer.curr_tok.token_type, TokType::Plus);
    assert_eq!(lexer.curr_pos, 3);
    lexer.get_next_token().unwrap();
    assert_eq!(lexer.curr_tok.token_type, TokType::Xvar);
    assert_eq!(lexer.curr_pos, 5);
    lexer.get_next_token().unwrap();
    assert_eq!(lexer.curr_tok.token_type, TokType::Plus);
    assert_eq!(lexer.curr_pos, 7);
    lexer.get_next_token().unwrap();
    assert_eq!(lexer.curr_tok.token_type, TokType::Xvar);
    assert_eq!(lexer.curr_pos, 9);
    lexer.get_next_token().unwrap();
    assert_eq!(lexer.curr_tok.token_type, TokType::Newl);
    assert_eq!(lexer.curr_pos, 10);
}

#[test]
fn test_lexer_tokenize_int() {
    let mut lexer = Lexer::lexer_init(String::from("123\n"));
    lexer.get_next_token().unwrap();
    assert_eq!(lexer.curr_tok.token_type, TokType::Number);
    assert_eq!(lexer.curr_tok.token_content.as_str(), "123");
}

#[test]
fn test_lexer_tokenize_decimal_text() {
    // the literal's text is kept verbatim; interpretation is the
    // parser's business
    let mut lexer = Lexer::lexer_init(String::from("2.3\n"));
    lexer.get_next_token().unwrap();
    assert_eq!(lexer.curr_tok.token_type, TokType::Number);
    assert_eq!(lexer.curr_tok.token_content.as_str(), "2.3");
}

#[test]
fn test_lexer_tokenize_decimal_text_long() {
    let mut lexer = Lexer::lexer_init(String::from("123.232324\n"));
    lexer.get_next_token().unwrap();
    assert_eq!(lexer.curr_tok.token_type, TokType::Number);
    assert_eq!(lexer.curr_tok.token_content.as_str(), "123.232324");
}

#[test]
fn test_lexer_symbols() {
    let mut lexer = Lexer::lexer_init(String::from("( ) * / ^ = . -"));
    let expected = [
        TokType::Lpar,
        TokType::Rpar,
        TokType::Mul,
        TokType::Div,
        TokType::Caret,
        TokType::Equal,
        TokType::Period,
        TokType::Minus,
    ];
    for t in expected.iter() {
        lexer.get_next_token().unwrap();
        assert_eq!(lexer.curr_tok.token_type, *t);
    }
    lexer.get_next_token().unwrap();
    assert_eq!(lexer.curr_tok.token_type, TokType::End);
}

#[test]
fn test_lexer_peeking() {
    let mut lexer = Lexer::lexer_init(String::from("x^3 + y\n"));
    lexer.get_next_token().unwrap();
    assert_eq!(lexer.curr_tok.token_type, TokType::Xvar);
    assert_eq!(lexer.curr_pos, 1);

    let next_token = lexer.peek_next_token().unwrap();
    assert_eq!(next_token.token_type, TokType::Caret);
    // peeking must not change the visible lexer state
    assert_eq!(lexer.curr_tok.token_type, TokType::Xvar);
    assert_eq!(lexer.curr_pos, 1);

    lexer.get_next_token().unwrap();
    assert_eq!(lexer.curr_tok.token_type, TokType::Caret);
    assert_eq!(lexer.curr_pos, 2);

    lexer.get_next_token().unwrap();
    assert_eq!(lexer.curr_tok.token_type, TokType::Number);
    assert_eq!(lexer.curr_pos, 3);

    let next_token = lexer.peek_next_token().unwrap();
    assert_eq!(next_token.token_type, TokType::Plus);
    assert_eq!(lexer.curr_tok.token_type, TokType::Number);
    assert_eq!(lexer.curr_pos, 3);
}

#[test]
fn test_lexer_peeking_twice() {
    let mut lexer = Lexer::lexer_init(String::from("x^3 + y\n"));
    lexer.get_next_token().unwrap();
    assert_eq!(lexer.curr_tok.token_type, TokType::Xvar);
    assert_eq!(lexer.curr_pos, 1);

    let first = lexer.peek_next_token().unwrap();
    assert_eq!(first.token_type, TokType::Caret);
    assert_eq!(lexer.curr_tok.token_type, TokType::Xvar);
    assert_eq!(lexer.curr_pos, 1);

    // a second peek before any advance returns the same token and
    // still leaves the current token and cursor alone
    let second = lexer.peek_next_token().unwrap();
    assert_eq!(second.token_type, first.token_type);
    assert_eq!(second.token_content.as_str(), first.token_content.as_str());
    assert_eq!(lexer.curr_tok.token_type, TokType::Xvar);
    assert_eq!(lexer.curr_pos, 1);

    lexer.get_next_token().unwrap();
    assert_eq!(lexer.curr_tok.token_type, TokType::Caret);
    assert_eq!(lexer.curr_pos, 2);
}

#[test]
fn test_lexer_unknown_char() {
    let mut lexer = Lexer::lexer_init(String::from("x + a"));
    lexer.get_next_token().unwrap();
    lexer.get_next_token().unwrap();
    let res = lexer.get_next_token();
    assert_eq!(res, Err(LexerErr::UnknownChar));
    // the cursor points at the offending character
    assert_eq!(lexer.curr_pos, 4);
}

#[test]
fn test_tokenize_ok() {
    let lexer = Lexer::lexer_init(String::from("2x^2 + (y - 1) * z\n"));
    assert!(tokenize(lexer).is_ok());
}

#[test]
fn test_tokenize_unknown() {
    let lexer = Lexer::lexer_init(String::from("2x + q"));
    assert_eq!(tokenize(lexer), Err(LexerErr::UnknownChar));
}

#[test]
fn test_march_and_unmarch() {
    let mut lexer = Lexer::lexer_init(String::from("ab"));
    assert_eq!(lexer.get_curr_char(), Ok('a'));
    assert_eq!(lexer.march_pos(), Ok('b'));
    assert_eq!(lexer.march_pos(), Ok('\n'));
    assert_eq!(lexer.march_pos(), Ok('\n'));
    assert_eq!(lexer.unmarch_pos(), Ok('b'));
    assert_eq!(lexer.unmarch_pos(), Ok('a'));
    assert_eq!(lexer.unmarch_pos(), Err(LexerErr::InvalidCharPos));
}

#[test]
fn test_get_curr_char_past_end() {
    let lexer = Lexer::lexer_init(String::from(""));
    assert_eq!(lexer.get_curr_char(), Err(LexerErr::InvalidCharPos));
}
