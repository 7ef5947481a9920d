use tokenizer::lexer::Tokenizer;
use tokenizer::token::{KeywordKind, LexError, LiteralKind, SymbolKind, TokenKind};

/// Asserts that `t` is a float literal whose text parses to `want`.
fn expect_float(t: Result<TokenKind, LexError>, want: f64) {
    match t {
        Ok(TokenKind::Literal(LiteralKind::Float(text))) => {
            assert_eq!(text.parse::<f64>().unwrap(), want);
        }
        other => panic!("expected a float literal, got {:?}", other),
    }
}

#[test]
fn it_gets_next_token_empty_string() {
    let mut tokenizer = Tokenizer::new("");
    assert_eq!(tokenizer.next_token(), Ok(TokenKind::Eof));
    assert_eq!(tokenizer.next_token(), Ok(TokenKind::Eof));
}

#[test]
fn it_gets_next_token_whitespace_string() {
    let mut tokenizer = Tokenizer::new("    ");
    assert_eq!(tokenizer.next_token(), Ok(TokenKind::Eof));
}

#[test]
fn it_gets_next_token_whitespace_before_token() {
    let mut tokenizer = Tokenizer::new("    let");
    assert_eq!(tokenizer.next_token(), Ok(TokenKind::Keyword(KeywordKind::Let)));
    assert_eq!(tokenizer.next_token(), Ok(TokenKind::Eof));
}

#[test]
fn it_gets_next_token_whitespace_before_statement_with_underscore_variable() {
    let mut tokenizer = Tokenizer::new("    let _ = x;");
    assert_eq!(tokenizer.next_token(), Ok(TokenKind::Keyword(KeywordKind::Let)));
    assert_eq!(tokenizer.next_token(), Ok(TokenKind::Ident("_".into())));
    assert_eq!(tokenizer.next_token(), Ok(TokenKind::Symbol(SymbolKind::Assign)));
    assert_eq!(tokenizer.next_token(), Ok(TokenKind::Ident("x".into())));
    assert_eq!(tokenizer.next_token(), Ok(TokenKind::Symbol(SymbolKind::Semicolon)));
    assert_eq!(tokenizer.next_token(), Ok(TokenKind::Eof));

    let mut tokenizer = Tokenizer::new("    let x = r;");
    assert_eq!(tokenizer.next_token(), Ok(TokenKind::Keyword(KeywordKind::Let)));
    assert_eq!(tokenizer.next_token(), Ok(TokenKind::Ident("x".into())));
    assert_eq!(tokenizer.next_token(), Ok(TokenKind::Symbol(SymbolKind::Assign)));
    assert_eq!(tokenizer.next_token(), Ok(TokenKind::Ident("r".into())));
    assert_eq!(tokenizer.next_token(), Ok(TokenKind::Symbol(SymbolKind::Semicolon)));
    assert_eq!(tokenizer.next_token(), Ok(TokenKind::Eof));
}

#[test]
fn it_gets_next_token_number_expression() {
    let mut tokenizer = Tokenizer::new("4 ** 3.0");
    assert_eq!(tokenizer.next_token(), Ok(TokenKind::Literal(LiteralKind::Int(4))));
    assert_eq!(tokenizer.next_token(), Ok(TokenKind::Symbol(SymbolKind::Pow)));
    expect_float(tokenizer.next_token(), 3.0);
    assert_eq!(tokenizer.next_token(), Ok(TokenKind::Eof));
}

#[test]
fn it_gets_next_tokene_string() {
    let mut tokenizer = Tokenizer::new("\"hmm\"");
    assert_eq!(
        tokenizer.next_token(),
        Ok(TokenKind::Literal(LiteralKind::String("hmm".into())))
    );
    assert_eq!(tokenizer.next_token(), Ok(TokenKind::Eof));
}

#[test]
fn it_gets_next_token_statement_with_string_literal() {
    let mut tokenizer = Tokenizer::new("let x1 = \"o\";");
    assert_eq!(tokenizer.next_token(), Ok(TokenKind::Keyword(KeywordKind::Let)));
    assert_eq!(tokenizer.next_token(), Ok(TokenKind::Ident("x1".into())));
    assert_eq!(tokenizer.next_token(), Ok(TokenKind::Symbol(SymbolKind::Assign)));
    assert_eq!(
        tokenizer.next_token(),
        Ok(TokenKind::Literal(LiteralKind::String("o".into())))
    );
    assert_eq!(tokenizer.next_token(), Ok(TokenKind::Symbol(SymbolKind::Semicolon)));
    assert_eq!(tokenizer.next_token(), Ok(TokenKind::Eof));
}

#[test]
fn it_gets_next_token_int_literal() {
    let mut tokenizer = Tokenizer::new("1223");
    assert_eq!(tokenizer.next_token(), Ok(TokenKind::Literal(LiteralKind::Int(1223))));
    assert_eq!(tokenizer.next_token(), Ok(TokenKind::Eof));
}

#[test]
fn it_gets_next_token_float_literal_with_exponent() {
    let mut tokenizer = Tokenizer::new("1.01e3");
    expect_float(tokenizer.next_token(), 1010.0);
    assert_eq!(tokenizer.next_token(), Ok(TokenKind::Eof));
}

#[test]
fn it_gets_next_token_float_literal_with_exponent_2() {
    let mut tokenizer = Tokenizer::new("1e3");
    expect_float(tokenizer.next_token(), 1000.0);
    assert_eq!(tokenizer.next_token(), Ok(TokenKind::Eof));
}

#[test]
fn it_gets_next_token_float_literal_with_exponent_with_sign() {
    let mut tokenizer = Tokenizer::new("1e+3");
    expect_float(tokenizer.next_token(), 1000.0);
    assert_eq!(tokenizer.next_token(), Ok(TokenKind::Eof));
}

#[test]
fn it_gets_next_token_float_literal_with_exponent_in_expression() {
    let mut tokenizer = Tokenizer::new("3.14e-3+4");
    expect_float(tokenizer.next_token(), 0.00314);
    assert_eq!(tokenizer.next_token(), Ok(TokenKind::Symbol(SymbolKind::Plus)));
    assert_eq!(tokenizer.next_token(), Ok(TokenKind::Literal(LiteralKind::Int(4))));
    assert_eq!(tokenizer.next_token(), Ok(TokenKind::Eof));
}
