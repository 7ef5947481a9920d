use tokenizer::lexer::Tokenizer;
use tokenizer::token::{KeywordKind, LexError, LiteralKind, SymbolKind, TokenKind};

#[test]
fn it_fails_unexpected_char() {
    let mut tokenizer = Tokenizer::new("\"hmm\" ?");
    assert_eq!(
        tokenizer.next_token(),
        Ok(TokenKind::Literal(LiteralKind::String("hmm".into())))
    );
    assert_eq!(tokenizer.next_token(), Err(LexError::UnexpectedCharacter('?')));
}

#[test]
fn it_fails_unexpected_non_ascii_char() {
    let mut tokenizer = Tokenizer::new("\"hmm\" \u{e9}");
    assert_eq!(
        tokenizer.next_token(),
        Ok(TokenKind::Literal(LiteralKind::String("hmm".into())))
    );
    assert_eq!(tokenizer.next_token(), Err(LexError::UnexpectedCharacter('\u{e9}')));
}

#[test]
fn it_fails_escape_char_in_string() {
    let mut tokenizer = Tokenizer::new(r#""hmm\n ok""#);
    assert_eq!(tokenizer.next_token(), Err(LexError::UnsupportedEscape('n')));
}

#[test]
fn it_fails_unexpected_eof() {
    let mut tokenizer = Tokenizer::new(r#""hmm"#);
    assert_eq!(tokenizer.next_token(), Err(LexError::UnterminatedString));
}

#[test]
fn it_fails_unexpected_eof_due_to_escaping() {
    let mut tokenizer = Tokenizer::new(r#""hmm\"#);
    assert_eq!(tokenizer.next_token(), Err(LexError::UnterminatedString));
}

#[test]
fn it_fails_no_digits_for_exponent() {
    let mut tokenizer = Tokenizer::new("1.3e");
    assert_eq!(tokenizer.next_token(), Err(LexError::UnexpectedCharacter('e')));
}

#[test]
fn it_fails_sign_but_no_digits_for_exponent() {
    let mut tokenizer = Tokenizer::new("1.3e-");
    assert_eq!(tokenizer.next_token(), Err(LexError::UnexpectedCharacter('-')));
}

#[test]
fn it_fails_capital_exponent_marker_without_digits() {
    let mut tokenizer = Tokenizer::new("2E");
    assert_eq!(tokenizer.next_token(), Err(LexError::UnexpectedCharacter('E')));
}

#[test]
fn it_fails_bare_decimal_point_after_mantissa() {
    let mut tokenizer = Tokenizer::new("1.");
    assert_eq!(tokenizer.next_token(), Err(LexError::UnexpectedCharacter('.')));
}

#[test]
fn it_fails_lone_decimal_point() {
    let mut tokenizer = Tokenizer::new(".");
    assert_eq!(tokenizer.next_token(), Err(LexError::UnexpectedCharacter('.')));
}

#[test]
fn it_unescapes_escaped_delimiter() {
    let mut tokenizer = Tokenizer::new(r#"'it\'s'"#);
    assert_eq!(
        tokenizer.next_token(),
        Ok(TokenKind::Literal(LiteralKind::String("it's".into())))
    );
    assert_eq!(tokenizer.next_token(), Ok(TokenKind::Eof));
}

#[test]
fn it_unescapes_double_backslash() {
    let mut tokenizer = Tokenizer::new(r#""a\\b""#);
    assert_eq!(
        tokenizer.next_token(),
        Ok(TokenKind::Literal(LiteralKind::String(r"a\b".into())))
    );
    assert_eq!(tokenizer.next_token(), Ok(TokenKind::Eof));
}

#[test]
fn it_keeps_other_quote_kind_verbatim_in_string() {
    let mut tokenizer = Tokenizer::new(r#"'a"b'"#);
    assert_eq!(
        tokenizer.next_token(),
        Ok(TokenKind::Literal(LiteralKind::String("a\"b".into())))
    );
    assert_eq!(tokenizer.next_token(), Ok(TokenKind::Eof));
}

#[test]
fn it_scans_keyword_statement() {
    let mut tokenizer = Tokenizer::new("let x = r;");
    assert_eq!(tokenizer.next_token(), Ok(TokenKind::Keyword(KeywordKind::Let)));
    assert_eq!(tokenizer.next_token(), Ok(TokenKind::Ident("x".into())));
    assert_eq!(tokenizer.next_token(), Ok(TokenKind::Symbol(SymbolKind::Assign)));
    assert_eq!(tokenizer.next_token(), Ok(TokenKind::Ident("r".into())));
    assert_eq!(tokenizer.next_token(), Ok(TokenKind::Symbol(SymbolKind::Semicolon)));
    assert_eq!(tokenizer.next_token(), Ok(TokenKind::Eof));
}

#[test]
fn it_scans_every_keyword_and_near_keywords() {
    let mut tokenizer = Tokenizer::new("let if elif else func lets iff Let");
    assert_eq!(tokenizer.next_token(), Ok(TokenKind::Keyword(KeywordKind::Let)));
    assert_eq!(tokenizer.next_token(), Ok(TokenKind::Keyword(KeywordKind::If)));
    assert_eq!(tokenizer.next_token(), Ok(TokenKind::Keyword(KeywordKind::Elif)));
    assert_eq!(tokenizer.next_token(), Ok(TokenKind::Keyword(KeywordKind::Else)));
    assert_eq!(tokenizer.next_token(), Ok(TokenKind::Keyword(KeywordKind::Func)));
    assert_eq!(tokenizer.next_token(), Ok(TokenKind::Ident("lets".into())));
    assert_eq!(tokenizer.next_token(), Ok(TokenKind::Ident("iff".into())));
    assert_eq!(tokenizer.next_token(), Ok(TokenKind::Ident("Let".into())));
    assert_eq!(tokenizer.next_token(), Ok(TokenKind::Eof));
}

#[test]
fn it_scans_the_symbol_catalog() {
    let mut tokenizer = Tokenizer::new("= == + - * ** / : ; , > < { } ( ) [ ]");
    let expected = [
        SymbolKind::Assign,
        SymbolKind::Equals,
        SymbolKind::Plus,
        SymbolKind::Minus,
        SymbolKind::Mult,
        SymbolKind::Pow,
        SymbolKind::Div,
        SymbolKind::Colon,
        SymbolKind::Semicolon,
        SymbolKind::Comma,
        SymbolKind::GreaterThan,
        SymbolKind::LessThan,
        SymbolKind::OpenBraces,
        SymbolKind::CloseBraces,
        SymbolKind::OpenParens,
        SymbolKind::CloseParens,
        SymbolKind::OpenBrackets,
        SymbolKind::CloseBrackets,
    ];
    for want in expected {
        assert_eq!(tokenizer.next_token(), Ok(TokenKind::Symbol(want)));
    }
    assert_eq!(tokenizer.next_token(), Ok(TokenKind::Eof));
}

#[test]
fn it_reads_adjacent_equals_signs_greedily() {
    let mut tokenizer = Tokenizer::new("===");
    assert_eq!(tokenizer.next_token(), Ok(TokenKind::Symbol(SymbolKind::Equals)));
    assert_eq!(tokenizer.next_token(), Ok(TokenKind::Symbol(SymbolKind::Assign)));
    assert_eq!(tokenizer.next_token(), Ok(TokenKind::Eof));
}

#[test]
fn it_stops_an_exponent_before_a_second_marker() {
    let mut tokenizer = Tokenizer::new("1e5e2");
    match tokenizer.next_token() {
        Ok(TokenKind::Literal(LiteralKind::Float(text))) => assert_eq!(text, "1e5"),
        other => panic!("expected a float literal, got {:?}", other),
    }
    assert_eq!(tokenizer.next_token(), Ok(TokenKind::Ident("e2".into())));
    assert_eq!(tokenizer.next_token(), Ok(TokenKind::Eof));
}

#[test]
fn it_saturates_an_overflowing_int_literal() {
    let mut tokenizer = Tokenizer::new("99999999999");
    assert_eq!(
        tokenizer.next_token(),
        Ok(TokenKind::Literal(LiteralKind::Int(i32::MAX)))
    );
    assert_eq!(tokenizer.next_token(), Ok(TokenKind::Eof));
}

#[test]
fn it_reads_int_literal_at_exact_bound() {
    let mut tokenizer = Tokenizer::new("2147483647 2147483648");
    assert_eq!(
        tokenizer.next_token(),
        Ok(TokenKind::Literal(LiteralKind::Int(2147483647)))
    );
    assert_eq!(
        tokenizer.next_token(),
        Ok(TokenKind::Literal(LiteralKind::Int(i32::MAX)))
    );
    assert_eq!(tokenizer.next_token(), Ok(TokenKind::Eof));
}

#[test]
fn it_skips_non_ascii_whitespace() {
    let mut tokenizer = Tokenizer::new("\u{a0}\u{2003}let\u{3000}x");
    assert_eq!(tokenizer.next_token(), Ok(TokenKind::Keyword(KeywordKind::Let)));
    assert_eq!(tokenizer.next_token(), Ok(TokenKind::Ident("x".into())));
    assert_eq!(tokenizer.next_token(), Ok(TokenKind::Eof));
}

#[test]
fn it_keeps_float_text_verbatim() {
    let mut tokenizer = Tokenizer::new("1.01E3");
    match tokenizer.next_token() {
        Ok(TokenKind::Literal(LiteralKind::Float(text))) => assert_eq!(text, "1.01E3"),
        other => panic!("expected a float literal, got {:?}", other),
    }
    assert_eq!(tokenizer.next_token(), Ok(TokenKind::Eof));
}

#[test]
fn it_keeps_returning_eof_after_trailing_whitespace() {
    let mut tokenizer = Tokenizer::new("x  \t\n");
    assert_eq!(tokenizer.next_token(), Ok(TokenKind::Ident("x".into())));
    assert_eq!(tokenizer.next_token(), Ok(TokenKind::Eof));
    assert_eq!(tokenizer.next_token(), Ok(TokenKind::Eof));
    assert_eq!(tokenizer.next_token(), Ok(TokenKind::Eof));
}

#[test]
fn it_scans_empty_string_literal() {
    let mut tokenizer = Tokenizer::new("\"\"");
    assert_eq!(
        tokenizer.next_token(),
        Ok(TokenKind::Literal(LiteralKind::String(String::new())))
    );
    assert_eq!(tokenizer.next_token(), Ok(TokenKind::Eof));
}

#[test]
fn it_treats_digit_after_underscore_start_as_identifier() {
    let mut tokenizer = Tokenizer::new("_1x 9a");
    assert_eq!(tokenizer.next_token(), Ok(TokenKind::Ident("_1x".into())));
    // a leading digit starts a number; the letter after it starts a new token
    assert_eq!(tokenizer.next_token(), Ok(TokenKind::Literal(LiteralKind::Int(9))));
    assert_eq!(tokenizer.next_token(), Ok(TokenKind::Ident("a".into())));
    assert_eq!(tokenizer.next_token(), Ok(TokenKind::Eof));
}
