//! The token catalog: what a single call to the tokenizer can hand back,
//! together with the mathematical models that the contracts speak of.

use vstd::prelude::*;

verus! {

/// The five reserved words of the language.
#[derive(Clone, Copy, Debug, PartialEq, Eq, Structural)]
pub enum KeywordKind {
    Let,
    If,
    Elif,
    Else,
    Func,
}

/// The fixed catalog of punctuation symbols.
#[derive(Clone, Copy, Debug, PartialEq, Eq, Structural)]
pub enum SymbolKind {
    /// `=`
    Assign,
    /// `+`
    Plus,
    /// `-`
    Minus,
    /// `*`
    Mult,
    /// `/`
    Div,
    /// `**`
    Pow,
    /// `>`
    GreaterThan,
    /// `<`
    LessThan,
    /// `:`
    Colon,
    /// `;`
    Semicolon,
    /// `,`
    Comma,
    /// `==`
    Equals,
    /// `{`
    OpenBraces,
    /// `}`
    CloseBraces,
    /// `(`
    OpenParens,
    /// `)`
    CloseParens,
    /// `[`
    OpenBrackets,
    /// `]`
    CloseBrackets,
}

/// A literal value scanned from the input.
///
/// An integer literal is parsed to a fixed-width signed value; a mantissa
/// whose value exceeds `i32::MAX` saturates to `i32::MAX` (the deterministic
/// overflow policy of this tokenizer). A float literal is handed back as the
/// exact text that was consumed (mantissa, optional decimal part, optional
/// exponent part); the caller converts it to a machine float if it needs one.
#[derive(Debug, PartialEq, Eq)]
pub enum LiteralKind {
    String(String),
    Int(i32),
    Float(String),
}

/// One classified unit of lexical output.
///
/// `Eof` is the end-of-input sentinel: once produced, every further call of
/// the tokenizer produces it again.
#[derive(Debug, PartialEq, Eq)]
pub enum TokenKind {
    Keyword(KeywordKind),
    Ident(String),
    Symbol(SymbolKind),
    Literal(LiteralKind),
    Eof,
}

/// The reasons a scan can fail. All of them abort the current call; the
/// tokenizer makes no attempt to resynchronize.
#[derive(Clone, Copy, Debug, PartialEq, Eq, Structural)]
pub enum LexError {
    /// A character that could not begin or continue any recognized token.
    UnexpectedCharacter(char),
    /// An escape other than the escape marker itself or the active delimiter.
    UnsupportedEscape(char),
    /// The input ended while a string literal was still open.
    UnterminatedString,
}

/// The model of a literal: as [`LiteralKind`], but with text as `Seq<char>`.
pub enum LiteralModel {
    Str(Seq<char>),
    Int(i32),
    Float(Seq<char>),
}

/// The model of a token: as [`TokenKind`], but with text as `Seq<char>`.
pub enum TokenModel {
    Keyword(KeywordKind),
    Ident(Seq<char>),
    Symbol(SymbolKind),
    Literal(LiteralModel),
    Eof,
}

impl View for LiteralKind {
    type V = LiteralModel;

    open spec fn view(&self) -> LiteralModel {
        match self {
            LiteralKind::String(s) => LiteralModel::Str(s@),
            LiteralKind::Int(v) => LiteralModel::Int(*v),
            LiteralKind::Float(s) => LiteralModel::Float(s@),
        }
    }
}

impl View for TokenKind {
    type V = TokenModel;

    open spec fn view(&self) -> TokenModel {
        match self {
            TokenKind::Keyword(k) => TokenModel::Keyword(*k),
            TokenKind::Ident(s) => TokenModel::Ident(s@),
            TokenKind::Symbol(k) => TokenModel::Symbol(*k),
            TokenKind::Literal(l) => TokenModel::Literal(l@),
            TokenKind::Eof => TokenModel::Eof,
        }
    }
}

} // verus!
