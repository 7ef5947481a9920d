//! The lexical grammar, written down as specification functions over
//! `Seq<char>`.
//!
//! [`scan`] says, for any suffix of the input, what a single pull on the
//! tokenizer must produce: either one token together with the number of
//! characters it consumes (leading whitespace included), or a lexical error.
//! The executable scanner in [`crate::lexer`] is proved against these
//! functions clause by clause.

use crate::token::{KeywordKind, LexError, LiteralModel, SymbolKind, TokenModel};
use vstd::prelude::*;

verus! {

// ---------------------------------------------------------------------------
// Character classes
// ---------------------------------------------------------------------------

/// The whitespace characters: exactly the code points with the Unicode
/// `White_Space` property.
pub open spec fn is_whitespace_char(c: char) -> bool {
    ||| c == ' '
    ||| ('\u{9}' <= c && c <= '\u{d}')
    ||| c == '\u{85}'
    ||| c == '\u{a0}'
    ||| c == '\u{1680}'
    ||| ('\u{2000}' <= c && c <= '\u{200a}')
    ||| c == '\u{2028}'
    ||| c == '\u{2029}'
    ||| c == '\u{202f}'
    ||| c == '\u{205f}'
    ||| c == '\u{3000}'
}

/// An ASCII letter.
pub open spec fn is_ascii_letter(c: char) -> bool {
    ('a' <= c && c <= 'z') || ('A' <= c && c <= 'Z')
}

/// An ASCII decimal digit.
pub open spec fn is_digit_char(c: char) -> bool {
    '0' <= c && c <= '9'
}

/// A character that may begin an identifier or keyword.
pub open spec fn is_ident_start(c: char) -> bool {
    is_ascii_letter(c) || c == '_'
}

/// A character that may continue an identifier or keyword.
pub open spec fn is_ident_char(c: char) -> bool {
    is_ascii_letter(c) || is_digit_char(c) || c == '_'
}

/// An ASCII punctuation character.
pub open spec fn is_ascii_punct(c: char) -> bool {
    ||| ('\u{21}' <= c && c <= '\u{2f}')
    ||| ('\u{3a}' <= c && c <= '\u{40}')
    ||| ('\u{5b}' <= c && c <= '\u{60}')
    ||| ('\u{7b}' <= c && c <= '\u{7e}')
}

/// The character classes whose maximal runs the scanner consumes.
#[derive(Clone, Copy, Debug, PartialEq, Eq, Structural)]
pub enum CharClass {
    Whitespace,
    IdentChar,
    Digit,
}

/// Membership of a character in a [`CharClass`].
pub open spec fn in_class(k: CharClass, c: char) -> bool {
    match k {
        CharClass::Whitespace => is_whitespace_char(c),
        CharClass::IdentChar => is_ident_char(c),
        CharClass::Digit => is_digit_char(c),
    }
}

/// Length of the maximal prefix of `s` whose characters all lie in class `k`.
pub open spec fn run_len(s: Seq<char>, k: CharClass) -> nat
    decreases s.len(),
{
    if s.len() > 0 && in_class(k, s[0]) {
        1 + run_len(s.drop_first(), k)
    } else {
        0
    }
}

// ---------------------------------------------------------------------------
// Identifiers and keywords
// ---------------------------------------------------------------------------

/// The reserved word a piece of text spells, if any. Case-sensitive, whole
/// text only.
pub open spec fn keyword_of(w: Seq<char>) -> Option<KeywordKind> {
    if w == "let"@ {
        Some(KeywordKind::Let)
    } else if w == "if"@ {
        Some(KeywordKind::If)
    } else if w == "elif"@ {
        Some(KeywordKind::Elif)
    } else if w == "else"@ {
        Some(KeywordKind::Else)
    } else if w == "func"@ {
        Some(KeywordKind::Func)
    } else {
        None
    }
}

/// The outcome of one pull on the tokenizer: a token and the number of
/// characters consumed for it, or a lexical error.
pub enum Scan {
    Token(TokenModel, nat),
    Fail(LexError),
}

/// Scans an identifier or keyword. `s` must begin with an identifier-start
/// character; the token covers the maximal identifier-character run.
pub open spec fn scan_word(s: Seq<char>) -> Scan
    recommends
        s.len() > 0,
        is_ident_start(s[0]),
{
    let n = run_len(s, CharClass::IdentChar);
    let w = s.take(n as int);
    match keyword_of(w) {
        Some(k) => Scan::Token(TokenModel::Keyword(k), n),
        None => Scan::Token(TokenModel::Ident(w), n),
    }
}

// ---------------------------------------------------------------------------
// Numeric literals
// ---------------------------------------------------------------------------

/// The numeric value of a run of decimal digits, most significant first.
pub open spec fn digits_value(s: Seq<char>) -> int
    decreases s.len(),
{
    if s.len() == 0 {
        0
    } else {
        digits_value(s.drop_last()) * 10 + (s.last() as u32 - '0' as u32)
    }
}

/// The integer-overflow policy: a mantissa whose value exceeds `i32::MAX`
/// saturates to `i32::MAX`.
pub open spec fn saturated_i32(v: int) -> i32
    recommends
        v >= 0,
{
    if v > i32::MAX as int {
        i32::MAX
    } else {
        v as i32
    }
}

/// The decimal part of a numeric literal, applied to the text after the
/// mantissa. `None` marks the malformed case: a decimal point followed by no
/// digit. Otherwise the number of characters the part consumes (zero when no
/// decimal point is present).
pub open spec fn decimal_part_len(t: Seq<char>) -> Option<nat> {
    if t.len() > 0 && t[0] == '.' {
        let d = run_len(t.skip(1), CharClass::Digit);
        if d == 0 {
            None
        } else {
            Some((1 + d) as nat)
        }
    } else {
        Some(0)
    }
}

/// The exponent part of a numeric literal, applied to the text after the
/// decimal part. `Err(c)` marks the malformed case — an exponent marker with
/// no digits — carrying the character to report: the sign if one was
/// consumed, else the marker itself. `Ok` carries the number of characters
/// consumed (zero when no exponent marker is present).
pub open spec fn exponent_part_len(u: Seq<char>) -> Result<nat, char> {
    if u.len() > 0 && (u[0] == 'e' || u[0] == 'E') {
        if u.len() > 1 && (u[1] == '+' || u[1] == '-') {
            let d = run_len(u.skip(2), CharClass::Digit);
            if d == 0 {
                Err(u[1])
            } else {
                Ok((2 + d) as nat)
            }
        } else {
            let d = run_len(u.skip(1), CharClass::Digit);
            if d == 0 {
                Err(u[0])
            } else {
                Ok((1 + d) as nat)
            }
        }
    } else {
        Ok(0)
    }
}

/// Scans a numeric literal: `digits ('.' digits)? (('e'|'E') ('+'|'-')? digits)?`.
/// `s` must begin with a digit. A mantissa alone is an integer literal; any
/// decimal or exponent part makes it a float literal, handed back as the
/// consumed text.
pub open spec fn scan_number(s: Seq<char>) -> Scan
    recommends
        s.len() > 0,
        is_digit_char(s[0]),
{
    let m = run_len(s, CharClass::Digit);
    match decimal_part_len(s.skip(m as int)) {
        None => Scan::Fail(LexError::UnexpectedCharacter('.')),
        Some(d) => match exponent_part_len(s.skip(m + d as int)) {
            Err(c) => Scan::Fail(LexError::UnexpectedCharacter(c)),
            Ok(e) => {
                if d == 0 && e == 0 {
                    Scan::Token(
                        TokenModel::Literal(LiteralModel::Int(saturated_i32(digits_value(s.take(m as int))))),
                        m,
                    )
                } else {
                    Scan::Token(
                        TokenModel::Literal(LiteralModel::Float(s.take(m + d + e as int))),
                        (m + d + e) as nat,
                    )
                }
            },
        },
    }
}

// ---------------------------------------------------------------------------
// String literals
// ---------------------------------------------------------------------------

/// Scans the body of a string literal: `t` is the text after the opening
/// quote, `q` the delimiter that must close it, `escaped` whether a pending
/// escape marker awaits its character. On success, the unescaped content and
/// the number of characters consumed from `t`, closing delimiter included.
pub open spec fn string_body(t: Seq<char>, q: char, escaped: bool) -> Result<(Seq<char>, nat), LexError>
    decreases t.len(),
{
    if t.len() == 0 {
        Err(LexError::UnterminatedString)
    } else {
        let c = t[0];
        if c == '\\' && !escaped {
            match string_body(t.drop_first(), q, true) {
                Ok((w, n)) => Ok((w, (n + 1) as nat)),
                Err(e) => Err(e),
            }
        } else if c == q && !escaped {
            Ok((Seq::<char>::empty(), 1))
        } else if c == '\\' || c == q {
            // escaped: the marker or the delimiter stands for itself
            match string_body(t.drop_first(), q, false) {
                Ok((w, n)) => Ok((seq![c] + w, (n + 1) as nat)),
                Err(e) => Err(e),
            }
        } else if escaped {
            Err(LexError::UnsupportedEscape(c))
        } else {
            match string_body(t.drop_first(), q, false) {
                Ok((w, n)) => Ok((seq![c] + w, (n + 1) as nat)),
                Err(e) => Err(e),
            }
        }
    }
}

// ---------------------------------------------------------------------------
// Symbols
// ---------------------------------------------------------------------------

/// The symbol a single punctuation character yields on its own, if any.
/// `=` and `*` appear here with their one-character readings; [`scan_symbol`]
/// applies the two-character lookahead above this map. Quotes and every
/// punctuation character outside the catalog yield `None`.
pub open spec fn single_symbol(c: char) -> Option<SymbolKind> {
    match c {
        '=' => Some(SymbolKind::Assign),
        '+' => Some(SymbolKind::Plus),
        '-' => Some(SymbolKind::Minus),
        '*' => Some(SymbolKind::Mult),
        '/' => Some(SymbolKind::Div),
        ':' => Some(SymbolKind::Colon),
        ';' => Some(SymbolKind::Semicolon),
        ',' => Some(SymbolKind::Comma),
        '>' => Some(SymbolKind::GreaterThan),
        '<' => Some(SymbolKind::LessThan),
        '{' => Some(SymbolKind::OpenBraces),
        '}' => Some(SymbolKind::CloseBraces),
        '(' => Some(SymbolKind::OpenParens),
        ')' => Some(SymbolKind::CloseParens),
        '[' => Some(SymbolKind::OpenBrackets),
        ']' => Some(SymbolKind::CloseBrackets),
        _ => None,
    }
}

/// Scans a token that begins with a punctuation character: a string literal
/// after a quote, `==`/`**` by one character of lookahead, else the
/// single-character catalog.
pub open spec fn scan_symbol(s: Seq<char>) -> Scan
    recommends
        s.len() > 0,
        is_ascii_punct(s[0]),
{
    let c = s[0];
    if c == '\'' || c == '"' {
        match string_body(s.drop_first(), c, false) {
            Ok((w, n)) => Scan::Token(TokenModel::Literal(LiteralModel::Str(w)), (1 + n) as nat),
            Err(e) => Scan::Fail(e),
        }
    } else if c == '=' && s.len() > 1 && s[1] == '=' {
        Scan::Token(TokenModel::Symbol(SymbolKind::Equals), 2)
    } else if c == '*' && s.len() > 1 && s[1] == '*' {
        Scan::Token(TokenModel::Symbol(SymbolKind::Pow), 2)
    } else {
        match single_symbol(c) {
            Some(k) => Scan::Token(TokenModel::Symbol(k), 1),
            None => Scan::Fail(LexError::UnexpectedCharacter(c)),
        }
    }
}

// ---------------------------------------------------------------------------
// The dispatch
// ---------------------------------------------------------------------------

/// What one pull on the tokenizer produces when the unread input is `s`:
/// skip the maximal whitespace run, then dispatch on the class of the first
/// remaining character. Consumed counts include the skipped whitespace.
pub open spec fn scan(s: Seq<char>) -> Scan {
    let w = run_len(s, CharClass::Whitespace);
    let r = s.skip(w as int);
    if r.len() == 0 {
        Scan::Token(TokenModel::Eof, w)
    } else {
        let c = r[0];
        let inner = if is_ident_start(c) {
            scan_word(r)
        } else if is_digit_char(c) {
            scan_number(r)
        } else if is_ascii_punct(c) {
            scan_symbol(r)
        } else {
            Scan::Fail(LexError::UnexpectedCharacter(c))
        };
        match inner {
            Scan::Token(t, n) => Scan::Token(t, (w + n) as nat),
            Scan::Fail(e) => Scan::Fail(e),
        }
    }
}

// ---------------------------------------------------------------------------
// Facts about runs
// ---------------------------------------------------------------------------

/// The maximal run lies within the sequence, all its characters are in the
/// class, and the first character after it (if any) is not.
pub proof fn lemma_run_len_bounds(s: Seq<char>, k: CharClass)
    ensures
        run_len(s, k) <= s.len(),
        forall|i: int| 0 <= i < run_len(s, k) ==> in_class(k, s[i]),
        run_len(s, k) < s.len() ==> !in_class(k, s[run_len(s, k) as int]),
    decreases s.len(),
{
    if s.len() > 0 && in_class(k, s[0]) {
        lemma_run_len_bounds(s.drop_first(), k);
        assert forall|i: int| 0 <= i < run_len(s, k) implies in_class(k, s[i]) by {
            if i > 0 {
                assert(in_class(k, s.drop_first()[i - 1]));
            }
        }
    }
}

/// The value of a digit run is never negative.
pub proof fn lemma_digits_value_nonneg(s: Seq<char>)
    requires
        forall|i: int| 0 <= i < s.len() ==> is_digit_char(s[i]),
    ensures
        digits_value(s) >= 0,
    decreases s.len(),
{
    if s.len() > 0 {
        lemma_digits_value_nonneg(s.drop_last());
        assert(is_digit_char(s.last()));
    }
}

/// Appending one digit multiplies the value by ten and adds the digit.
pub proof fn lemma_digits_value_snoc(s: Seq<char>, i: int)
    requires
        0 <= i < s.len(),
    ensures
        digits_value(s.take(i + 1)) == digits_value(s.take(i)) * 10 + (s[i] as u32 - '0' as u32),
{
    assert(s.take(i + 1).drop_last() =~= s.take(i));
    assert(s.take(i + 1).last() == s[i]);
}

/// A prefix of in-class characters stopped by the end of the sequence or by
/// an out-of-class character is the maximal run.
pub proof fn lemma_run_len_exact(s: Seq<char>, k: CharClass, n: nat)
    requires
        n <= s.len(),
        forall|i: int| 0 <= i < n ==> in_class(k, s[i]),
        n == s.len() || !in_class(k, s[n as int]),
    ensures
        run_len(s, k) == n,
    decreases s.len(),
{
    if n == 0 {
        if s.len() > 0 {
            assert(!in_class(k, s[0]));
        }
    } else {
        assert(in_class(k, s[0]));
        let t = s.drop_first();
        assert forall|i: int| 0 <= i < n - 1 implies in_class(k, t[i]) by {
            assert(t[i] == s[i + 1]);
        }
        if n < s.len() {
            assert(t[n - 1] == s[n as int]);
        }
        lemma_run_len_exact(t, k, (n - 1) as nat);
    }
}

} // verus!
