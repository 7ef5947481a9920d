//! The executable tokenizer: a lookahead-capable cursor over borrowed source
//! text, and the scanning routines, each proved against the grammar in
//! [`crate::grammar`].

use crate::grammar::{
    decimal_part_len, digits_value, exponent_part_len, in_class, is_ascii_punct, is_digit_char,
    is_ident_start, is_whitespace_char, run_len, saturated_i32, scan, scan_number, scan_symbol,
    scan_word, string_body, CharClass, Scan,
};
use crate::grammar::{
    lemma_digits_value_nonneg, lemma_digits_value_snoc, lemma_run_len_bounds, lemma_run_len_exact,
};
use crate::token::{KeywordKind, LexError, LiteralKind, SymbolKind, TokenKind};
use vstd::prelude::*;
use vstd::string::{StrSliceExecFns, StringExecFns};

verus! {

// ---------------------------------------------------------------------------
// Executable character classification
// ---------------------------------------------------------------------------

/// Decides [`is_whitespace_char`].
fn char_is_whitespace(c: char) -> (b: bool)
    ensures
        b == is_whitespace_char(c),
{
    let u = c as u32;
    u == 0x20 || (0x9 <= u && u <= 0xd) || u == 0x85 || u == 0xa0 || u == 0x1680 || (0x2000 <= u
        && u <= 0x200a) || u == 0x2028 || u == 0x2029 || u == 0x202f || u == 0x205f || u == 0x3000
}

/// Decides [`is_ident_start`].
fn char_is_ident_start(c: char) -> (b: bool)
    ensures
        b == is_ident_start(c),
{
    let u = c as u32;
    (0x61 <= u && u <= 0x7a) || (0x41 <= u && u <= 0x5a) || u == 0x5f
}

/// Decides [`is_digit_char`].
fn char_is_digit(c: char) -> (b: bool)
    ensures
        b == is_digit_char(c),
{
    let u = c as u32;
    0x30 <= u && u <= 0x39
}

/// Decides [`is_ascii_punct`].
fn char_is_punct(c: char) -> (b: bool)
    ensures
        b == is_ascii_punct(c),
{
    let u = c as u32;
    (0x21 <= u && u <= 0x2f) || (0x3a <= u && u <= 0x40) || (0x5b <= u && u <= 0x60) || (0x7b <= u
        && u <= 0x7e)
}

/// Decides membership in a [`CharClass`].
fn char_matches_class(c: char, k: CharClass) -> (b: bool)
    ensures
        b == in_class(k, c),
{
    match k {
        CharClass::Whitespace => char_is_whitespace(c),
        CharClass::IdentChar => {
            char_is_ident_start(c) || char_is_digit(c)
        },
        CharClass::Digit => char_is_digit(c),
    }
}

/// Character-for-character equality of two string slices.
fn str_eq(a: &str, b: &str) -> (r: bool)
    ensures
        r == (a@ == b@),
{
    let alen: usize = a.unicode_len();
    let blen: usize = b.unicode_len();
    if alen != blen {
        return false;
    }
    let mut i: usize = 0;
    while i < alen
        invariant
            i <= alen,
            alen == a@.len(),
            alen == blen,
            blen == b@.len(),
            forall|j: int| 0 <= j < i ==> a@[j] == b@[j],
        decreases alen - i,
    {
        if a.get_char(i) != b.get_char(i) {
            assert(a@ != b@) by {
                assert(a@ == b@ ==> a@[i as int] == b@[i as int]);
            }
            return false;
        }
        i = i + 1;
    }
    proof {
        assert(a@ =~= b@);
    }
    true
}

/// Parses a run of decimal digits to an `i32`, saturating at `i32::MAX`.
fn digits_to_i32(w: &str) -> (v: i32)
    requires
        w@.len() > 0,
        forall|i: int| 0 <= i < w@.len() ==> is_digit_char(w@[i]),
    ensures
        v == saturated_i32(digits_value(w@)),
{
    let n: usize = w.unicode_len();
    // Accumulate in a wider register; once past `i32::MAX` the exact value no
    // longer matters, only that it stays past it.
    let mut acc: i64 = 0;
    let mut i: usize = 0;
    while i < n
        invariant
            i <= n,
            n == w@.len(),
            forall|j: int| 0 <= j < w@.len() ==> is_digit_char(w@[j]),
            0 <= acc <= 0x7fffffff * 10 + 9,
            digits_value(w@.take(i as int)) <= i32::MAX as int ==> acc == digits_value(
                w@.take(i as int),
            ),
            digits_value(w@.take(i as int)) > i32::MAX as int ==> acc > i32::MAX as int,
        decreases n - i,
    {
        let c = w.get_char(i);
        proof {
            assert(is_digit_char(w@[i as int]));
            lemma_digits_value_snoc(w@, i as int);
            lemma_digits_value_nonneg(w@.take(i as int));
        }
        let d: u32 = c as u32 - 0x30;
        if acc <= 0x7fffffff {
            acc = acc * 10 + d as i64;
        }
        i = i + 1;
    }
    proof {
        assert(w@.take(n as int) =~= w@);
    }
    if acc > 0x7fffffff {
        i32::MAX
    } else {
        acc as i32
    }
}

// ---------------------------------------------------------------------------
// The tokenizer and its cursor primitives
// ---------------------------------------------------------------------------

/// A pull-based tokenizer over borrowed source text: a lazily advancing
/// cursor with one character of lookahead, never rewound.
pub struct Tokenizer<'a> {
    source: &'a str,
    len: usize,
    pos: usize,
}

impl<'a> Tokenizer<'a> {
    /// The full input text.
    pub closed spec fn input(self) -> Seq<char> {
        self.source@
    }

    /// The unread suffix of the input.
    pub closed spec fn remaining(self) -> Seq<char> {
        self.source@.skip(self.pos as int)
    }

    /// Well-formedness: the cursor lies within the input.
    pub closed spec fn wf(self) -> bool {
        self.len == self.source@.len() && self.pos <= self.len
    }

    /// Builds a tokenizer over `source`, with nothing read yet.
    pub fn new(source: &'a str) -> (t: Tokenizer<'a>)
        ensures
            t.wf(),
            t.input() == source@,
            t.remaining() == source@,
    {
        let len: usize = source.unicode_len();
        let t = Tokenizer { source, len, pos: 0 };
        proof {
            assert(t.remaining() =~= source@);
        }
        t
    }

    /// The next unread character, if any, left unread.
    fn peek(&self) -> (r: Option<char>)
        requires
            self.wf(),
        ensures
            r == (if self.remaining().len() > 0 {
                Some(self.remaining()[0])
            } else {
                None::<char>
            }),
    {
        if self.pos < self.len {
            Some(self.source.get_char(self.pos))
        } else {
            None
        }
    }

    /// Whether the next unread character is exactly `c`.
    fn next_is(&self, c: char) -> (r: bool)
        requires
            self.wf(),
        ensures
            r == (self.remaining().len() > 0 && self.remaining()[0] == c),
    {
        if self.pos < self.len {
            self.source.get_char(self.pos) == c
        } else {
            false
        }
    }

    /// Whether the next unread character exists and lies in class `k`.
    fn next_in_class(&self, k: CharClass) -> (r: bool)
        requires
            self.wf(),
        ensures
            r == (self.remaining().len() > 0 && in_class(k, self.remaining()[0])),
    {
        if self.pos < self.len {
            char_matches_class(self.source.get_char(self.pos), k)
        } else {
            false
        }
    }

    /// Consumes and returns the next character.
    fn advance(&mut self) -> (c: char)
        requires
            old(self).wf(),
            old(self).remaining().len() > 0,
        ensures
            final(self).wf(),
            final(self).input() == old(self).input(),
            final(self).pos == old(self).pos + 1,
            c == old(self).remaining()[0],
            final(self).remaining() == old(self).remaining().drop_first(),
    {
        let c = self.source.get_char(self.pos);
        self.pos = self.pos + 1;
        proof {
            assert(self.remaining() =~= old(self).remaining().drop_first());
        }
        c
    }

    /// Consumes the maximal run of characters of class `k` and returns its
    /// length.
    fn read_while(&mut self, k: CharClass) -> (n: usize)
        requires
            old(self).wf(),
        ensures
            final(self).wf(),
            final(self).input() == old(self).input(),
            n == run_len(old(self).remaining(), k),
            final(self).pos == old(self).pos + n,
            final(self).remaining() == old(self).remaining().skip(n as int),
    {
        let ghost input0 = self.input();
        let ghost s0 = self.remaining();
        let start: usize = self.pos;
        while self.next_in_class(k)
            invariant
                self.wf(),
                self.input() == input0,
                start <= self.pos,
                s0 == input0.skip(start as int),
                self.pos - start <= s0.len(),
                self.remaining() == s0.skip(self.pos - start),
                forall|j: int| 0 <= j < self.pos - start ==> in_class(k, s0[j]),
            decreases self.len - self.pos,
        {
            proof {
                assert(s0.skip(self.pos - start)[0] == s0[self.pos - start]);
                assert(s0.skip(self.pos - start).drop_first() =~= s0.skip(self.pos + 1 - start));
            }
            let _ = self.advance();
        }
        proof {
            lemma_run_len_exact(s0, k, (self.pos - start) as nat);
        }
        self.pos - start
    }

    // -----------------------------------------------------------------------
    // Scanning routines
    // -----------------------------------------------------------------------

    /// Scans an identifier or keyword, starting at an identifier-start
    /// character.
    fn parse_alphabetic_token(&mut self) -> (res: TokenKind)
        requires
            old(self).wf(),
            old(self).remaining().len() > 0,
            is_ident_start(old(self).remaining()[0]),
        ensures
            final(self).wf(),
            final(self).input() == old(self).input(),
            (scan_word(old(self).remaining()) matches Scan::Token(t, n)
                && res@ == t
                && n <= old(self).remaining().len()
                && final(self).remaining() == old(self).remaining().skip(n as int)),
    {
        let ghost s0 = self.remaining();
        let start: usize = self.pos;
        let n = self.read_while(CharClass::IdentChar);
        proof {
            assert(in_class(CharClass::IdentChar, s0[0]));
            assert(run_len(s0, CharClass::IdentChar) >= 1);
        }
        let w: &str = self.source.substring_char(start, self.pos);
        proof {
            assert(w@ =~= s0.take(n as int));
        }
        if str_eq(w, "let") {
            TokenKind::Keyword(KeywordKind::Let)
        } else if str_eq(w, "if") {
            TokenKind::Keyword(KeywordKind::If)
        } else if str_eq(w, "elif") {
            TokenKind::Keyword(KeywordKind::Elif)
        } else if str_eq(w, "else") {
            TokenKind::Keyword(KeywordKind::Else)
        } else if str_eq(w, "func") {
            TokenKind::Keyword(KeywordKind::Func)
        } else {
            TokenKind::Ident(w.to_owned())
        }
    }

    /// Scans a numeric literal, starting at a digit: a mantissa, an optional
    /// decimal part, an optional exponent part.
    fn parse_numeric_literal(&mut self) -> (res: Result<TokenKind, LexError>)
        requires
            old(self).wf(),
            old(self).remaining().len() > 0,
            is_digit_char(old(self).remaining()[0]),
        ensures
            final(self).wf(),
            final(self).input() == old(self).input(),
            match scan_number(old(self).remaining()) {
                Scan::Token(t, n) => res matches Ok(tok) && tok@ == t
                    && n <= old(self).remaining().len()
                    && final(self).remaining() == old(self).remaining().skip(n as int),
                Scan::Fail(e) => res == Err::<TokenKind, LexError>(e),
            },
    {
        let ghost s0 = self.remaining();
        let start: usize = self.pos;
        let m = self.read_while(CharClass::Digit);
        proof {
            assert(in_class(CharClass::Digit, s0[0]));
            assert(run_len(s0, CharClass::Digit) >= 1);
        }
        let ghost t1 = self.remaining();
        let ghost mut dlen: nat = 0;
        let mut is_float = false;
        // decimal part
        if self.next_is('.') {
            let _ = self.advance();
            proof {
                assert(t1.drop_first() =~= t1.skip(1));
            }
            let d = self.read_while(CharClass::Digit);
            if d == 0 {
                assert(decimal_part_len(t1) is None);
                return Err(LexError::UnexpectedCharacter('.'));
            }
            proof {
                dlen = (1 + d) as nat;
            }
            is_float = true;
        }
        proof {
            assert(decimal_part_len(t1) == Some(dlen));
            assert(self.remaining() =~= s0.skip(m + dlen));
            assert(self.pos == start + m + dlen);
        }
        let ghost t2 = self.remaining();
        let ghost mut elen: nat = 0;
        // exponent part
        if self.next_is('e') || self.next_is('E') {
            let marker = self.advance();
            proof {
                assert(t2.drop_first() =~= t2.skip(1));
            }
            if self.next_is('+') || self.next_is('-') {
                let sign = self.advance();
                proof {
                    assert(t2.skip(1).drop_first() =~= t2.skip(2));
                }
                let d2 = self.read_while(CharClass::Digit);
                if d2 == 0 {
                    assert(exponent_part_len(t2) == Err::<nat, char>(sign));
                    return Err(LexError::UnexpectedCharacter(sign));
                }
                proof {
                    elen = (2 + d2) as nat;
                }
                is_float = true;
            } else {
                let d2 = self.read_while(CharClass::Digit);
                if d2 == 0 {
                    assert(exponent_part_len(t2) == Err::<nat, char>(marker));
                    return Err(LexError::UnexpectedCharacter(marker));
                }
                proof {
                    elen = (1 + d2) as nat;
                }
                is_float = true;
            }
        }
        proof {
            assert(exponent_part_len(t2) == Ok::<nat, char>(elen));
            assert(self.remaining() =~= s0.skip(m + dlen + elen));
            assert(self.pos == start + m + dlen + elen);
        }
        if !is_float {
            // an integer literal: the mantissa alone
            proof {
                lemma_run_len_bounds(s0, CharClass::Digit);
            }
            let w: &str = self.source.substring_char(start, self.pos);
            proof {
                assert(w@ =~= s0.take(m as int));
            }
            let v = digits_to_i32(w);
            Ok(TokenKind::Literal(LiteralKind::Int(v)))
        } else {
            // a float literal: the consumed text, verbatim
            let text: &str = self.source.substring_char(start, self.pos);
            proof {
                assert(text@ =~= s0.take(m + dlen + elen));
            }
            Ok(TokenKind::Literal(LiteralKind::Float(text.to_owned())))
        }
    }

    /// Scans a string literal, starting at its opening quote. The opening
    /// character is remembered as the required closing delimiter.
    fn parse_string_literal(&mut self) -> (res: Result<TokenKind, LexError>)
        requires
            old(self).wf(),
            old(self).remaining().len() > 0,
            old(self).remaining()[0] == '\'' || old(self).remaining()[0] == '"',
        ensures
            final(self).wf(),
            final(self).input() == old(self).input(),
            match scan_symbol(old(self).remaining()) {
                Scan::Token(t, n) => res matches Ok(tok) && tok@ == t
                    && n <= old(self).remaining().len()
                    && final(self).remaining() == old(self).remaining().skip(n as int),
                Scan::Fail(e) => res == Err::<TokenKind, LexError>(e),
            },
    {
        let ghost s0 = self.remaining();
        let ghost input0 = self.input();
        let q = self.advance();
        let ghost t0 = self.remaining();
        let mut word = String::new();
        let mut escaped = false;
        proof {
            match string_body(t0, q, false) {
                Ok(p) => {
                    assert(word@ + p.0 =~= p.0);
                },
                Err(_) => {},
            }
        }
        #[verifier::loop_isolation(false)]
        loop
            invariant
                self.wf(),
                self.input() == input0,
                s0.len() > 0,
                q == s0[0],
                t0 == s0.drop_first(),
                self.remaining().len() <= t0.len(),
                self.remaining() == t0.skip(t0.len() - self.remaining().len()),
                self.pos == self.len - self.remaining().len(),
                match string_body(self.remaining(), q, escaped) {
                    Ok(p) => string_body(t0, q, false) == Ok::<(Seq<char>, nat), LexError>(
                        (word@ + p.0, (t0.len() - self.remaining().len() + p.1) as nat),
                    ),
                    Err(e) => string_body(t0, q, false) == Err::<(Seq<char>, nat), LexError>(e),
                },
            decreases self.remaining().len(),
        {
            let ghost rem0 = self.remaining();
            match self.peek() {
                None => {
                    return Err(LexError::UnterminatedString);
                },
                Some(c) => {
                    let idx: usize = self.pos;
                    let _ = self.advance();
                    proof {
                        assert(rem0.drop_first() =~= t0.skip(t0.len() - rem0.len() + 1));
                    }
                    if c == '\\' {
                        if escaped {
                            let piece: &str = self.source.substring_char(idx, idx + 1);
                            proof {
                                assert(piece@ =~= seq![c]);
                                match string_body(self.remaining(), q, false) {
                                    Ok(p) => {
                                        assert(word@ + (seq![c] + p.0) =~= (word@ + seq![c])
                                            + p.0);
                                    },
                                    Err(_) => {},
                                }
                            }
                            word.append(piece);
                            escaped = false;
                        } else {
                            escaped = true;
                        }
                    } else if c == q {
                        if escaped {
                            let piece: &str = self.source.substring_char(idx, idx + 1);
                            proof {
                                assert(piece@ =~= seq![c]);
                                match string_body(self.remaining(), q, false) {
                                    Ok(p) => {
                                        assert(word@ + (seq![c] + p.0) =~= (word@ + seq![c])
                                            + p.0);
                                    },
                                    Err(_) => {},
                                }
                            }
                            word.append(piece);
                            escaped = false;
                        } else {
                            proof {
                                assert(word@ + Seq::<char>::empty() =~= word@);
                                let used: int = t0.len() - rem0.len() + 1;
                                assert(s0.skip(1 + used) =~= t0.skip(used));
                            }
                            return Ok(TokenKind::Literal(LiteralKind::String(word)));
                        }
                    } else {
                        if escaped {
                            return Err(LexError::UnsupportedEscape(c));
                        } else {
                            let piece: &str = self.source.substring_char(idx, idx + 1);
                            proof {
                                assert(piece@ =~= seq![c]);
                                match string_body(self.remaining(), q, false) {
                                    Ok(p) => {
                                        assert(word@ + (seq![c] + p.0) =~= (word@ + seq![c])
                                            + p.0);
                                    },
                                    Err(_) => {},
                                }
                            }
                            word.append(piece);
                        }
                    }
                },
            }
        }
    }

    /// Scans a token that begins with a punctuation character: a string
    /// literal after a quote, `==`/`**` by one character of lookahead, else
    /// the single-character catalog.
    fn parse_punctuation_token(&mut self) -> (res: Result<TokenKind, LexError>)
        requires
            old(self).wf(),
            old(self).remaining().len() > 0,
            is_ascii_punct(old(self).remaining()[0]),
        ensures
            final(self).wf(),
            final(self).input() == old(self).input(),
            match scan_symbol(old(self).remaining()) {
                Scan::Token(t, n) => res matches Ok(tok) && tok@ == t
                    && n <= old(self).remaining().len()
                    && final(self).remaining() == old(self).remaining().skip(n as int),
                Scan::Fail(e) => res == Err::<TokenKind, LexError>(e),
            },
    {
        let ghost s0 = self.remaining();
        let c = match self.peek() {
            Some(ch) => ch,
            None => vstd::pervasive::unreached(),
        };
        if c == '\'' || c == '"' {
            self.parse_string_literal()
        } else {
            let _ = self.advance();
            proof {
                assert(s0.drop_first() =~= s0.skip(1));
            }
            if c == '=' {
                if self.next_is('=') {
                    let _ = self.advance();
                    proof {
                        assert(s0.skip(1).drop_first() =~= s0.skip(2));
                    }
                    Ok(TokenKind::Symbol(SymbolKind::Equals))
                } else {
                    Ok(TokenKind::Symbol(SymbolKind::Assign))
                }
            } else if c == '*' {
                if self.next_is('*') {
                    let _ = self.advance();
                    proof {
                        assert(s0.skip(1).drop_first() =~= s0.skip(2));
                    }
                    Ok(TokenKind::Symbol(SymbolKind::Pow))
                } else {
                    Ok(TokenKind::Symbol(SymbolKind::Mult))
                }
            } else if c == '+' {
                Ok(TokenKind::Symbol(SymbolKind::Plus))
            } else if c == '-' {
                Ok(TokenKind::Symbol(SymbolKind::Minus))
            } else if c == '/' {
                Ok(TokenKind::Symbol(SymbolKind::Div))
            } else if c == ':' {
                Ok(TokenKind::Symbol(SymbolKind::Colon))
            } else if c == ';' {
                Ok(TokenKind::Symbol(SymbolKind::Semicolon))
            } else if c == ',' {
                Ok(TokenKind::Symbol(SymbolKind::Comma))
            } else if c == '>' {
                Ok(TokenKind::Symbol(SymbolKind::GreaterThan))
            } else if c == '<' {
                Ok(TokenKind::Symbol(SymbolKind::LessThan))
            } else if c == '{' {
                Ok(TokenKind::Symbol(SymbolKind::OpenBraces))
            } else if c == '}' {
                Ok(TokenKind::Symbol(SymbolKind::CloseBraces))
            } else if c == '(' {
                Ok(TokenKind::Symbol(SymbolKind::OpenParens))
            } else if c == ')' {
                Ok(TokenKind::Symbol(SymbolKind::CloseParens))
            } else if c == '[' {
                Ok(TokenKind::Symbol(SymbolKind::OpenBrackets))
            } else if c == ']' {
                Ok(TokenKind::Symbol(SymbolKind::CloseBrackets))
            } else {
                Err(LexError::UnexpectedCharacter(c))
            }
        }
    }

    /// Returns the next token, consuming exactly the characters that form it
    /// and any whitespace before it. The result follows [`scan`] applied to
    /// the unread input: one token per call, with `TokenKind::Eof` once the
    /// input is exhausted, forever after. After an error the unread cursor
    /// position is unspecified; the stream should be abandoned.
    pub fn next_token(&mut self) -> (res: Result<TokenKind, LexError>)
        requires
            old(self).wf(),
        ensures
            final(self).wf(),
            final(self).input() == old(self).input(),
            match scan(old(self).remaining()) {
                Scan::Token(t, n) => res matches Ok(tok) && tok@ == t
                    && n <= old(self).remaining().len()
                    && final(self).remaining() == old(self).remaining().skip(n as int),
                Scan::Fail(e) => res == Err::<TokenKind, LexError>(e),
            },
    {
        let ghost s0 = self.remaining();
        let w = self.read_while(CharClass::Whitespace);
        let ghost r = self.remaining();
        proof {
            assert forall|x: int| 0 <= x <= r.len() implies r.skip(x) == s0.skip(w + x) by {
                assert(r.skip(x) =~= s0.skip(w + x));
            }
        }
        match self.peek() {
            None => Ok(TokenKind::Eof),
            Some(c) => {
                if char_is_ident_start(c) {
                    let t = self.parse_alphabetic_token();
                    Ok(t)
                } else if char_is_digit(c) {
                    self.parse_numeric_literal()
                } else if char_is_punct(c) {
                    self.parse_punctuation_token()
                } else {
                    Err(LexError::UnexpectedCharacter(c))
                }
            },
        }
    }
}

} // verus!
