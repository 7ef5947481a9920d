//! Proved properties of the lexical grammar.
//!
//! Each proof function here states a law over [`crate::grammar::scan`], the
//! specification that [`crate::lexer::Tokenizer::next_token`] is bound to by
//! its contract; together they say how whole scans behave, beyond what any
//! single call's contract states.

use crate::grammar::{
    in_class, is_ascii_punct, is_digit_char, is_ident_char, is_ident_start, is_whitespace_char,
    keyword_of, lemma_run_len_exact, run_len, scan, CharClass, Scan,
};
use crate::token::{LexError, TokenModel};
use vstd::prelude::*;

verus! {

/// An input of whitespace alone — the empty input included — scans to the
/// end-of-input token at once, consuming everything; nothing is left to
/// read, so every later scan does the same.
pub proof fn lemma_whitespace_only_scans_to_eof(s: Seq<char>)
    requires
        forall|i: int| 0 <= i < s.len() ==> is_whitespace_char(s[i]),
    ensures
        scan(s) == Scan::Token(TokenModel::Eof, s.len() as nat),
{
    lemma_run_len_exact(s, CharClass::Whitespace, s.len() as nat);
    assert(s.skip(s.len() as int).len() == 0);
}

/// End of input is forever: a scan that produced the end-of-input token has
/// consumed the whole input, and the scan of what is left produces the
/// end-of-input token again, consuming nothing.
pub proof fn lemma_eof_idempotent(s: Seq<char>, n: nat)
    requires
        scan(s) == Scan::Token(TokenModel::Eof, n),
    ensures
        n <= s.len(),
        s.skip(n as int).len() == 0,
        scan(s.skip(n as int)) == Scan::Token(TokenModel::Eof, 0),
{
    let w = run_len(s, CharClass::Whitespace);
    let r = s.skip(w as int);
    crate::grammar::lemma_run_len_bounds(s, CharClass::Whitespace);
    if r.len() > 0 {
        // every dispatch on a remaining character yields something other
        // than the end-of-input token
        assert(scan(s) != Scan::Token(TokenModel::Eof, n));
    }
    assert(s.skip(n as int) == r);
    assert(r.skip(0) =~= r);
}

/// Round trip for identifiers: a maximal run of identifier characters that
/// begins with a letter or underscore scans to an identifier carrying exactly
/// that text — or, when the run spells a reserved word, to that keyword —
/// consuming exactly the run.
pub proof fn lemma_identifier_round_trip(w: Seq<char>, rest: Seq<char>)
    requires
        w.len() > 0,
        is_ident_start(w[0]),
        forall|i: int| 0 <= i < w.len() ==> is_ident_char(w[i]),
        rest.len() > 0 ==> !is_ident_char(rest[0]),
    ensures
        (keyword_of(w) matches Some(k) ==> scan(w + rest) == Scan::Token(
            TokenModel::Keyword(k),
            w.len() as nat,
        )),
        keyword_of(w) is None ==> scan(w + rest) == Scan::Token(
            TokenModel::Ident(w),
            w.len() as nat,
        ),
{
    let s = w + rest;
    assert(s[0] == w[0]);
    assert(!is_whitespace_char(s[0]));
    lemma_run_len_exact(s, CharClass::Whitespace, 0);
    assert(s.skip(0) =~= s);
    assert forall|i: int| 0 <= i < w.len() implies in_class(CharClass::IdentChar, s[i]) by {
        assert(s[i] == w[i]);
    }
    if rest.len() > 0 {
        assert(s[w.len() as int] == rest[0]);
    }
    lemma_run_len_exact(s, CharClass::IdentChar, w.len() as nat);
    assert(s.take(w.len() as int) =~= w);
}

/// A character that no token class accepts — not whitespace, not an
/// identifier start, not a digit, not ASCII punctuation — standing where a
/// token would have to begin, fails the scan with `UnexpectedCharacter`
/// carrying that character.
pub proof fn lemma_unclassifiable_char_fails(s: Seq<char>, i: int)
    requires
        0 <= i < s.len(),
        forall|j: int| 0 <= j < i ==> is_whitespace_char(s[j]),
        !is_whitespace_char(s[i]),
        !is_ident_start(s[i]),
        !is_digit_char(s[i]),
        !is_ascii_punct(s[i]),
    ensures
        scan(s) == Scan::Fail(LexError::UnexpectedCharacter(s[i])),
{
    lemma_run_len_exact(s, CharClass::Whitespace, i as nat);
    assert(s.skip(i)[0] == s[i]);
    assert(s.skip(i).len() > 0);
}

} // verus!
