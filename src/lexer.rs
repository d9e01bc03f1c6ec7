//! Splitting one script line into tokens.
//!
//! A line that starts with `#` is a comment and has no tokens. Elsewhere,
//! blanks (space, tab, line feed, form feed) separate tokens; a token is the
//! keyword `syscall`, a number (an optional sign, then digits), or a string
//! (text between two double quotes). Anything else fails the line.

use vstd::prelude::*;
use crate::error::ScxError;
use crate::number::MINUS;
use crate::number::NINE;
use crate::number::PLUS;
use crate::number::ZERO;
use crate::number::is_digit;

verus! {

/// The byte of `#`, which opens a comment line.
pub const COMMENT: u8 = 0x23;

/// The byte of `"`, which opens and closes a string.
pub const QUOTE: u8 = 0x22;

/// What a token is.
#[derive(Debug, Clone, Copy, PartialEq, Eq, Structural)]
pub enum TokenKind {
    /// The keyword `syscall`.
    Syscall,
    /// An optional sign and one or more digits.
    Number,
    /// A double-quoted string, quotes included.
    String,
}

/// A token, and the bytes `start..end` of its line that it covers.
#[derive(Debug, Clone, Copy, PartialEq, Eq, Structural)]
pub struct Token {
    pub kind: TokenKind,
    pub start: usize,
    pub end: usize,
}

/// A byte that separates tokens.
pub open spec fn is_blank(b: u8) -> bool {
    b == 0x20 || b == 0x09 || b == 0x0a || b == 0x0c
}

/// The bytes of the keyword `syscall`.
pub open spec fn keyword() -> Seq<u8> {
    seq![0x73u8, 0x79u8, 0x73u8, 0x63u8, 0x61u8, 0x6cu8, 0x6cu8]
}

/// The keyword starts at `p`.
pub open spec fn keyword_at(line: Seq<u8>, p: int) -> bool {
    0 <= p && p + 7 <= line.len() && line.subrange(p, p + 7) == keyword()
}

/// Where the run of digits that starts at `p` ends.
pub open spec fn digits_end(line: Seq<u8>, p: int) -> int
    decreases line.len() - p,
{
    if 0 <= p < line.len() && is_digit(line[p]) {
        digits_end(line, p + 1)
    } else {
        p
    }
}

/// The first quote at or after `p`, if the line has one.
pub open spec fn quote_at_or_after(line: Seq<u8>, p: int) -> Option<int>
    decreases line.len() - p,
{
    if p < 0 || p >= line.len() {
        None
    } else if line[p] == QUOTE {
        Some(p)
    } else {
        quote_at_or_after(line, p + 1)
    }
}

/// A number starts at `p`: a digit, or a sign followed by a digit.
pub open spec fn number_at(line: Seq<u8>, p: int) -> bool {
    0 <= p < line.len() && (is_digit(line[p]) || ((line[p] == PLUS || line[p] == MINUS) && p
        + 1 < line.len() && is_digit(line[p + 1])))
}

/// `first` followed by the tokens in `rest`, if the rest lexed.
pub open spec fn prepend(first: Seq<Token>, rest: Option<Seq<Token>>) -> Option<Seq<Token>> {
    match rest {
        Some(t) => Some(first + t),
        None => None,
    }
}

/// The tokens of `line` from byte `p` on, or `None` where some text matches
/// no token.
pub open spec fn lex_from(line: Seq<u8>, p: int) -> Option<Seq<Token>>
    decreases line.len() - p,
    when 0 <= p
    via lex_from_decreases
{
    if p >= line.len() {
        Some(Seq::empty())
    } else if is_blank(line[p]) {
        lex_from(line, p + 1)
    } else if keyword_at(line, p) {
        prepend(
            seq![Token { kind: TokenKind::Syscall, start: p as usize, end: (p + 7) as usize }],
            lex_from(line, p + 7),
        )
    } else if number_at(line, p) {
        let e = digits_end(line, p + 1);
        prepend(
            seq![Token { kind: TokenKind::Number, start: p as usize, end: e as usize }],
            lex_from(line, e),
        )
    } else if line[p] == QUOTE {
        match quote_at_or_after(line, p + 1) {
            Some(q) => prepend(
                seq![Token { kind: TokenKind::String, start: p as usize, end: (q + 1) as usize }],
                lex_from(line, q + 1),
            ),
            None => None,
        }
    } else {
        None
    }
}

proof fn lemma_digits_end(line: Seq<u8>, p: int)
    requires
        0 <= p <= line.len(),
    ensures
        p <= digits_end(line, p) <= line.len(),
    decreases line.len() - p,
{
    if p < line.len() && is_digit(line[p]) {
        lemma_digits_end(line, p + 1);
    }
}

proof fn lemma_quote_at_or_after(line: Seq<u8>, p: int)
    requires
        0 <= p,
    ensures
        quote_at_or_after(line, p) matches Some(q) ==> p <= q < line.len() && line[q] == QUOTE,
    decreases line.len() - p,
{
    if p < line.len() && line[p] != QUOTE {
        lemma_quote_at_or_after(line, p + 1);
    }
}

#[via_fn]
proof fn lex_from_decreases(line: Seq<u8>, p: int) {
    if 0 <= p < line.len() {
        if number_at(line, p) {
            lemma_digits_end(line, p + 1);
        }
        lemma_quote_at_or_after(line, p + 1);
    }
}

/// A token covers bytes that the line has, and a string token holds at
/// least its two quotes.
pub open spec fn token_fits(line: Seq<u8>, t: Token) -> bool {
    &&& t.start < t.end <= line.len()
    &&& t.kind == TokenKind::String ==> t.start + 2 <= t.end
}

proof fn lemma_prepend_fits(line: Seq<u8>, t: Token, rest: Option<Seq<Token>>)
    requires
        token_fits(line, t),
        rest matches Some(r) ==> forall|k: int| 0 <= k < r.len() ==> token_fits(line, #[trigger] r[k]),
    ensures
        prepend(seq![t], rest) matches Some(ts) ==> forall|k: int|
            0 <= k < ts.len() ==> token_fits(line, #[trigger] ts[k]),
{
    if let Some(r) = rest {
        let ts = seq![t] + r;
        assert forall|k: int| 0 <= k < ts.len() implies token_fits(line, #[trigger] ts[k]) by {
            if k > 0 {
                assert(ts[k] == r[k - 1]);
            }
        }
    }
}

proof fn lemma_lex_from_fits(line: Seq<u8>, p: int)
    requires
        0 <= p,
        line.len() <= usize::MAX,
    ensures
        lex_from(line, p) matches Some(ts) ==> forall|k: int|
            0 <= k < ts.len() ==> token_fits(line, #[trigger] ts[k]),
    decreases line.len() - p,
{
    if p < line.len() {
        if is_blank(line[p]) {
            lemma_lex_from_fits(line, p + 1);
        } else if keyword_at(line, p) {
            lemma_lex_from_fits(line, p + 7);
            let t = Token { kind: TokenKind::Syscall, start: p as usize, end: (p + 7) as usize };
            lemma_prepend_fits(line, t, lex_from(line, p + 7));
        } else if number_at(line, p) {
            let e = digits_end(line, p + 1);
            lemma_digits_end(line, p + 1);
            lemma_lex_from_fits(line, e);
            let t = Token { kind: TokenKind::Number, start: p as usize, end: e as usize };
            lemma_prepend_fits(line, t, lex_from(line, e));
        } else if line[p] == QUOTE {
            lemma_quote_at_or_after(line, p + 1);
            if let Some(q) = quote_at_or_after(line, p + 1) {
                lemma_lex_from_fits(line, q + 1);
                let t = Token { kind: TokenKind::String, start: p as usize, end: (q + 1) as usize };
                lemma_prepend_fits(line, t, lex_from(line, q + 1));
            }
        }
    }
}

/// Every token of a line fits the line.
pub proof fn lemma_tokens_fit(line: Seq<u8>)
    requires
        line.len() <= usize::MAX,
    ensures
        tokens_of(line) matches Some(ts) ==> forall|k: int|
            0 <= k < ts.len() ==> token_fits(line, #[trigger] ts[k]),
{
    lemma_lex_from_fits(line, 0);
}

/// The tokens of a whole line: none for a comment line.
pub open spec fn tokens_of(line: Seq<u8>) -> Option<Seq<Token>> {
    if line.len() > 0 && line[0] == COMMENT {
        Some(Seq::empty())
    } else {
        lex_from(line, 0)
    }
}

fn is_digit_byte(b: u8) -> (r: bool)
    ensures
        r == is_digit(b),
{
    ZERO <= b && b <= NINE
}

fn keyword_starts(line: &[u8], p: usize) -> (r: bool)
    requires
        p < line@.len(),
    ensures
        r == keyword_at(line@, p as int),
{
    if line.len() - p < 7 {
        return false;
    }
    let r = line[p] == 0x73 && line[p + 1] == 0x79 && line[p + 2] == 0x73 && line[p + 3] == 0x63
        && line[p + 4] == 0x61 && line[p + 5] == 0x6c && line[p + 6] == 0x6c;
    proof {
        let s = line@.subrange(p as int, p + 7);
        if r {
            assert(s =~= keyword());
        } else {
            assert(keyword()[0] == 0x73 && keyword()[1] == 0x79 && keyword()[2] == 0x73
                && keyword()[3] == 0x63 && keyword()[4] == 0x61 && keyword()[5] == 0x6c
                && keyword()[6] == 0x6c);
            assert(s[0] == line[p as int] && s[1] == line[p + 1] && s[2] == line[p + 2] && s[3]
                == line[p + 3] && s[4] == line[p + 4] && s[5] == line[p + 5] && s[6] == line[p
                + 6]);
        }
    }
    r
}

/// Splits `line` into its tokens, in order. A comment line has none.
pub fn tokenize(line: &[u8]) -> (r: Result<Vec<Token>, ScxError>)
    ensures
        match r {
            Ok(v) => tokens_of(line@) == Some(v@),
            Err(e) => tokens_of(line@) is None && e == ScxError::Tokenization,
        },
{
    let mut out: Vec<Token> = Vec::new();
    if line.len() > 0 && line[0] == COMMENT {
        assert(out@ =~= Seq::<Token>::empty());
        return Ok(out);
    }
    let n = line.len();
    let mut p: usize = 0;
    while p < n
        invariant
            n == line@.len(),
            p <= n,
            tokens_of(line@) == prepend(out@, lex_from(line@, p as int)),
            !(line@.len() > 0 && line@[0] == COMMENT),
        decreases n - p,
    {
        let b = line[p];
        let ghost before = out@;
        if b == 0x20 || b == 0x09 || b == 0x0a || b == 0x0c {
            p = p + 1;
        } else if keyword_starts(line, p) {
            let t = Token { kind: TokenKind::Syscall, start: p, end: p + 7 };
            out.push(t);
            assert(before + (seq![t] + lex_from(line@, p + 7)->0) =~= out@ + lex_from(line@, p + 7)->0);
            p = p + 7;
        } else if is_digit_byte(b) || ((b == PLUS || b == MINUS) && p + 1 < n && is_digit_byte(line[p + 1])) {
            let mut e: usize = p + 1;
            while e < n && is_digit_byte(line[e])
                invariant
                    n == line@.len(),
                    p < e <= n,
                    digits_end(line@, p + 1) == digits_end(line@, e as int),
                decreases n - e,
            {
                e = e + 1;
            }
            let t = Token { kind: TokenKind::Number, start: p, end: e };
            out.push(t);
            assert(before + (seq![t] + lex_from(line@, e as int)->0) =~= out@ + lex_from(line@, e as int)->0);
            p = e;
        } else if b == QUOTE {
            let mut q: usize = p + 1;
            while q < n && line[q] != QUOTE
                invariant
                    n == line@.len(),
                    p < q <= n,
                    quote_at_or_after(line@, p + 1) == quote_at_or_after(line@, q as int),
                decreases n - q,
            {
                q = q + 1;
            }
            if q == n {
                return Err(ScxError::Tokenization);
            }
            let t = Token { kind: TokenKind::String, start: p, end: q + 1 };
            out.push(t);
            assert(before + (seq![t] + lex_from(line@, q + 1)->0) =~= out@ + lex_from(line@, q + 1)->0);
            p = q + 1;
        } else {
            return Err(ScxError::Tokenization);
        }
    }
    assert(out@ + Seq::<Token>::empty() =~= out@);
    Ok(out)
}

} // verus!
