//! The IMAP response grammar that [`crate::parser`] implements, written as
//! spec functions over the input bytes.
//!
//! Each grammar element is a function of the input `s` and a position `p`
//! returning either the position just after the element together with its
//! value (a model from [`crate::ast`]), or the [`ParseError`] that the
//! element produces at `p`. Loops of the grammar are tail-recursive
//! functions carrying the items recognised so far.

use vstd::prelude::*;
use vstd::string::StringSliceAdditionalSpecFns;
use vstd::utf8::*;

use crate::ast::{SpecContinueReq, SpecDataResponse, SpecFetchAttribute, SpecResponse, SpecResponseCode, SpecStatusResponse, Status, StatusItem};
use crate::error::ParseError;

verus! {

/// Hard cap on a single literal's declared length, in octets.
pub const MAX_LITERAL_SIZE: usize = 64 * 1024 * 1024;

pub const SP: u8 = 32;
pub const CR: u8 = 13;
pub const LF: u8 = 10;
pub const DQUOTE: u8 = 34;
pub const BACKSLASH: u8 = 92;
pub const LPAREN: u8 = 40;
pub const RPAREN: u8 = 41;
pub const LBRACE: u8 = 123;
pub const RBRACE: u8 = 125;
pub const LBRACKET: u8 = 91;
pub const RBRACKET: u8 = 93;
pub const LANGLE: u8 = 60;
pub const RANGLE: u8 = 62;
pub const STAR: u8 = 42;
pub const PLUS: u8 = 43;
pub const PERCENT: u8 = 37;

/// Result of a grammar element: the position after it and its value.
pub type PRes<T> = Result<(int, T), ParseError>;

// ---------------------------------------------------------------------------
// Characters
// ---------------------------------------------------------------------------

/// ATOM-CHAR (RFC 9051): any CHAR except atom-specials — `(`, `)`, `{`,
/// SP, CTL, `%`, `*`, `"`, `\`, and `]`.
pub open spec fn atom_char(c: u8) -> bool {
    !(c <= 0x1F || c == 0x7F || c == LPAREN || c == RPAREN || c == LBRACE || c == SP
        || c == PERCENT || c == STAR || c == DQUOTE || c == BACKSLASH || c == RBRACKET)
}

pub open spec fn is_digit(c: u8) -> bool {
    48 <= c <= 57
}

/// ASCII lower-casing of a byte.
pub open spec fn lower(c: u8) -> u8 {
    if 65 <= c <= 90 {
        (c + 32) as u8
    } else {
        c
    }
}

/// ASCII case-insensitive equality of two byte strings.
pub open spec fn ci_eq(a: Seq<u8>, b: Seq<u8>) -> bool {
    a.len() == b.len() && forall|i: int| 0 <= i < a.len() ==> lower(#[trigger] a[i]) == lower(b[i])
}

/// The bytes of a keyword given as a string literal.
pub open spec fn kw(k: &str) -> Seq<u8> {
    k.spec_bytes()
}

/// A byte after which a keyword ends: SP, CR, LF, `]` or `)`.
pub open spec fn is_boundary(c: u8) -> bool {
    c == SP || c == CR || c == LF || c == RBRACKET || c == RPAREN
}

/// The characters that stop each kind of run that the parser scans.
pub enum Stop {
    /// Stops at a byte that is not an ATOM-CHAR.
    NonAtom,
    /// Stops at a byte that is not a decimal digit.
    NonDigit,
    /// Stops at SP, CR or LF (end of a tag).
    TagEnd,
    /// Stops at CR or LF (end of a line's text).
    LineEnd,
    /// Stops at `]` or SP (end of a response-code atom).
    CodeEnd,
    /// Stops at `]`.
    CloseBracket,
    /// Stops at CR.
    Cr,
    /// Stops at SP, `[` or `)` (end of a FETCH attribute name).
    AttNameEnd,
    /// Stops at ASCII whitespace (SP, HT, LF, FF, CR).
    AsciiWhitespace,
}

/// ASCII whitespace as `u8::is_ascii_whitespace` defines it.
pub open spec fn is_ascii_ws(c: u8) -> bool {
    c == 32 || c == 9 || c == 10 || c == 12 || c == 13
}

pub open spec fn stops(k: Stop, c: u8) -> bool {
    match k {
        Stop::NonAtom => !atom_char(c),
        Stop::NonDigit => !is_digit(c),
        Stop::TagEnd => c == SP || c == CR || c == LF,
        Stop::LineEnd => c == CR || c == LF,
        Stop::CodeEnd => c == RBRACKET || c == SP,
        Stop::CloseBracket => c == RBRACKET,
        Stop::Cr => c == CR,
        Stop::AttNameEnd => c == SP || c == LBRACKET || c == RPAREN,
        Stop::AsciiWhitespace => is_ascii_ws(c),
    }
}

/// The first position at or after `p` holding a byte on which `k` stops,
/// or the end of the input.
pub open spec fn scan(s: Seq<u8>, p: int, k: Stop) -> int
    decreases s.len() - p,
{
    if 0 <= p < s.len() && !stops(k, s[p]) {
        scan(s, p + 1, k)
    } else {
        p
    }
}

/// The decimal value of the digits `s[a..b]`.
pub open spec fn digits_value(s: Seq<u8>, a: int, b: int) -> nat
    decreases b - a,
{
    if b <= a {
        0
    } else {
        digits_value(s, a, b - 1) * 10 + (s[b - 1] - 48) as nat
    }
}

/// `s` decoded as UTF-8, or the parser's invalid-UTF-8 error.
pub open spec fn utf8(s: Seq<u8>) -> Result<Seq<char>, ParseError> {
    if valid_utf8(s) {
        Ok(decode_utf8(s))
    } else {
        Err(ParseError::Other("Invalid UTF-8"))
    }
}

// ---------------------------------------------------------------------------
// Tokens
// ---------------------------------------------------------------------------

/// The byte at `p`, or `Incomplete` at the end of the input.
pub open spec fn peek(s: Seq<u8>, p: int) -> Result<u8, ParseError> {
    if 0 <= p < s.len() {
        Ok(s[p])
    } else {
        Err(ParseError::Incomplete)
    }
}

/// `b` at `p`: the position after it, else the error of the byte found.
pub open spec fn byte_at(s: Seq<u8>, p: int, b: u8) -> Result<int, ParseError> {
    match peek(s, p) {
        Ok(c) => if c == b {
            Ok(p + 1)
        } else {
            Err(ParseError::InvalidChar(p as usize))
        },
        Err(e) => Err(e),
    }
}

/// Whether the byte at `p` is `b`.
pub open spec fn at(s: Seq<u8>, p: int, b: u8) -> bool {
    0 <= p < s.len() && s[p] == b
}

/// Position after an optional `b` at `p`.
pub open spec fn skip_opt(s: Seq<u8>, p: int, b: u8) -> int {
    if at(s, p, b) {
        p + 1
    } else {
        p
    }
}

/// `k` matches case-insensitively at `p`.
pub open spec fn ci_match(s: Seq<u8>, p: int, k: Seq<u8>) -> bool {
    0 <= p && p + k.len() <= s.len() && ci_eq(s.subrange(p, p + k.len()), k)
}

/// `k` matches case-insensitively at `p` and is followed by a boundary
/// byte or the end of the input (so `OK` does not match `OKAY`).
pub open spec fn keyword_at(s: Seq<u8>, p: int, k: Seq<u8>) -> bool {
    ci_match(s, p, k) && (p + k.len() == s.len() || is_boundary(s[p + k.len()]))
}

/// CRLF at `p`.
pub open spec fn crlf_at(s: Seq<u8>, p: int) -> Result<int, ParseError> {
    match peek(s, p) {
        Err(e) => Err(e),
        Ok(c) => if c != CR {
            Err(ParseError::Malformed("expected CR"))
        } else {
            match peek(s, p + 1) {
                Ok(d) => if d == LF {
                    Ok(p + 2)
                } else {
                    Err(ParseError::Malformed("expected LF after CR"))
                },
                Err(_) => Err(ParseError::Incomplete),
            }
        },
    }
}

/// number = 1*DIGIT, as a `u32`; `Incomplete` while the digits run to the
/// end of the input.
pub open spec fn number_at(s: Seq<u8>, p: int) -> PRes<u32> {
    let e = scan(s, p, Stop::NonDigit);
    if e >= s.len() {
        Err(ParseError::Incomplete)
    } else if e == p {
        Err(ParseError::InvalidNumber)
    } else if digits_value(s, p, e) > u32::MAX {
        Err(ParseError::InvalidNumber)
    } else {
        Ok((e, digits_value(s, p, e) as u32))
    }
}

/// The run `s[p..e]` as text, with `empty` reported when the run is empty.
/// A run that reaches the end of the input may go on in bytes not yet
/// received, so it is `Incomplete`.
pub open spec fn run_text(s: Seq<u8>, p: int, e: int, empty: ParseError) -> PRes<Seq<char>> {
    if e >= s.len() {
        Err(ParseError::Incomplete)
    } else if e == p {
        Err(empty)
    } else {
        match utf8(s.subrange(p, e)) {
            Ok(t) => Ok((e, t)),
            Err(err) => Err(err),
        }
    }
}

/// atom = 1*ATOM-CHAR.
pub open spec fn atom_at(s: Seq<u8>, p: int) -> PRes<Seq<char>> {
    run_text(s, p, scan(s, p, Stop::NonAtom), ParseError::Malformed("expected atom"))
}

/// A tag: one or more bytes other than SP, CR, LF.
pub open spec fn tag_at(s: Seq<u8>, p: int) -> PRes<Seq<char>> {
    run_text(s, p, scan(s, p, Stop::TagEnd), ParseError::Malformed("expected tag"))
}

/// The position of the closing `"` of a quoted string whose contents start
/// at `i`; a `\` escapes the `"` or `\` after it, and nothing else.
pub open spec fn quoted_close(s: Seq<u8>, i: int) -> Result<int, ParseError>
    decreases s.len() - i,
{
    if i < 0 || i >= s.len() {
        Err(ParseError::Incomplete)
    } else if s[i] == DQUOTE {
        Ok(i)
    } else if s[i] == BACKSLASH {
        if i + 1 >= s.len() {
            Err(ParseError::Incomplete)
        } else if s[i + 1] == DQUOTE || s[i + 1] == BACKSLASH {
            quoted_close(s, i + 2)
        } else {
            Err(ParseError::Malformed("invalid escape inside quoted string"))
        }
    } else if s[i] == CR || s[i] == LF {
        Err(ParseError::Malformed("CR/LF inside quoted string"))
    } else {
        quoted_close(s, i + 1)
    }
}

/// quoted = DQUOTE *QUOTED-CHAR DQUOTE; the raw contents (escapes kept).
pub open spec fn quoted_at(s: Seq<u8>, p: int) -> PRes<Seq<char>> {
    match byte_at(s, p, DQUOTE) {
        Err(e) => Err(e),
        Ok(q) => match quoted_close(s, q) {
            Err(e) => Err(e),
            Ok(c) => match utf8(s.subrange(q, c)) {
                Err(e) => Err(e),
                Ok(t) => Ok((c + 1, t)),
            },
        },
    }
}

/// The raw bytes of a quoted string (valid UTF-8 required).
pub open spec fn quoted_bytes_at(s: Seq<u8>, p: int) -> PRes<Seq<u8>> {
    match byte_at(s, p, DQUOTE) {
        Err(e) => Err(e),
        Ok(q) => match quoted_close(s, q) {
            Err(e) => Err(e),
            Ok(c) => if valid_utf8(s.subrange(q, c)) {
                Ok((c + 1, s.subrange(q, c)))
            } else {
                Err(ParseError::Other("Invalid UTF-8"))
            },
        },
    }
}

/// literal = `{` number `}` CRLF *OCTET, capped at [`MAX_LITERAL_SIZE`].
pub open spec fn literal_at(s: Seq<u8>, p: int) -> PRes<Seq<u8>> {
    match byte_at(s, p, LBRACE) {
        Err(e) => Err(e),
        Ok(p1) => match number_at(s, p1) {
            Err(e) => Err(e),
            Ok((p2, n)) => match byte_at(s, p2, RBRACE) {
                Err(e) => Err(e),
                Ok(p3) => match crlf_at(s, p3) {
                    Err(e) => Err(e),
                    Ok(p4) => if n > MAX_LITERAL_SIZE {
                        Err(ParseError::LiteralTooLarge { got: n as usize, max: MAX_LITERAL_SIZE })
                    } else if p4 + n > s.len() {
                        Err(ParseError::Incomplete)
                    } else {
                        Ok((p4 + n, s.subrange(p4, p4 + n)))
                    },
                },
            },
        },
    }
}

/// A literal as text.
pub open spec fn literal_text_at(s: Seq<u8>, p: int) -> PRes<Seq<char>> {
    match literal_at(s, p) {
        Err(e) => Err(e),
        Ok((q, b)) => match utf8(b) {
            Err(e) => Err(e),
            Ok(t) => Ok((q, t)),
        },
    }
}

/// astring = atom / string.
pub open spec fn astring_at(s: Seq<u8>, p: int) -> PRes<Seq<char>> {
    match peek(s, p) {
        Err(e) => Err(e),
        Ok(c) => if c == DQUOTE {
            quoted_at(s, p)
        } else if c == LBRACE {
            literal_text_at(s, p)
        } else {
            atom_at(s, p)
        },
    }
}

/// nstring = string / NIL; `None` for NIL.
pub open spec fn nstring_at(s: Seq<u8>, p: int) -> PRes<Option<Seq<char>>> {
    match peek(s, p) {
        Err(e) => Err(e),
        Ok(c) => if c == DQUOTE {
            match quoted_at(s, p) {
                Err(e) => Err(e),
                Ok((q, t)) => Ok((q, Some(t))),
            }
        } else if c == LBRACE {
            match literal_text_at(s, p) {
                Err(e) => Err(e),
                Ok((q, t)) => Ok((q, Some(t))),
            }
        } else if keyword_at(s, p, kw("NIL")) {
            Ok((p + kw("NIL").len(), None))
        } else if proper_ci_prefix(s.subrange(p, s.len() as int), kw("NIL")) {
            Err(ParseError::Incomplete)
        } else {
            Err(ParseError::Malformed("expected nstring"))
        },
    }
}

/// nstring as bytes; NIL is the empty byte string.
pub open spec fn nstring_bytes_at(s: Seq<u8>, p: int) -> PRes<Seq<u8>> {
    match peek(s, p) {
        Err(e) => Err(e),
        Ok(c) => if c == DQUOTE {
            quoted_bytes_at(s, p)
        } else if c == LBRACE {
            literal_at(s, p)
        } else if keyword_at(s, p, kw("NIL")) {
            Ok((p + kw("NIL").len(), Seq::empty()))
        } else if proper_ci_prefix(s.subrange(p, s.len() as int), kw("NIL")) {
            Err(ParseError::Incomplete)
        } else {
            Err(ParseError::Malformed("expected nstring"))
        },
    }
}

/// nstring as bytes; `None` for NIL.
pub open spec fn nstring_bytes_opt_at(s: Seq<u8>, p: int) -> PRes<Option<Seq<u8>>> {
    match peek(s, p) {
        Err(e) => Err(e),
        Ok(c) => if c == DQUOTE {
            match quoted_bytes_at(s, p) {
                Err(e) => Err(e),
                Ok((q, b)) => Ok((q, Some(b))),
            }
        } else if c == LBRACE {
            match literal_at(s, p) {
                Err(e) => Err(e),
                Ok((q, b)) => Ok((q, Some(b))),
            }
        } else if keyword_at(s, p, kw("NIL")) {
            Ok((p + kw("NIL").len(), None))
        } else if proper_ci_prefix(s.subrange(p, s.len() as int), kw("NIL")) {
            Err(ParseError::Incomplete)
        } else {
            Err(ParseError::Malformed("expected nstring"))
        },
    }
}

/// A flag (`\atom`, `\*`) or a keyword atom, returned verbatim.
pub open spec fn flag_or_atom_at(s: Seq<u8>, p: int) -> PRes<Seq<char>> {
    match peek(s, p) {
        Err(e) => Err(e),
        Ok(c) => if c == BACKSLASH && at(s, p + 1, STAR) {
            match utf8(s.subrange(p, p + 2)) {
                Err(e) => Err(e),
                Ok(t) => Ok((p + 2, t)),
            }
        } else {
            let q = if c == BACKSLASH {
                p + 1
            } else {
                p
            };
            let e = scan(s, q, Stop::NonAtom);
            if e >= s.len() {
                Err(ParseError::Incomplete)
            } else if e == p {
                Err(ParseError::Malformed("expected flag/atom"))
            } else {
                match utf8(s.subrange(p, e)) {
                    Err(err) => Err(err),
                    Ok(t) => Ok((e, t)),
                }
            }
        },
    }
}

/// text: the rest of the line up to CR or LF (not consumed); `Incomplete`
/// while neither has arrived.
pub open spec fn text_at(s: Seq<u8>, p: int) -> PRes<Seq<char>> {
    let e = scan(s, p, Stop::LineEnd);
    if e >= s.len() {
        Err(ParseError::Incomplete)
    } else {
        match utf8(s.subrange(p, e)) {
            Err(err) => Err(err),
            Ok(t) => Ok((e, t)),
        }
    }
}

/// The position just after a CRLF that immediately precedes `i`, or 0.
pub open spec fn line_start(s: Seq<u8>, i: int) -> int
    decreases i,
{
    if i <= 0 {
        i
    } else if i >= 2 && s[i - 2] == CR && s[i - 1] == LF {
        i
    } else {
        line_start(s, i - 1)
    }
}

/// Whether `b` is a (possibly empty) case-insensitive proper prefix of one
/// of the status keywords.
pub open spec fn keyword_prefix(b: Seq<u8>) -> bool {
    proper_ci_prefix(b, kw("OK")) || proper_ci_prefix(b, kw("NO")) || proper_ci_prefix(
        b,
        kw("BAD"),
    ) || proper_ci_prefix(b, kw("BYE")) || proper_ci_prefix(b, kw("PREAUTH"))
}

pub open spec fn proper_ci_prefix(b: Seq<u8>, k: Seq<u8>) -> bool {
    b.len() < k.len() && ci_eq(k.subrange(0, b.len() as int), b)
}


// ---------------------------------------------------------------------------
// Lists and nested structures
// ---------------------------------------------------------------------------

/// Items of a parenthesized flag/atom list after `(` and its first item's
/// position `p`; `acc` holds the items before `p`.
pub open spec fn atom_list_loop(s: Seq<u8>, p: int, acc: Seq<Seq<char>>) -> PRes<Seq<Seq<char>>>
    decreases s.len() - p,
{
    match flag_or_atom_at(s, p) {
        Err(e) => Err(e),
        Ok((q, item)) => match peek(s, q) {
            Err(e) => Err(e),
            Ok(c) => if c == SP {
                proof {
                    crate::grammar_lemmas::lemma_flag_or_atom_adv(s, p);
                }
                atom_list_loop(s, q + 1, acc.push(item))
            } else if c == RPAREN {
                Ok((q + 1, acc.push(item)))
            } else {
                Err(ParseError::Malformed("expected SP or ) in list"))
            },
        },
    }
}

/// A parenthesized list of flags or atoms, e.g. `(\Seen \Draft)`.
pub open spec fn atom_list_at(s: Seq<u8>, p: int) -> PRes<Seq<Seq<char>>> {
    match byte_at(s, p, LPAREN) {
        Err(e) => Err(e),
        Ok(q) => if at(s, q, RPAREN) {
            Ok((q + 1, Seq::empty()))
        } else {
            atom_list_loop(s, q, Seq::empty())
        },
    }
}

/// The position just after the `)` that closes a parenthesized expression
/// whose contents continue at `i` with `depth` parentheses open. Quoted
/// strings and literals inside are skipped whole.
pub open spec fn balanced_loop(s: Seq<u8>, i: int, depth: u32) -> Result<int, ParseError>
    decreases s.len() - i,
{
    if depth == 0 {
        Ok(i)
    } else {
        match peek(s, i) {
            Err(e) => Err(e),
            Ok(c) => if c == LPAREN {
                if depth == u32::MAX {
                    Err(ParseError::Other("paren depth overflow"))
                } else {
                    balanced_loop(s, i + 1, (depth + 1) as u32)
                }
            } else if c == RPAREN {
                balanced_loop(s, i + 1, (depth - 1) as u32)
            } else if c == DQUOTE {
                match quoted_at(s, i) {
                    Err(e) => Err(e),
                    Ok((q, _)) => {
                        proof {
                            crate::grammar_lemmas::lemma_quoted_adv(s, i);
                        }
                        balanced_loop(s, q, depth)
                    },
                }
            } else if c == LBRACE {
                match literal_at(s, i) {
                    Err(e) => Err(e),
                    Ok((q, _)) => {
                        proof {
                            crate::grammar_lemmas::lemma_literal_adv(s, i);
                        }
                        balanced_loop(s, q, depth)
                    },
                }
            } else {
                balanced_loop(s, i + 1, depth)
            },
        }
    }
}

/// A balanced parenthesized expression, returned whole (outer parens
/// included).
pub open spec fn balanced_at(s: Seq<u8>, p: int) -> PRes<Seq<u8>> {
    match byte_at(s, p, LPAREN) {
        Err(e) => Err(e),
        Ok(q) => match balanced_loop(s, q, 1) {
            Err(e) => Err(e),
            Ok(e) => Ok((e, s.subrange(p, e))),
        },
    }
}

/// `*(SP atom)`.
pub open spec fn atom_seq(s: Seq<u8>, p: int, acc: Seq<Seq<char>>) -> PRes<Seq<Seq<char>>>
    decreases s.len() - p,
{
    if at(s, p, SP) {
        match atom_at(s, p + 1) {
            Err(e) => Err(e),
            Ok((q, a)) => {
                proof {
                    crate::grammar_lemmas::lemma_atom_adv(s, p + 1);
                }
                atom_seq(s, q, acc.push(a))
            },
        }
    } else {
        Ok((p, acc))
    }
}

/// `*(SP number)`.
pub open spec fn number_seq(s: Seq<u8>, p: int, acc: Seq<u32>) -> PRes<Seq<u32>>
    decreases s.len() - p,
{
    if at(s, p, SP) {
        match number_at(s, p + 1) {
            Err(e) => Err(e),
            Ok((q, n)) => {
                proof {
                    crate::grammar_lemmas::lemma_number_adv(s, p + 1);
                }
                number_seq(s, q, acc.push(n))
            },
        }
    } else {
        Ok((p, acc))
    }
}

/// The position where a run up to `term` ends: at `term` or at the end of
/// the input; a CR or LF before it is an error.
pub open spec fn until_end(s: Seq<u8>, i: int, term: u8) -> Result<int, ParseError>
    decreases s.len() - i,
{
    if i < 0 || i >= s.len() {
        Ok(i)
    } else if s[i] == term {
        Ok(i)
    } else if s[i] == CR || s[i] == LF {
        Err(ParseError::Malformed("CR/LF before terminator"))
    } else {
        until_end(s, i + 1, term)
    }
}

/// The text up to (not including) `term`.
pub open spec fn until_byte_at(s: Seq<u8>, p: int, term: u8) -> PRes<Seq<char>> {
    match until_end(s, p, term) {
        Err(e) => Err(e),
        Ok(e) => if e >= s.len() {
            Err(ParseError::Incomplete)
        } else {
            match utf8(s.subrange(p, e)) {
                Err(err) => Err(err),
                Ok(t) => Ok((e, t)),
            }
        },
    }
}

// ---------------------------------------------------------------------------
// Response text and codes
// ---------------------------------------------------------------------------

/// resp-text-code (inside `[...]`).
pub open spec fn resp_text_code_at(s: Seq<u8>, p: int) -> PRes<SpecResponseCode> {
    let e = scan(s, p, Stop::CodeEnd);
    if e >= s.len() {
        Err(ParseError::Incomplete)
    } else if e == p {
        Err(ParseError::Malformed("empty response code"))
    } else {
        match utf8(s.subrange(p, e)) {
            Err(err) => Err(err),
            Ok(a) => {
                let name = s.subrange(p, e);
                if ci_eq(name, kw("ALERT")) {
                    Ok((e, SpecResponseCode::Alert))
                } else if ci_eq(name, kw("PARSE")) {
                    Ok((e, SpecResponseCode::Parse))
                } else if ci_eq(name, kw("READ-ONLY")) {
                    Ok((e, SpecResponseCode::ReadOnly))
                } else if ci_eq(name, kw("READ-WRITE")) {
                    Ok((e, SpecResponseCode::ReadWrite))
                } else if ci_eq(name, kw("TRYCREATE")) {
                    Ok((e, SpecResponseCode::TryCreate))
                } else if ci_eq(name, kw("UIDNEXT")) {
                    match byte_at(s, e, SP) {
                        Err(err) => Err(err),
                        Ok(q) => match number_at(s, q) {
                            Err(err) => Err(err),
                            Ok((q2, n)) => Ok((q2, SpecResponseCode::UidNext(n))),
                        },
                    }
                } else if ci_eq(name, kw("UIDVALIDITY")) {
                    match byte_at(s, e, SP) {
                        Err(err) => Err(err),
                        Ok(q) => match number_at(s, q) {
                            Err(err) => Err(err),
                            Ok((q2, n)) => Ok((q2, SpecResponseCode::UidValidity(n))),
                        },
                    }
                } else if ci_eq(name, kw("UNSEEN")) {
                    match byte_at(s, e, SP) {
                        Err(err) => Err(err),
                        Ok(q) => match number_at(s, q) {
                            Err(err) => Err(err),
                            Ok((q2, n)) => Ok((q2, SpecResponseCode::Unseen(n))),
                        },
                    }
                } else if ci_eq(name, kw("CAPABILITY")) {
                    match atom_seq(s, e, Seq::empty()) {
                        Err(err) => Err(err),
                        Ok((q, v)) => Ok((q, SpecResponseCode::Capability(v))),
                    }
                } else if ci_eq(name, kw("PERMANENTFLAGS")) {
                    match byte_at(s, e, SP) {
                        Err(err) => Err(err),
                        Ok(q) => match atom_list_at(s, q) {
                            Err(err) => Err(err),
                            Ok((q2, v)) => Ok((q2, SpecResponseCode::PermanentFlags(v))),
                        },
                    }
                } else if ci_eq(name, kw("BADCHARSET")) {
                    if at(s, e, SP) {
                        match atom_list_at(s, e + 1) {
                            Err(err) => Err(err),
                            Ok((q2, v)) => Ok((q2, SpecResponseCode::BadCharset(v))),
                        }
                    } else {
                        Ok((e, SpecResponseCode::BadCharset(Seq::empty())))
                    }
                } else if at(s, e, SP) {
                    let f = scan(s, e + 1, Stop::CloseBracket);
                    if f >= s.len() {
                        Err(ParseError::Incomplete)
                    } else {
                        match utf8(s.subrange(e + 1, f)) {
                            Err(err) => Err(err),
                            Ok(x) => Ok((f, SpecResponseCode::Other(a, Some(x)))),
                        }
                    }
                } else {
                    Ok((e, SpecResponseCode::Other(a, None)))
                }
            },
        }
    }
}

/// resp-text = ["[" resp-text-code "]" [SP]] text.
pub open spec fn resp_text_at(s: Seq<u8>, p: int) -> PRes<(Option<SpecResponseCode>, Seq<char>)> {
    if at(s, p, LBRACKET) {
        match resp_text_code_at(s, p + 1) {
            Err(e) => Err(e),
            Ok((q, c)) => match byte_at(s, q, RBRACKET) {
                Err(e) => Err(e),
                Ok(q2) => match text_at(s, skip_opt(s, q2, SP)) {
                    Err(e) => Err(e),
                    Ok((q3, t)) => Ok((q3, (Some(c), t))),
                },
            },
        }
    } else {
        match text_at(s, p) {
            Err(e) => Err(e),
            Ok((q, t)) => Ok((q, (None, t))),
        }
    }
}

/// resp-text after a status keyword: `SP resp-text`, or empty when the SP
/// is absent.
pub open spec fn resp_text_after_keyword_at(s: Seq<u8>, p: int) -> PRes<
    (Option<SpecResponseCode>, Seq<char>),
> {
    if at(s, p, SP) {
        resp_text_at(s, p + 1)
    } else {
        Ok((p, (None, Seq::empty())))
    }
}

/// A status keyword at `p` (PREAUTH, OK, NO, BAD, BYE, in that order of
/// trial) and the position after it.
pub open spec fn status_keyword_at(s: Seq<u8>, p: int) -> Option<(int, Status)> {
    if keyword_at(s, p, kw("PREAUTH")) {
        Some((p + kw("PREAUTH").len(), Status::PreAuth))
    } else if keyword_at(s, p, kw("OK")) {
        Some((p + kw("OK").len(), Status::Okay))
    } else if keyword_at(s, p, kw("NO")) {
        Some((p + kw("NO").len(), Status::No))
    } else if keyword_at(s, p, kw("BAD")) {
        Some((p + kw("BAD").len(), Status::Bad))
    } else if keyword_at(s, p, kw("BYE")) {
        Some((p + kw("BYE").len(), Status::Bye))
    } else {
        None
    }
}

// ---------------------------------------------------------------------------
// Data responses
// ---------------------------------------------------------------------------

/// An unrecognised data response: the raw line from the start of the
/// current line up to CR, then CRLF.
pub open spec fn other_data_at(s: Seq<u8>, i: int) -> PRes<SpecResponse> {
    let e = scan(s, i, Stop::Cr);
    match crlf_at(s, e) {
        Err(err) => Err(err),
        Ok(q) => Ok((q, SpecResponse::Data(SpecDataResponse::Other(s.subrange(line_start(s, i), e))))),
    }
}

/// The end of a line from `p`: any bytes up to CR or LF, then CRLF. The
/// bytes skipped are trailing garbage after a recognised response.
pub open spec fn line_end_at(s: Seq<u8>, p: int) -> Result<int, ParseError> {
    crlf_at(s, scan(s, p, Stop::LineEnd))
}

/// A data response in `r` followed by the end of its line.
pub open spec fn then_crlf(s: Seq<u8>, r: PRes<SpecDataResponse>) -> PRes<SpecResponse> {
    match r {
        Err(e) => Err(e),
        Ok((q, d)) => match line_end_at(s, q) {
            Err(e) => Err(e),
            Ok(q2) => Ok((q2, SpecResponse::Data(d))),
        },
    }
}

/// `number SP atom ...`: EXISTS, RECENT, EXPUNGE, FETCH, or other.
pub open spec fn numeric_data_at(s: Seq<u8>, p: int) -> PRes<SpecResponse> {
    match number_at(s, p) {
        Err(e) => Err(e),
        Ok((q, n)) => match byte_at(s, q, SP) {
            Err(e) => Err(e),
            Ok(q1) => match atom_at(s, q1) {
                Err(e) => Err(e),
                Ok((q2, _)) => {
                    let k = s.subrange(q1, q2);
                    if ci_eq(k, kw("EXISTS")) {
                        then_crlf(s, Ok((q2, SpecDataResponse::Exists(n))))
                    } else if ci_eq(k, kw("RECENT")) {
                        then_crlf(s, Ok((q2, SpecDataResponse::Recent(n))))
                    } else if ci_eq(k, kw("EXPUNGE")) {
                        then_crlf(s, Ok((q2, SpecDataResponse::Expunge(n))))
                    } else if ci_eq(k, kw("FETCH")) {
                        then_crlf(
                            s,
                            match byte_at(s, q2, SP) {
                                Err(e) => Err(e),
                                Ok(q3) => match fetch_msg_att_at(s, q3) {
                                    Err(e) => Err(e),
                                    Ok((q4, atts)) => Ok(
                                        (q4, SpecDataResponse::Fetch { seq: n, attributes: atts }),
                                    ),
                                },
                            },
                        )
                    } else {
                        other_data_at(s, q2)
                    }
                },
            },
        },
    }
}

/// `flags SP nstring SP astring` of LIST / LSUB.
pub open spec fn list_body_at(s: Seq<u8>, p: int) -> PRes<
    (Seq<Seq<char>>, Option<Seq<char>>, Seq<char>),
> {
    match atom_list_at(s, p) {
        Err(e) => Err(e),
        Ok((q, flags)) => match byte_at(s, q, SP) {
            Err(e) => Err(e),
            Ok(q1) => match nstring_at(s, q1) {
                Err(e) => Err(e),
                Ok((q2, delim)) => match byte_at(s, q2, SP) {
                    Err(e) => Err(e),
                    Ok(q3) => match astring_at(s, q3) {
                        Err(e) => Err(e),
                        Ok((q4, name)) => Ok((q4, (flags, delim, name))),
                    },
                },
            },
        },
    }
}

/// The STATUS item named by `key` with value `v`.
pub open spec fn status_item(key: Seq<u8>, v: u32) -> StatusItem {
    if ci_eq(key, kw("MESSAGES")) {
        StatusItem::Messages(v)
    } else if ci_eq(key, kw("RECENT")) {
        StatusItem::Recent(v)
    } else if ci_eq(key, kw("UIDNEXT")) {
        StatusItem::UidNext(v)
    } else if ci_eq(key, kw("UIDVALIDITY")) {
        StatusItem::UidValidity(v)
    } else if ci_eq(key, kw("UNSEEN")) {
        StatusItem::Unseen(v)
    } else {
        StatusItem::Other(v)
    }
}

/// Items of a STATUS list from `p`; `acc` holds the items before `p`.
pub open spec fn status_items_loop(s: Seq<u8>, p: int, acc: Seq<StatusItem>) -> PRes<Seq<StatusItem>>
    decreases s.len() - p,
{
    match atom_at(s, p) {
        Err(e) => Err(e),
        Ok((q1, _)) => match byte_at(s, q1, SP) {
            Err(e) => Err(e),
            Ok(q2) => match number_at(s, q2) {
                Err(e) => Err(e),
                Ok((q3, v)) => {
                    let item = status_item(s.subrange(p, q1), v);
                    match peek(s, q3) {
                        Err(e) => Err(e),
                        Ok(c) => if c == SP {
                            proof {
                                crate::grammar_lemmas::lemma_atom_adv(s, p);
                                crate::grammar_lemmas::lemma_number_adv(s, q2);
                            }
                            status_items_loop(s, q3 + 1, acc.push(item))
                        } else if c == RPAREN {
                            Ok((q3 + 1, acc.push(item)))
                        } else {
                            Err(ParseError::Malformed("expected SP or ) in STATUS items"))
                        },
                    }
                },
            },
        },
    }
}

/// `(` status items `)`.
pub open spec fn status_items_at(s: Seq<u8>, p: int) -> PRes<Seq<StatusItem>> {
    match byte_at(s, p, LPAREN) {
        Err(e) => Err(e),
        Ok(q) => if at(s, q, RPAREN) {
            Ok((q + 1, Seq::empty()))
        } else {
            status_items_loop(s, q, Seq::empty())
        },
    }
}

/// The names of the data responses recognised by name.
pub open spec fn is_known_data_name(name: Seq<u8>) -> bool {
    ci_eq(name, kw("CAPABILITY")) || ci_eq(name, kw("LIST")) || ci_eq(name, kw("LSUB")) || ci_eq(
        name,
        kw("STATUS"),
    ) || ci_eq(name, kw("SEARCH")) || ci_eq(name, kw("FLAGS"))
}

/// The body of a data response recognised by `name`, from `q`.
pub open spec fn named_data_body_at(s: Seq<u8>, q: int, name: Seq<u8>) -> PRes<SpecDataResponse> {
    if ci_eq(name, kw("CAPABILITY")) {
        match atom_seq(s, q, Seq::empty()) {
            Err(e) => Err(e),
            Ok((q1, v)) => Ok((q1, SpecDataResponse::Capability(v))),
        }
    } else if ci_eq(name, kw("LIST")) || ci_eq(name, kw("LSUB")) {
        match byte_at(s, q, SP) {
            Err(e) => Err(e),
            Ok(q1) => match list_body_at(s, q1) {
                Err(e) => Err(e),
                Ok((q2, (flags, delimiter, mbox))) => Ok(
                    (
                        q2,
                        if ci_eq(name, kw("LIST")) {
                            SpecDataResponse::List { flags, delimiter, name: mbox }
                        } else {
                            SpecDataResponse::Lsub { flags, delimiter, name: mbox }
                        },
                    ),
                ),
            },
        }
    } else if ci_eq(name, kw("STATUS")) {
        match byte_at(s, q, SP) {
            Err(e) => Err(e),
            Ok(q1) => match astring_at(s, q1) {
                Err(e) => Err(e),
                Ok((q2, mailbox)) => match byte_at(s, q2, SP) {
                    Err(e) => Err(e),
                    Ok(q3) => match status_items_at(s, q3) {
                        Err(e) => Err(e),
                        Ok((q4, items)) => Ok((q4, SpecDataResponse::Status { mailbox, items })),
                    },
                },
            },
        }
    } else if ci_eq(name, kw("SEARCH")) {
        match number_seq(s, q, Seq::empty()) {
            Err(e) => Err(e),
            Ok((q1, ids)) => Ok((q1, SpecDataResponse::Search(ids))),
        }
    } else {
        match byte_at(s, q, SP) {
            Err(e) => Err(e),
            Ok(q1) => match atom_list_at(s, q1) {
                Err(e) => Err(e),
                Ok((q2, flags)) => Ok((q2, SpecDataResponse::Flags(flags))),
            },
        }
    }
}

/// `name ...` data responses: CAPABILITY, LIST, LSUB, STATUS, SEARCH,
/// FLAGS, or other (the raw line from the name up to CR, then CRLF).
pub open spec fn named_data_at(s: Seq<u8>, p: int) -> PRes<SpecResponse> {
    match atom_at(s, p) {
        Err(e) => Err(e),
        Ok((q, _)) => {
            let name = s.subrange(p, q);
            if is_known_data_name(name) {
                then_crlf(s, named_data_body_at(s, q, name))
            } else {
                let e = scan(s, q, Stop::Cr);
                match crlf_at(s, e) {
                    Err(err) => Err(err),
                    Ok(q1) => Ok((q1, SpecResponse::Data(SpecDataResponse::Other(s.subrange(p, e))))),
                }
            }
        },
    }
}

// ---------------------------------------------------------------------------
// FETCH attributes
// ---------------------------------------------------------------------------

/// A FETCH attribute name: up to SP, `[` or `)`.
pub open spec fn fetch_att_name_end(s: Seq<u8>, p: int) -> Result<int, ParseError> {
    let e = scan(s, p, Stop::AttNameEnd);
    if e >= s.len() {
        Err(ParseError::Incomplete)
    } else if e == p {
        Err(ParseError::Malformed("expected FETCH att name"))
    } else {
        match utf8(s.subrange(p, e)) {
            Err(err) => Err(err),
            Ok(_) => Ok(e),
        }
    }
}

/// The optional `<origin>` of a body section.
pub open spec fn origin_at(s: Seq<u8>, p: int) -> PRes<Option<u32>> {
    if at(s, p, LANGLE) {
        match number_at(s, p + 1) {
            Err(e) => Err(e),
            Ok((q, n)) => match byte_at(s, q, RANGLE) {
                Err(e) => Err(e),
                Ok(q1) => Ok((q1, Some(n))),
            },
        }
    } else {
        Ok((p, None))
    }
}

/// `BODY[section]<origin> SP nstring` after the name `BODY` ends at `p`
/// (where `[` stands).
pub open spec fn body_section_at(s: Seq<u8>, p: int) -> PRes<SpecFetchAttribute> {
    match until_byte_at(s, p + 1, RBRACKET) {
        Err(e) => Err(e),
        Ok((q, section)) => match byte_at(s, q, RBRACKET) {
            Err(e) => Err(e),
            Ok(q1) => match origin_at(s, q1) {
                Err(e) => Err(e),
                Ok((q2, origin)) => match byte_at(s, q2, SP) {
                    Err(e) => Err(e),
                    Ok(q3) => match nstring_bytes_opt_at(s, q3) {
                        Err(e) => Err(e),
                        Ok((q4, data)) => Ok(
                            (
                                q4,
                                SpecFetchAttribute::BodySection {
                                    section: if section.len() == 0 {
                                        None
                                    } else {
                                        Some(section)
                                    },
                                    origin,
                                    data,
                                },
                            ),
                        ),
                    },
                },
            },
        },
    }
}

/// The value of the FETCH attribute whose name is `s[p..q]`, from `q`.
pub open spec fn fetch_att_value(s: Seq<u8>, p: int, q: int) -> PRes<SpecFetchAttribute> {
    let name = s.subrange(p, q);
    if ci_eq(name, kw("UID")) {
        match byte_at(s, q, SP) {
            Err(e) => Err(e),
            Ok(q1) => match number_at(s, q1) {
                Err(e) => Err(e),
                Ok((q2, n)) => Ok((q2, SpecFetchAttribute::Uid(n))),
            },
        }
    } else if ci_eq(name, kw("FLAGS")) {
        match byte_at(s, q, SP) {
            Err(e) => Err(e),
            Ok(q1) => match atom_list_at(s, q1) {
                Err(e) => Err(e),
                Ok((q2, v)) => Ok((q2, SpecFetchAttribute::Flags(v))),
            },
        }
    } else if ci_eq(name, kw("INTERNALDATE")) {
        match byte_at(s, q, SP) {
            Err(e) => Err(e),
            Ok(q1) => match quoted_at(s, q1) {
                Err(e) => Err(e),
                Ok((q2, t)) => Ok((q2, SpecFetchAttribute::InternalDate(t))),
            },
        }
    } else if ci_eq(name, kw("RFC822.SIZE")) {
        match byte_at(s, q, SP) {
            Err(e) => Err(e),
            Ok(q1) => match number_at(s, q1) {
                Err(e) => Err(e),
                Ok((q2, n)) => Ok((q2, SpecFetchAttribute::Rfc822Size(n))),
            },
        }
    } else if ci_eq(name, kw("RFC822")) || ci_eq(name, kw("RFC822.HEADER")) || ci_eq(
        name,
        kw("RFC822.TEXT"),
    ) {
        match byte_at(s, q, SP) {
            Err(e) => Err(e),
            Ok(q1) => match nstring_bytes_at(s, q1) {
                Err(e) => Err(e),
                Ok((q2, b)) => Ok(
                    (
                        q2,
                        if ci_eq(name, kw("RFC822")) {
                            SpecFetchAttribute::Rfc822(b)
                        } else if ci_eq(name, kw("RFC822.HEADER")) {
                            SpecFetchAttribute::Rfc822Header(b)
                        } else {
                            SpecFetchAttribute::Rfc822Text(b)
                        },
                    ),
                ),
            },
        }
    } else if ci_eq(name, kw("ENVELOPE")) || ci_eq(name, kw("BODYSTRUCTURE")) {
        match byte_at(s, q, SP) {
            Err(e) => Err(e),
            Ok(q1) => match balanced_at(s, q1) {
                Err(e) => Err(e),
                Ok((q2, b)) => Ok(
                    (
                        q2,
                        if ci_eq(name, kw("ENVELOPE")) {
                            SpecFetchAttribute::Envelope(b)
                        } else {
                            SpecFetchAttribute::BodyStructure(b)
                        },
                    ),
                ),
            },
        }
    } else if ci_eq(name, kw("BODY")) {
        if at(s, q, LBRACKET) {
            body_section_at(s, q)
        } else {
            match byte_at(s, q, SP) {
                Err(e) => Err(e),
                Ok(q1) => match balanced_at(s, q1) {
                    Err(e) => Err(e),
                    Ok((q2, b)) => Ok((q2, SpecFetchAttribute::Body(b))),
                },
            }
        }
    } else {
        Err(ParseError::Malformed("unknown FETCH attribute"))
    }
}

/// msg-att item: name then value.
pub open spec fn fetch_att_at(s: Seq<u8>, p: int) -> PRes<SpecFetchAttribute> {
    match fetch_att_name_end(s, p) {
        Err(e) => Err(e),
        Ok(q) => fetch_att_value(s, p, q),
    }
}

/// FETCH attributes from `p`; `acc` holds the attributes before `p`.
pub open spec fn fetch_att_loop(s: Seq<u8>, p: int, acc: Seq<SpecFetchAttribute>) -> PRes<
    Seq<SpecFetchAttribute>,
>
    decreases s.len() - p,
{
    match fetch_att_at(s, p) {
        Err(e) => Err(e),
        Ok((q, a)) => match peek(s, q) {
            Err(e) => Err(e),
            Ok(c) => if c == SP {
                proof {
                    crate::grammar_lemmas::lemma_fetch_att_adv(s, p);
                }
                fetch_att_loop(s, q + 1, acc.push(a))
            } else if c == RPAREN {
                Ok((q + 1, acc.push(a)))
            } else {
                Err(ParseError::Malformed("expected SP or ) in FETCH atts"))
            },
        },
    }
}

/// msg-att = `(` attributes `)`.
pub open spec fn fetch_msg_att_at(s: Seq<u8>, p: int) -> PRes<Seq<SpecFetchAttribute>> {
    match byte_at(s, p, LPAREN) {
        Err(e) => Err(e),
        Ok(q) => if at(s, q, RPAREN) {
            Ok((q + 1, Seq::empty()))
        } else {
            fetch_att_loop(s, q, Seq::empty())
        },
    }
}

// ---------------------------------------------------------------------------
// Responses
// ---------------------------------------------------------------------------

/// A resp-text and CRLF after a status keyword, made into a status response.
pub open spec fn status_tail_at(s: Seq<u8>, p: int, tag: Option<Seq<char>>, status: Status) -> PRes<
    SpecResponse,
> {
    match resp_text_after_keyword_at(s, p) {
        Err(e) => Err(e),
        Ok((q, (code, text))) => match line_end_at(s, q) {
            Err(e) => Err(e),
            Ok(q1) => Ok(
                (q1, SpecResponse::Status(SpecStatusResponse { tag, status, code, text })),
            ),
        },
    }
}

/// continue-req = `+ ` resp-text CRLF.
pub open spec fn continue_req_at(s: Seq<u8>, p: int) -> PRes<SpecResponse> {
    match byte_at(s, p, PLUS) {
        Err(e) => Err(e),
        Ok(q) => match byte_at(s, q, SP) {
            Err(e) => Err(e),
            Ok(q1) => match resp_text_at(s, q1) {
                Err(e) => Err(e),
                Ok((q2, (code, text))) => match line_end_at(s, q2) {
                    Err(e) => Err(e),
                    Ok(q3) => Ok((q3, SpecResponse::Continue(SpecContinueReq { code, text }))),
                },
            },
        },
    }
}

/// `* ` then an untagged status or data response.
pub open spec fn untagged_at(s: Seq<u8>, p: int) -> PRes<SpecResponse> {
    match byte_at(s, p, STAR) {
        Err(e) => Err(e),
        Ok(q) => match byte_at(s, q, SP) {
            Err(e) => Err(e),
            Ok(q1) => match status_keyword_at(s, q1) {
                Some((q2, status)) => status_tail_at(s, q2, None, status),
                None => match peek(s, q1) {
                    Err(e) => Err(e),
                    Ok(c) => if is_digit(c) {
                        numeric_data_at(s, q1)
                    } else {
                        named_data_at(s, q1)
                    },
                },
            },
        },
    }
}

/// `tag SP status-keyword resp-text CRLF`.
pub open spec fn tagged_at(s: Seq<u8>, p: int) -> PRes<SpecResponse> {
    match tag_at(s, p) {
        Err(e) => Err(e),
        Ok((q, tag)) => match byte_at(s, q, SP) {
            Err(e) => Err(e),
            Ok(q1) => match status_keyword_at(s, q1) {
                Some((q2, status)) => status_tail_at(s, q2, Some(tag), status),
                None => if keyword_prefix(s.subrange(q1, s.len() as int)) {
                    Err(ParseError::Incomplete)
                } else {
                    Err(ParseError::Malformed("expected tagged status keyword"))
                },
            },
        },
    }
}

/// A response starting at `p`: continuation, untagged, or tagged.
pub open spec fn response_at(s: Seq<u8>, p: int) -> PRes<SpecResponse> {
    if p < 0 || p >= s.len() {
        Err(ParseError::Incomplete)
    } else if s[p] == PLUS {
        continue_req_at(s, p)
    } else if s[p] == STAR {
        untagged_at(s, p)
    } else {
        tagged_at(s, p)
    }
}

/// What [`crate::parser::parse_response`] makes of `input`: the number of
/// bytes the first response takes and that response, or the error.
#[verifier::opaque]
pub open spec fn parse_response_spec(input: Seq<u8>) -> PRes<SpecResponse> {
    response_at(input, 0)
}

} // verus!
