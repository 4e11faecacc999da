//! Recursive-descent parser for IMAP4rev1 / IMAP4rev2 server responses,
//! proved to implement the grammar of [`crate::grammar`].
//!
//! The parser operates on a byte slice and returns borrowed AST nodes
//! pointing back into that slice (zero-copy). It is deliberately tolerant
//! of trailing garbage on a line: anything after a recognized response that
//! still ends in CRLF is consumed and the response is returned. A buffer
//! that does not yet hold a whole response is reported `Incomplete`.
//!
//! Literals (`{n}\r\n`) are capped at [`MAX_LITERAL_SIZE`] to prevent a
//! hostile server from forcing the client to allocate an arbitrarily large
//! buffer. Quoted-string escape sequences are not unescaped; ENVELOPE / BODY
//! / BODYSTRUCTURE are returned as raw parenthesized byte slices.

use vstd::prelude::*;
use vstd::string::StringSliceAdditionalSpecFns;
use vstd::utf8::{decode_utf8, decode_utf8_encode_utf8, valid_utf8};

use crate::ast::{
    ContinueReq, DataResponse, FetchAttribute, Response, ResponseCode, Status, StatusItem,
    StatusResponse, strs_view, opt_str_view, opt_bytes_view, opt_code_view, atts_view,
};
use crate::error::ParseError;
pub use crate::grammar::MAX_LITERAL_SIZE;
use crate::grammar::{
    PRes, Stop, stops, scan, peek, byte_at, at, skip_opt, ci_match, ci_eq, lower, keyword_at,
    is_boundary, crlf_at, line_end_at, digits_value, number_at, run_text, atom_at, tag_at, utf8, quoted_close,
    quoted_at, literal_at, astring_at, nstring_at,
    nstring_bytes_at, nstring_bytes_opt_at, flag_or_atom_at, text_at, atom_char, is_digit,
    SP, CR, LF, DQUOTE, BACKSLASH, LPAREN, RPAREN, LBRACE, RBRACE, LBRACKET, RBRACKET, LANGLE,
    RANGLE, STAR, PLUS,
};
use crate::grammar::{
    atom_list_loop, atom_list_at, balanced_loop, balanced_at, until_end, until_byte_at,
    fetch_att_name_end, atom_seq, number_seq, resp_text_code_at, resp_text_at,
    resp_text_after_keyword_at, status_keyword_at,
};
use crate::grammar::{
    line_start, other_data_at, numeric_data_at, list_body_at, status_items_loop, status_items_at, named_data_at, is_known_data_name, named_data_body_at, fetch_att_at, fetch_att_loop,
    fetch_msg_att_at, body_section_at, status_tail_at, continue_req_at, untagged_at,
    tagged_at, response_at, parse_response_spec, keyword_prefix, proper_ci_prefix,
};
use crate::grammar_lemmas::{lemma_atom_adv, lemma_number_adv, lemma_fetch_att_adv};
use crate::grammar_lemmas::{
    lemma_scan, lemma_flag_or_atom_adv, lemma_quoted_adv, lemma_literal_adv, lemma_quoted_close,
};

verus! {

/// `b` decoded as UTF-8.
///
/// Wraps `core::str::from_utf8`, which returns `Ok` exactly when `b` is
/// valid UTF-8, and then a string whose characters are the decoding of `b`.
#[verifier::external_body]
fn str_from_utf8<'a>(b: &'a [u8]) -> (r: Option<&'a str>)
    ensures
        match r {
            Some(t) => valid_utf8(b@) && t@ == decode_utf8(b@),
            None => !valid_utf8(b@),
        },
{
    core::str::from_utf8(b).ok()
}

/// `b` as text, or the invalid-UTF-8 error.
fn text_of<'a>(b: &'a [u8]) -> (r: Result<&'a str, ParseError>)
    ensures
        utf8(b@) == match r {
            Ok(t) => Ok(t@),
            Err(e) => Err(e),
        },
{
    match str_from_utf8(b) {
        Some(t) => Ok(t),
        None => Err(ParseError::Other("Invalid UTF-8")),
    }
}

/// ASCII lower-casing of a byte.
fn lower_byte(c: u8) -> (r: u8)
    ensures
        r == lower(c),
{
    if 65 <= c && c <= 90 {
        c + 32
    } else {
        c
    }
}

/// ASCII case-insensitive equality of two byte strings.
pub fn eq_ci(a: &[u8], b: &[u8]) -> (r: bool)
    ensures
        r == ci_eq(a@, b@),
{
    if a.len() != b.len() {
        return false;
    }
    let mut i: usize = 0;
    while i < a.len()
        invariant
            a@.len() == b@.len(),
            i <= a@.len(),
            forall|j: int| 0 <= j < i ==> lower(#[trigger] a@[j]) == lower(b@[j]),
        decreases a@.len() - i,
    {
        if lower_byte(a[i]) != lower_byte(b[i]) {
            return false;
        }
        i += 1;
    }
    true
}

/// Whether `k` stops on `c`.
fn stops_on(k: &Stop, c: u8) -> (r: bool)
    ensures
        r == stops(*k, c),
{
    match k {
        Stop::NonAtom => !is_atom_char(c),
        Stop::NonDigit => !(48 <= c && c <= 57),
        Stop::TagEnd => c == SP || c == CR || c == LF,
        Stop::LineEnd => c == CR || c == LF,
        Stop::CodeEnd => c == RBRACKET || c == SP,
        Stop::CloseBracket => c == RBRACKET,
        Stop::Cr => c == CR,
        Stop::AttNameEnd => c == SP || c == LBRACKET || c == RPAREN,
        Stop::AsciiWhitespace => c == 32 || c == 9 || c == 10 || c == 12 || c == 13,
    }
}

/// True if `c` is a valid ATOM-CHAR per RFC 9051 grammar.
fn is_atom_char(c: u8) -> (r: bool)
    ensures
        r == atom_char(c),
{
    !(c <= 0x1F || c == 0x7F || c == LPAREN || c == RPAREN || c == LBRACE || c == SP || c
        == crate::grammar::PERCENT || c == STAR || c == DQUOTE || c == BACKSLASH || c == RBRACKET)
}

/// The end of the run of bytes of `input` from `start` on which `k` does not
/// stop.
pub fn scan_bytes(input: &[u8], start: usize, k: &Stop) -> (r: usize)
    requires
        start <= input@.len(),
    ensures
        r == scan(input@, start as int, *k),
        start <= r <= input@.len(),
{
    let ghost s = input@;
    let mut i = start;
    while i < input.len()
        invariant
            input@ == s,
            start <= i <= s.len(),
            scan(s, start as int, *k) == scan(s, i as int, *k),
        ensures
            start <= i <= s.len(),
            scan(s, start as int, *k) == i,
        decreases s.len() - i,
    {
        if stops_on(k, input[i]) {
            break;
        }
        i += 1;
    }
    i
}

/// The parser state: the input and the position reached.
struct Parser<'a> {
    input: &'a [u8],
    pos: usize,
}

/// The model of a parse step that yields text.
pub open spec fn str_res<'a>(r: Result<&'a str, ParseError>, q: usize) -> PRes<Seq<char>> {
    match r {
        Ok(t) => Ok((q as int, t@)),
        Err(e) => Err(e),
    }
}

/// The model of a parse step that yields bytes.
pub open spec fn bytes_res<'a>(r: Result<&'a [u8], ParseError>, q: usize) -> PRes<Seq<u8>> {
    match r {
        Ok(t) => Ok((q as int, t@)),
        Err(e) => Err(e),
    }
}

/// The model of a parse step that yields a number.
pub open spec fn num_res(r: Result<u32, ParseError>, q: usize) -> PRes<u32> {
    match r {
        Ok(n) => Ok((q as int, n)),
        Err(e) => Err(e),
    }
}

/// The model of a parse step that yields a position only.
pub open spec fn unit_res(r: Result<(), ParseError>, q: usize) -> Result<int, ParseError> {
    match r {
        Ok(_) => Ok(q as int),
        Err(e) => Err(e),
    }
}

impl<'a> Parser<'a> {
    spec fn wf(&self) -> bool {
        self.pos <= self.input@.len() <= usize::MAX
    }

    /// `self` and `next` parse the same input and `next` is well formed.
    spec fn same_input(&self, next: &Self) -> bool {
        next.input@ == self.input@ && next.wf()
    }

    fn new(input: &'a [u8]) -> (r: Self)
        ensures
            r.input@ == input@,
            r.pos == 0,
            r.wf(),
    {
        let _n = input.len();
        Self { input, pos: 0 }
    }

    fn remaining(&self) -> (r: &'a [u8])
        requires
            self.wf(),
        ensures
            r@ == self.input@.subrange(self.pos as int, self.input@.len() as int),
    {
        &self.input[self.pos..self.input.len()]
    }

    fn is_eof(&self) -> (r: bool)
        ensures
            r == (self.pos >= self.input@.len()),
    {
        self.pos >= self.input.len()
    }

    fn peek(&self) -> (r: Result<u8, ParseError>)
        ensures
            r == peek(self.input@, self.pos as int),
    {
        if self.pos < self.input.len() {
            Ok(self.input[self.pos])
        } else {
            Err(ParseError::Incomplete)
        }
    }

    fn peek_at(&self, offset: usize) -> (r: Result<u8, ParseError>)
        ensures
            r == peek(self.input@, self.pos + offset),
    {
        if offset < self.input.len() && self.pos < self.input.len() - offset {
            Ok(self.input[self.pos + offset])
        } else {
            Err(ParseError::Incomplete)
        }
    }

    fn consume_byte(&mut self, b: u8) -> (r: Result<(), ParseError>)
        requires
            old(self).wf(),
        ensures
            old(self).same_input(final(self)),
            byte_at(old(self).input@, old(self).pos as int, b) == unit_res(r, final(self).pos),
    {
        if self.peek()? == b {
            self.pos += 1;
            Ok(())
        } else {
            Err(ParseError::InvalidChar(self.pos))
        }
    }

    fn try_consume_byte(&mut self, b: u8) -> (r: bool)
        requires
            old(self).wf(),
        ensures
            old(self).same_input(final(self)),
            r == at(old(self).input@, old(self).pos as int, b),
            final(self).pos == skip_opt(old(self).input@, old(self).pos as int, b),
    {
        match self.peek() {
            Ok(c) => {
                if c == b {
                    self.pos += 1;
                    true
                } else {
                    false
                }
            },
            _ => false,
        }
    }

    /// Match `expected` case-insensitively at the current position. Does
    /// not advance.
    fn matches_ci(&self, expected: &[u8]) -> (r: bool)
        requires
            self.wf(),
        ensures
            r == ci_match(self.input@, self.pos as int, expected@),
    {
        if expected.len() > self.input.len() - self.pos {
            return false;
        }
        let end = self.pos + expected.len();
        let window = &self.input[self.pos..end];
        let r = eq_ci(window, expected);
        r
    }

    /// Consume `expected` case-insensitively iff the byte after the match
    /// is a token boundary (SP, CR, LF, `]`, `)`, or EOF). This prevents
    /// `OK` from spuriously matching the prefix of `OKAY`.
    fn try_consume_keyword_ci(&mut self, expected: &[u8]) -> (r: bool)
        requires
            old(self).wf(),
        ensures
            old(self).same_input(final(self)),
            r == keyword_at(old(self).input@, old(self).pos as int, expected@),
            final(self).pos == if r {
                old(self).pos + expected@.len()
            } else {
                old(self).pos as int
            },
    {
        if !self.matches_ci(expected) {
            return false;
        }
        let end = self.pos + expected.len();
        let is_boundary = if end < self.input.len() {
            let b = self.input[end];
            b == SP || b == CR || b == LF || b == RBRACKET || b == RPAREN
        } else {
            true
        };
        if !is_boundary {
            return false;
        }
        self.pos = end;
        true
    }

    /// Skip any trailing bytes up to CR or LF, then consume CRLF.
    fn consume_line_end(&mut self) -> (r: Result<(), ParseError>)
        requires
            old(self).wf(),
        ensures
            old(self).same_input(final(self)),
            line_end_at(old(self).input@, old(self).pos as int) == unit_res(r, final(self).pos),
    {
        let ghost s = self.input@;
        let start = self.pos;
        self.advance_while(Stop::LineEnd);
        proof {
            lemma_scan(s, start as int, Stop::LineEnd);
        }
        self.consume_crlf()
    }

    fn consume_crlf(&mut self) -> (r: Result<(), ParseError>)
        requires
            old(self).wf(),
        ensures
            old(self).same_input(final(self)),
            crlf_at(old(self).input@, old(self).pos as int) == unit_res(r, final(self).pos),
    {
        if self.peek()? != CR {
            return Err(ParseError::Malformed("expected CR"));
        }
        match self.peek_at(1) {
            Ok(c) => {
                if c == LF {
                    self.pos += 2;
                    Ok(())
                } else {
                    Err(ParseError::Malformed("expected LF after CR"))
                }
            },
            Err(_) => Err(ParseError::Incomplete),
        }
    }

    fn consume_sp(&mut self) -> (r: Result<(), ParseError>)
        requires
            old(self).wf(),
        ensures
            old(self).same_input(final(self)),
            byte_at(old(self).input@, old(self).pos as int, SP) == unit_res(r, final(self).pos),
    {
        self.consume_byte(SP)
    }

    /// Advance over the run of bytes on which `k` does not stop.
    fn advance_while(&mut self, k: Stop)
        requires
            old(self).wf(),
        ensures
            old(self).same_input(final(self)),
            final(self).pos == scan(old(self).input@, old(self).pos as int, k),
    {
        self.pos = scan_bytes(self.input, self.pos, &k);
    }

    /// Decimal number — `1*DIGIT`, returned as `u32`.
    fn parse_number(&mut self) -> (r: Result<u32, ParseError>)
        requires
            old(self).wf(),
        ensures
            old(self).same_input(final(self)),
            number_at(old(self).input@, old(self).pos as int) == num_res(r, final(self).pos),
    {
        let ghost s = self.input@;
        let start = self.pos;
        self.advance_while(Stop::NonDigit);
        proof {
            lemma_scan(s, start as int, Stop::NonDigit);
        }
        if self.is_eof() {
            // The digits may go on in bytes not yet received.
            return Err(ParseError::Incomplete);
        }
        if start == self.pos {
            return Err(ParseError::InvalidNumber);
        }
        let end = self.pos;
        let mut value: u32 = 0;
        let mut overflow = false;
        let mut i = start;
        while i < end
            invariant
                s == self.input@,
                start <= i <= end <= s.len(),
                forall|j: int| start <= j < end ==> is_digit(#[trigger] s[j]),
                !overflow ==> value == digits_value(s, start as int, i as int),
                overflow ==> digits_value(s, start as int, i as int) > u32::MAX,
            decreases end - i,
        {
            let d = self.input[i] - 48;
            assert(is_digit(s[i as int]));
            if !overflow {
                match value.checked_mul(10) {
                    Some(v10) => match v10.checked_add(d as u32) {
                        Some(v) => {
                            value = v;
                        },
                        None => {
                            overflow = true;
                        },
                    },
                    None => {
                        overflow = true;
                    },
                }
            }
            i += 1;
        }
        if overflow {
            Err(ParseError::InvalidNumber)
        } else {
            Ok(value)
        }
    }
}


impl<'a> Parser<'a> {
    /// A non-empty run of bytes on which `k` does not stop, as text.
    fn take_run(&mut self, k: Stop, empty: ParseError) -> (r: Result<&'a str, ParseError>)
        requires
            old(self).wf(),
        ensures
            old(self).same_input(final(self)),
            run_text(old(self).input@, old(self).pos as int, scan(old(self).input@, old(self).pos as int, k), empty)
                == str_res(r, final(self).pos),
            r is Ok ==> old(self).pos < final(self).pos,
    {
        let ghost s = self.input@;
        let start = self.pos;
        self.advance_while(k);
        proof {
            lemma_scan(s, start as int, k);
        }
        if self.is_eof() {
            return Err(ParseError::Incomplete);
        }
        if start == self.pos {
            return Err(empty);
        }
        text_of(&self.input[start..self.pos])
    }

    /// Atom — one or more ATOM-CHARs (RFC 9051): any CHAR except atom-specials
    /// (`(`, `)`, `{`, ` `, CTL, list-wildcards `%` `*`, quoted-specials `"` `\`,
    /// resp-specials `]`).
    fn parse_atom(&mut self) -> (r: Result<&'a str, ParseError>)
        requires
            old(self).wf(),
        ensures
            old(self).same_input(final(self)),
            atom_at(old(self).input@, old(self).pos as int) == str_res(r, final(self).pos),
            r is Ok ==> old(self).pos < final(self).pos,
    {
        self.take_run(Stop::NonAtom, ParseError::Malformed("expected atom"))
    }

    /// Tag — any non-empty run of bytes other than SP, CR and LF; servers
    /// echo whatever the client sent.
    fn parse_tag(&mut self) -> (r: Result<&'a str, ParseError>)
        requires
            old(self).wf(),
        ensures
            old(self).same_input(final(self)),
            tag_at(old(self).input@, old(self).pos as int) == str_res(r, final(self).pos),
    {
        self.take_run(Stop::TagEnd, ParseError::Malformed("expected tag"))
    }

    /// The position of the closing quote of a quoted string whose contents
    /// start at the current position.
    fn find_quoted_close(&self) -> (r: Result<usize, ParseError>)
        requires
            self.wf(),
        ensures
            quoted_close(self.input@, self.pos as int) == match r {
                Ok(c) => Ok(c as int),
                Err(e) => Err(e),
            },
            r matches Ok(c) ==> self.pos <= c < self.input@.len(),
    {
        let ghost s = self.input@;
        let input = self.input;
        let mut i = self.pos;
        loop
            invariant
                input@ == s,
                s == self.input@,
                self.pos <= i <= s.len() <= usize::MAX,
                quoted_close(s, self.pos as int) == quoted_close(s, i as int),
            decreases s.len() - i,
        {
            if i >= input.len() {
                return Err(ParseError::Incomplete);
            }
            let c = input[i];
            if c == DQUOTE {
                return Ok(i);
            } else if c == BACKSLASH {
                // Skip the escape and the next char, which must be `"` or `\`.
                if i + 1 >= input.len() {
                    return Err(ParseError::Incomplete);
                }
                let d = input[i + 1];
                if d != DQUOTE && d != BACKSLASH {
                    return Err(ParseError::Malformed("invalid escape inside quoted string"));
                }
                i += 2;
            } else if c == CR || c == LF {
                return Err(ParseError::Malformed("CR/LF inside quoted string"));
            } else {
                i += 1;
            }
        }
    }

    /// Quoted string: `"..."`. Returns the byte content between the quotes.
    /// Escape sequences (`\\`, `\"`) are NOT processed.
    fn parse_quoted(&mut self) -> (r: Result<&'a str, ParseError>)
        requires
            old(self).wf(),
        ensures
            old(self).same_input(final(self)),
            quoted_at(old(self).input@, old(self).pos as int) == str_res(r, final(self).pos),
            r matches Ok(t) ==> !t@.contains('\r') && !t@.contains('\n'),
    {
        self.consume_byte(DQUOTE)?;
        let start = self.pos;
        let close = self.find_quoted_close()?;
        let t = text_of(&self.input[start..close])?;
        self.pos = close + 1;
        proof {
            crate::grammar_lemmas::lemma_quoted_no_line_break(old(self).input@, old(self).pos as int);
        }
        Ok(t)
    }

    /// Literal: `{n}\r\n<n octets>`. Returns the n octets as a byte slice.
    fn parse_literal(&mut self) -> (r: Result<&'a [u8], ParseError>)
        requires
            old(self).wf(),
        ensures
            old(self).same_input(final(self)),
            literal_at(old(self).input@, old(self).pos as int) == bytes_res(r, final(self).pos),
    {
        self.consume_byte(LBRACE)?;
        let n = self.parse_number()? as usize;
        self.consume_byte(RBRACE)?;
        self.consume_crlf()?;
        if n > MAX_LITERAL_SIZE {
            return Err(ParseError::LiteralTooLarge { got: n, max: MAX_LITERAL_SIZE });
        }
        if n > self.input.len() - self.pos {
            return Err(ParseError::Incomplete);
        }
        let end = self.pos + n;
        let data = &self.input[self.pos..end];
        self.pos = end;
        Ok(data)
    }

    /// `astring` = atom / string. Literals are coerced to text; an
    /// invalid-UTF-8 literal returns `Invalid UTF-8`.
    fn parse_astring(&mut self) -> (r: Result<&'a str, ParseError>)
        requires
            old(self).wf(),
        ensures
            old(self).same_input(final(self)),
            astring_at(old(self).input@, old(self).pos as int) == str_res(r, final(self).pos),
    {
        let c = self.peek()?;
        if c == DQUOTE {
            self.parse_quoted()
        } else if c == LBRACE {
            let bytes = self.parse_literal()?;
            text_of(bytes)
        } else {
            self.parse_atom()
        }
    }

    /// `nstring` = string / NIL. Returns `None` for NIL.
    fn parse_nstring(&mut self) -> (r: Result<Option<&'a str>, ParseError>)
        requires
            old(self).wf(),
        ensures
            old(self).same_input(final(self)),
            nstring_at(old(self).input@, old(self).pos as int) == match r {
                Ok(o) => Ok((final(self).pos as int, opt_str_view(o))),
                Err(e) => Err(e),
            },
    {
        let c = self.peek()?;
        if c == DQUOTE {
            Ok(Some(self.parse_quoted()?))
        } else if c == LBRACE {
            let bytes = self.parse_literal()?;
            let s = text_of(bytes)?;
            Ok(Some(s))
        } else if self.try_consume_keyword_ci("NIL".as_bytes()) {
            Ok(None)
        } else if is_proper_prefix_ci(self.remaining(), "NIL".as_bytes()) {
            Err(ParseError::Incomplete)
        } else {
            Err(ParseError::Malformed("expected nstring"))
        }
    }

    /// A flag is `\<atom>` or just `<atom>` (keyword); `\*` is the special
    /// "all keywords" marker permitted in PERMANENTFLAGS. Returned verbatim.
    fn parse_flag_or_atom(&mut self) -> (r: Result<&'a str, ParseError>)
        requires
            old(self).wf(),
        ensures
            old(self).same_input(final(self)),
            flag_or_atom_at(old(self).input@, old(self).pos as int) == str_res(r, final(self).pos),
    {
        let ghost s = self.input@;
        let start = self.pos;
        if self.peek()? == BACKSLASH {
            self.pos += 1;
            if self.try_consume_byte(STAR) {
                return text_of(&self.input[start..self.pos]);
            }
        }
        let q = self.pos;
        self.advance_while(Stop::NonAtom);
        proof {
            lemma_scan(s, q as int, Stop::NonAtom);
        }
        if self.is_eof() {
            return Err(ParseError::Incomplete);
        }
        if start == self.pos {
            return Err(ParseError::Malformed("expected flag/atom"));
        }
        text_of(&self.input[start..self.pos])
    }

    /// Read the rest of the current line, stopping at CR or LF. Does not
    /// consume the CRLF.
    fn parse_text(&mut self) -> (r: Result<&'a str, ParseError>)
        requires
            old(self).wf(),
        ensures
            old(self).same_input(final(self)),
            text_at(old(self).input@, old(self).pos as int) == str_res(r, final(self).pos),
    {
        let ghost s = self.input@;
        let start = self.pos;
        self.advance_while(Stop::LineEnd);
        proof {
            lemma_scan(s, start as int, Stop::LineEnd);
        }
        if self.is_eof() {
            return Err(ParseError::Incomplete);
        }
        text_of(&self.input[start..self.pos])
    }
}


/// The models of a list of texts grown by one.
proof fn lemma_strs_view_push<'a>(v: Seq<&'a str>, x: &'a str)
    ensures
        strs_view(v.push(x)) == strs_view(v).push(x@),
{
    assert(strs_view(v.push(x)) =~= strs_view(v).push(x@));
}

impl<'a> Parser<'a> {
    /// Parse a parenthesized atom list, e.g. `(\Seen \Draft)`.
    fn parse_paren_atom_list(&mut self) -> (r: Result<Vec<&'a str>, ParseError>)
        requires
            old(self).wf(),
        ensures
            old(self).same_input(final(self)),
            atom_list_at(old(self).input@, old(self).pos as int) == match r {
                Ok(v) => Ok((final(self).pos as int, strs_view(v@))),
                Err(e) => Err(e),
            },
    {
        let ghost s = self.input@;
        let ghost p0 = self.pos as int;
        self.consume_byte(LPAREN)?;
        let mut items: Vec<&'a str> = Vec::new();
        if self.try_consume_byte(RPAREN) {
            proof {
                assert(strs_view(items@) =~= Seq::empty());
            }
            return Ok(items);
        }
        proof {
            assert(strs_view(items@) =~= Seq::<Seq<char>>::empty());
        }
        loop
            invariant
                self.input@ == s,
                old(self).input@ == s,
                old(self).pos == p0,
                self.wf(),
                atom_list_at(s, p0) == atom_list_loop(s, self.pos as int, strs_view(items@)),
            decreases s.len() - self.pos,
        {
            let ghost before = self.pos as int;
            let ghost old_items = items@;
            proof {
                lemma_flag_or_atom_adv(s, before);
            }
            let item = self.parse_flag_or_atom()?;
            items.push(item);
            proof {
                lemma_strs_view_push(old_items, item);
            }
            let c = self.peek()?;
            if c == SP {
                self.pos += 1;
            } else if c == RPAREN {
                self.pos += 1;
                return Ok(items);
            } else {
                return Err(ParseError::Malformed("expected SP or ) in list"));
            }
        }
    }
}


impl<'a> Parser<'a> {
    /// Parse a balanced parenthesized expression starting at the current
    /// `(`. Returns the slice including the outer parens. Recognizes literals
    /// and quoted strings inside so they aren't accidentally split. Used to
    /// capture ENVELOPE / BODY / BODYSTRUCTURE for downstream parsing.
    fn parse_balanced_parens(&mut self) -> (r: Result<&'a [u8], ParseError>)
        requires
            old(self).wf(),
        ensures
            old(self).same_input(final(self)),
            balanced_at(old(self).input@, old(self).pos as int) == bytes_res(r, final(self).pos),
    {
        let ghost s = self.input@;
        let ghost p0 = self.pos as int;
        let start = self.pos;
        self.consume_byte(LPAREN)?;
        let mut depth: u32 = 1;
        while depth > 0
            invariant
                self.input@ == s,
                old(self).input@ == s,
                old(self).pos == p0,
                start == p0,
                self.wf(),
                p0 < self.pos,
                balanced_at(s, p0) == match balanced_loop(s, self.pos as int, depth) {
                    Err(e) => Err(e),
                    Ok(e) => Ok((e, s.subrange(p0, e))),
                },
            decreases s.len() - self.pos,
        {
            let ghost before = self.pos as int;
            proof {
                lemma_quoted_adv(s, before);
                lemma_literal_adv(s, before);
            }
            let c = self.peek()?;
            if c == LPAREN {
                self.pos += 1;
                depth = match depth.checked_add(1) {
                    Some(d) => d,
                    None => {
                        return Err(ParseError::Other("paren depth overflow"));
                    },
                };
            } else if c == RPAREN {
                self.pos += 1;
                depth -= 1;
            } else if c == DQUOTE {
                self.parse_quoted()?;
            } else if c == LBRACE {
                self.parse_literal()?;
            } else {
                self.pos += 1;
            }
        }
        Ok(&self.input[start..self.pos])
    }

    /// nstring as a byte slice (literal or quoted). NIL becomes an empty slice.
    fn parse_nstring_bytes(&mut self) -> (r: Result<&'a [u8], ParseError>)
        requires
            old(self).wf(),
        ensures
            old(self).same_input(final(self)),
            nstring_bytes_at(old(self).input@, old(self).pos as int) == bytes_res(r, final(self).pos),
    {
        let ghost s = self.input@;
        let ghost p0 = self.pos as int;
        let c = self.peek()?;
        if c == DQUOTE {
            proof {
                lemma_quoted_close(s, p0 + 1);
            }
            let t = self.parse_quoted()?;
            proof {
                if let Ok(cl) = quoted_close(s, p0 + 1) {
                    decode_utf8_encode_utf8(s.subrange(p0 + 1, cl));
                }
            }
            Ok(t.as_bytes())
        } else if c == LBRACE {
            self.parse_literal()
        } else if self.try_consume_keyword_ci("NIL".as_bytes()) {
            let empty = &self.input[self.pos..self.pos];
            assert(empty@ =~= Seq::<u8>::empty());
            Ok(empty)
        } else if is_proper_prefix_ci(self.remaining(), "NIL".as_bytes()) {
            Err(ParseError::Incomplete)
        } else {
            Err(ParseError::Malformed("expected nstring"))
        }
    }

    /// Like [`Self::parse_nstring_bytes`] but returns `None` for NIL.
    fn parse_nstring_bytes_optional(&mut self) -> (r: Result<Option<&'a [u8]>, ParseError>)
        requires
            old(self).wf(),
        ensures
            old(self).same_input(final(self)),
            nstring_bytes_opt_at(old(self).input@, old(self).pos as int) == match r {
                Ok(o) => Ok((final(self).pos as int, opt_bytes_view(o))),
                Err(e) => Err(e),
            },
    {
        let ghost s = self.input@;
        let ghost p0 = self.pos as int;
        let c = self.peek()?;
        if c == DQUOTE {
            proof {
                lemma_quoted_close(s, p0 + 1);
            }
            let t = self.parse_quoted()?;
            proof {
                if let Ok(cl) = quoted_close(s, p0 + 1) {
                    decode_utf8_encode_utf8(s.subrange(p0 + 1, cl));
                }
            }
            Ok(Some(t.as_bytes()))
        } else if c == LBRACE {
            Ok(Some(self.parse_literal()?))
        } else if self.try_consume_keyword_ci("NIL".as_bytes()) {
            Ok(None)
        } else if is_proper_prefix_ci(self.remaining(), "NIL".as_bytes()) {
            Err(ParseError::Incomplete)
        } else {
            Err(ParseError::Malformed("expected nstring"))
        }
    }

    /// Read up to (not including) `terminator` or the end of the input; a
    /// CR or LF before it is malformed.
    fn read_until_byte(&mut self, terminator: u8) -> (r: Result<&'a str, ParseError>)
        requires
            old(self).wf(),
        ensures
            old(self).same_input(final(self)),
            until_byte_at(old(self).input@, old(self).pos as int, terminator) == str_res(
                r,
                final(self).pos,
            ),
    {
        let ghost s = self.input@;
        let input = self.input;
        let start = self.pos;
        let mut i = self.pos;
        while i < input.len()
            invariant
                input@ == s,
                start <= i <= s.len() <= usize::MAX,
                until_end(s, start as int, terminator) == until_end(s, i as int, terminator),
            ensures
                start <= i <= s.len(),
                until_end(s, start as int, terminator) == until_end(s, i as int, terminator),
                i < s.len() ==> (s[i as int] == terminator || s[i as int] == CR || s[i as int] == LF),
            decreases s.len() - i,
        {
            let c = input[i];
            if c == terminator {
                break;
            }
            if c == CR || c == LF {
                break;
            }
            i += 1;
        }
        if i >= input.len() {
            return Err(ParseError::Incomplete);
        }
        if input[i] != terminator {
            return Err(ParseError::Malformed("CR/LF before terminator"));
        }
        self.pos = i;
        text_of(&input[start..i])
    }

    /// FETCH attribute names can include `.`; read up to SP, `[` or `)`.
    fn parse_fetch_att_name(&mut self) -> (r: Result<&'a str, ParseError>)
        requires
            old(self).wf(),
        ensures
            old(self).same_input(final(self)),
            fetch_att_name_end(old(self).input@, old(self).pos as int) == match r {
                Ok(_) => Ok(final(self).pos as int),
                Err(e) => Err(e),
            },
            r.is_ok() ==> old(self).pos < final(self).pos,
    {
        let ghost s = self.input@;
        let start = self.pos;
        self.advance_while(Stop::AttNameEnd);
        proof {
            lemma_scan(s, start as int, Stop::AttNameEnd);
        }
        if self.is_eof() {
            return Err(ParseError::Incomplete);
        }
        if start == self.pos {
            return Err(ParseError::Malformed("expected FETCH att name"));
        }
        text_of(&self.input[start..self.pos])
    }
}


impl<'a> Parser<'a> {
    /// `*(SP atom)`, as in `CAPABILITY IMAP4rev2 IDLE`.
    fn parse_sp_atoms(&mut self) -> (r: Result<Vec<&'a str>, ParseError>)
        requires
            old(self).wf(),
        ensures
            old(self).same_input(final(self)),
            atom_seq(old(self).input@, old(self).pos as int, Seq::empty()) == match r {
                Ok(v) => Ok((final(self).pos as int, strs_view(v@))),
                Err(e) => Err(e),
            },
    {
        let ghost s = self.input@;
        let ghost p0 = self.pos as int;
        let mut items: Vec<&'a str> = Vec::new();
        proof {
            assert(strs_view(items@) =~= Seq::<Seq<char>>::empty());
        }
        while self.try_consume_byte(SP)
            invariant
                self.input@ == s,
                old(self).input@ == s,
                old(self).pos == p0,
                self.wf(),
                atom_seq(s, p0, Seq::empty()) == atom_seq(s, self.pos as int, strs_view(items@)),
            decreases s.len() - self.pos,
        {
            let ghost before = self.pos as int;
            let ghost old_items = items@;
            proof {
                lemma_atom_adv(s, before);
            }
            let item = self.parse_atom()?;
            items.push(item);
            proof {
                lemma_strs_view_push(old_items, item);
            }
        }
        Ok(items)
    }

    /// `*(SP number)`, as in `SEARCH 1 2 3`.
    fn parse_sp_numbers(&mut self) -> (r: Result<Vec<u32>, ParseError>)
        requires
            old(self).wf(),
        ensures
            old(self).same_input(final(self)),
            number_seq(old(self).input@, old(self).pos as int, Seq::empty()) == match r {
                Ok(v) => Ok((final(self).pos as int, v@)),
                Err(e) => Err(e),
            },
    {
        let ghost s = self.input@;
        let ghost p0 = self.pos as int;
        let mut ids: Vec<u32> = Vec::new();
        while self.try_consume_byte(SP)
            invariant
                self.input@ == s,
                old(self).input@ == s,
                old(self).pos == p0,
                self.wf(),
                number_seq(s, p0, Seq::empty()) == number_seq(s, self.pos as int, ids@),
            decreases s.len() - self.pos,
        {
            let ghost before = self.pos as int;
            proof {
                lemma_number_adv(s, before);
            }
            let n = self.parse_number()?;
            ids.push(n);
        }
        Ok(ids)
    }

    /// resp-text-code, read up to `]` or SP, then its arguments.
    fn parse_resp_text_code(&mut self) -> (r: Result<ResponseCode<'a>, ParseError>)
        requires
            old(self).wf(),
        ensures
            old(self).same_input(final(self)),
            resp_text_code_at(old(self).input@, old(self).pos as int) == match r {
                Ok(c) => Ok((final(self).pos as int, c@)),
                Err(e) => Err(e),
            },
    {
        let ghost s = self.input@;
        let start = self.pos;
        self.advance_while(Stop::CodeEnd);
        proof {
            lemma_scan(s, start as int, Stop::CodeEnd);
        }
        if self.is_eof() {
            return Err(ParseError::Incomplete);
        }
        if start == self.pos {
            return Err(ParseError::Malformed("empty response code"));
        }
        let atom_bytes = &self.input[start..self.pos];
        let atom = text_of(atom_bytes)?;
        if eq_ci(atom_bytes, "ALERT".as_bytes()) {
            Ok(ResponseCode::Alert)
        } else if eq_ci(atom_bytes, "PARSE".as_bytes()) {
            Ok(ResponseCode::Parse)
        } else if eq_ci(atom_bytes, "READ-ONLY".as_bytes()) {
            Ok(ResponseCode::ReadOnly)
        } else if eq_ci(atom_bytes, "READ-WRITE".as_bytes()) {
            Ok(ResponseCode::ReadWrite)
        } else if eq_ci(atom_bytes, "TRYCREATE".as_bytes()) {
            Ok(ResponseCode::TryCreate)
        } else if eq_ci(atom_bytes, "UIDNEXT".as_bytes()) {
            self.consume_sp()?;
            Ok(ResponseCode::UidNext(self.parse_number()?))
        } else if eq_ci(atom_bytes, "UIDVALIDITY".as_bytes()) {
            self.consume_sp()?;
            Ok(ResponseCode::UidValidity(self.parse_number()?))
        } else if eq_ci(atom_bytes, "UNSEEN".as_bytes()) {
            self.consume_sp()?;
            Ok(ResponseCode::Unseen(self.parse_number()?))
        } else if eq_ci(atom_bytes, "CAPABILITY".as_bytes()) {
            let caps = self.parse_sp_atoms()?;
            Ok(ResponseCode::Capability(caps))
        } else if eq_ci(atom_bytes, "PERMANENTFLAGS".as_bytes()) {
            self.consume_sp()?;
            Ok(ResponseCode::PermanentFlags(self.parse_paren_atom_list()?))
        } else if eq_ci(atom_bytes, "BADCHARSET".as_bytes()) {
            let charsets = if self.try_consume_byte(SP) {
                self.parse_paren_atom_list()?
            } else {
                let v = Vec::new();
                proof {
                    assert(strs_view(v@) =~= Seq::<Seq<char>>::empty());
                }
                v
            };
            Ok(ResponseCode::BadCharset(charsets))
        } else {
            let extra = if self.try_consume_byte(SP) {
                let extra_start = self.pos;
                self.advance_while(Stop::CloseBracket);
                proof {
                    lemma_scan(s, extra_start as int, Stop::CloseBracket);
                }
                if self.is_eof() {
                    return Err(ParseError::Incomplete);
                }
                Some(text_of(&self.input[extra_start..self.pos])?)
            } else {
                None
            };
            Ok(ResponseCode::Other(atom, extra))
        }
    }

    /// resp-text = ["[" resp-text-code "]" SP] text. Some servers omit the
    /// SP after the code when the text is empty.
    fn parse_resp_text(&mut self) -> (r: Result<(Option<ResponseCode<'a>>, &'a str), ParseError>)
        requires
            old(self).wf(),
        ensures
            old(self).same_input(final(self)),
            resp_text_at(old(self).input@, old(self).pos as int) == match r {
                Ok((c, t)) => Ok((final(self).pos as int, (opt_code_view(c), t@))),
                Err(e) => Err(e),
            },
    {
        let code = if self.try_consume_byte(LBRACKET) {
            let c = self.parse_resp_text_code()?;
            self.consume_byte(RBRACKET)?;
            let _ = self.try_consume_byte(SP);
            Some(c)
        } else {
            None
        };
        let text = self.parse_text()?;
        Ok((code, text))
    }

    /// resp-text following a status keyword. The RFC requires `SP
    /// resp-text`, but the SP may be absent if the line ends immediately
    /// (so an incomplete `A1 OK\r` is reported as Incomplete by the CRLF
    /// check, not as InvalidChar).
    fn parse_resp_text_after_keyword(&mut self) -> (r: Result<
        (Option<ResponseCode<'a>>, &'a str),
        ParseError,
    >)
        requires
            old(self).wf(),
        ensures
            old(self).same_input(final(self)),
            resp_text_after_keyword_at(old(self).input@, old(self).pos as int) == match r {
                Ok((c, t)) => Ok((final(self).pos as int, (opt_code_view(c), t@))),
                Err(e) => Err(e),
            },
    {
        if self.try_consume_byte(SP) {
            self.parse_resp_text()
        } else {
            let empty = "";
            proof {
                reveal_strlit("");
                assert(empty@ =~= Seq::<char>::empty());
            }
            Ok((None, empty))
        }
    }

    /// A status keyword (PREAUTH is tried first; the boundary-aware keyword
    /// match prevents `OKAY`-style false positives).
    fn try_parse_status_keyword(&mut self) -> (r: Option<Status>)
        requires
            old(self).wf(),
        ensures
            old(self).same_input(final(self)),
            status_keyword_at(old(self).input@, old(self).pos as int) == match r {
                Some(st) => Some((final(self).pos as int, st)),
                None => None,
            },
            r is None ==> final(self).pos == old(self).pos,
    {
        if self.try_consume_keyword_ci("PREAUTH".as_bytes()) {
            Some(Status::PreAuth)
        } else if self.try_consume_keyword_ci("OK".as_bytes()) {
            Some(Status::Okay)
        } else if self.try_consume_keyword_ci("NO".as_bytes()) {
            Some(Status::No)
        } else if self.try_consume_keyword_ci("BAD".as_bytes()) {
            Some(Status::Bad)
        } else if self.try_consume_keyword_ci("BYE".as_bytes()) {
            Some(Status::Bye)
        } else {
            None
        }
    }
}


/// The models of a list of fetch attributes grown by one.
proof fn lemma_atts_view_push<'a>(v: Seq<FetchAttribute<'a>>, x: FetchAttribute<'a>)
    ensures
        atts_view(v.push(x)) == atts_view(v).push(x@),
{
    assert(atts_view(v.push(x)) =~= atts_view(v).push(x@));
}

/// The model of a parse step that yields a response.
pub open spec fn resp_res<'a>(r: Result<Response<'a>, ParseError>, q: usize) -> PRes<
    crate::ast::SpecResponse,
> {
    match r {
        Ok(x) => Ok((q as int, x@)),
        Err(e) => Err(e),
    }
}

impl<'a> Parser<'a> {
    /// The start of the current line: just after the closest CRLF before
    /// the current position, or the start of the input.
    fn find_current_line_start(&self) -> (r: usize)
        requires
            self.wf(),
        ensures
            r == line_start(self.input@, self.pos as int),
            r <= self.pos,
    {
        let ghost s = self.input@;
        let input = self.input;
        let mut i = self.pos;
        while i > 0 && !(i >= 2 && input[i - 2] == CR && input[i - 1] == LF)
            invariant
                input@ == s,
                s == self.input@,
                i <= self.pos <= s.len(),
                line_start(s, self.pos as int) == line_start(s, i as int),
            decreases i,
        {
            i -= 1;
        }
        i
    }

    /// Salvage path for unrecognized numeric data responses: capture the
    /// whole line as raw bytes.
    fn finish_other_data_with_prefix(&mut self, _n: u32, _kind: &'a str) -> (r: Result<
        Response<'a>,
        ParseError,
    >)
        requires
            old(self).wf(),
        ensures
            old(self).same_input(final(self)),
            other_data_at(old(self).input@, old(self).pos as int) == resp_res(r, final(self).pos),
    {
        let ghost s = self.input@;
        let line_start = self.find_current_line_start();
        let from = self.pos;
        self.advance_while(Stop::Cr);
        proof {
            lemma_scan(s, from as int, Stop::Cr);
        }
        let line = &self.input[line_start..self.pos];
        self.consume_crlf()?;
        Ok(Response::Data(DataResponse::Other(line)))
    }

    fn parse_numeric_data_response(&mut self) -> (r: Result<Response<'a>, ParseError>)
        requires
            old(self).wf(),
        ensures
            old(self).same_input(final(self)),
            numeric_data_at(old(self).input@, old(self).pos as int) == resp_res(r, final(self).pos),
    {
        let n = self.parse_number()?;
        self.consume_sp()?;
        let kind_start = self.pos;
        let kind = self.parse_atom()?;
        let kb = &self.input[kind_start..self.pos];
        let resp = if eq_ci(kb, "EXISTS".as_bytes()) {
            DataResponse::Exists(n)
        } else if eq_ci(kb, "RECENT".as_bytes()) {
            DataResponse::Recent(n)
        } else if eq_ci(kb, "EXPUNGE".as_bytes()) {
            DataResponse::Expunge(n)
        } else if eq_ci(kb, "FETCH".as_bytes()) {
            self.consume_sp()?;
            let attributes = self.parse_fetch_msg_att()?;
            DataResponse::Fetch { seq: n, attributes }
        } else {
            // Unknown numeric data response — fall back to Other (raw line).
            return self.finish_other_data_with_prefix(n, kind);
        };
        self.consume_line_end()?;
        Ok(Response::Data(resp))
    }

    fn parse_list_lsub_body(&mut self) -> (r: Result<
        (Vec<&'a str>, Option<&'a str>, &'a str),
        ParseError,
    >)
        requires
            old(self).wf(),
        ensures
            old(self).same_input(final(self)),
            list_body_at(old(self).input@, old(self).pos as int) == match r {
                Ok((f, d, n)) => Ok((final(self).pos as int, (strs_view(f@), opt_str_view(d), n@))),
                Err(e) => Err(e),
            },
    {
        let flags = self.parse_paren_atom_list()?;
        self.consume_sp()?;
        let delimiter = self.parse_nstring()?;
        self.consume_sp()?;
        let name = self.parse_astring()?;
        Ok((flags, delimiter, name))
    }

    fn parse_status_items(&mut self) -> (r: Result<Vec<StatusItem>, ParseError>)
        requires
            old(self).wf(),
        ensures
            old(self).same_input(final(self)),
            status_items_at(old(self).input@, old(self).pos as int) == match r {
                Ok(v) => Ok((final(self).pos as int, v@)),
                Err(e) => Err(e),
            },
    {
        let ghost s = self.input@;
        let ghost p0 = self.pos as int;
        self.consume_byte(LPAREN)?;
        let mut items: Vec<StatusItem> = Vec::new();
        if self.try_consume_byte(RPAREN) {
            return Ok(items);
        }
        loop
            invariant
                self.input@ == s,
                old(self).input@ == s,
                old(self).pos == p0,
                self.wf(),
                status_items_at(s, p0) == status_items_loop(s, self.pos as int, items@),
            decreases s.len() - self.pos,
        {
            let ghost before = self.pos as int;
            proof {
                lemma_atom_adv(s, before);
            }
            let key_start = self.pos;
            let _key = self.parse_atom()?;
            let key = &self.input[key_start..self.pos];
            self.consume_sp()?;
            let ghost q2 = self.pos as int;
            proof {
                lemma_number_adv(s, q2);
            }
            let value = self.parse_number()?;
            let item = if eq_ci(key, "MESSAGES".as_bytes()) {
                StatusItem::Messages(value)
            } else if eq_ci(key, "RECENT".as_bytes()) {
                StatusItem::Recent(value)
            } else if eq_ci(key, "UIDNEXT".as_bytes()) {
                StatusItem::UidNext(value)
            } else if eq_ci(key, "UIDVALIDITY".as_bytes()) {
                StatusItem::UidValidity(value)
            } else if eq_ci(key, "UNSEEN".as_bytes()) {
                StatusItem::Unseen(value)
            } else {
                StatusItem::Other(value)
            };
            items.push(item);
            let c = self.peek()?;
            if c == SP {
                self.pos += 1;
            } else if c == RPAREN {
                self.pos += 1;
                return Ok(items);
            } else {
                return Err(ParseError::Malformed("expected SP or ) in STATUS items"));
            }
        }
    }

    /// The body of a data response recognised by its name `name`.
    fn parse_named_data_body(&mut self, name: &[u8]) -> (r: Result<DataResponse<'a>, ParseError>)
        requires
            old(self).wf(),
            is_known_data_name(name@),
        ensures
            old(self).same_input(final(self)),
            named_data_body_at(old(self).input@, old(self).pos as int, name@) == match r {
                Ok(d) => Ok((final(self).pos as int, d@)),
                Err(e) => Err(e),
            },
    {
        if eq_ci(name, "CAPABILITY".as_bytes()) {
            let caps = self.parse_sp_atoms()?;
            Ok(DataResponse::Capability(caps))
        } else if eq_ci(name, "LIST".as_bytes()) {
            self.consume_sp()?;
            let (flags, delimiter, name) = self.parse_list_lsub_body()?;
            Ok(DataResponse::List { flags, delimiter, name })
        } else if eq_ci(name, "LSUB".as_bytes()) {
            self.consume_sp()?;
            let (flags, delimiter, name) = self.parse_list_lsub_body()?;
            Ok(DataResponse::Lsub { flags, delimiter, name })
        } else if eq_ci(name, "STATUS".as_bytes()) {
            self.consume_sp()?;
            let mailbox = self.parse_astring()?;
            self.consume_sp()?;
            let items = self.parse_status_items()?;
            Ok(DataResponse::Status { mailbox, items })
        } else if eq_ci(name, "SEARCH".as_bytes()) {
            let ids = self.parse_sp_numbers()?;
            Ok(DataResponse::Search(ids))
        } else {
            self.consume_sp()?;
            Ok(DataResponse::Flags(self.parse_paren_atom_list()?))
        }
    }

    fn parse_named_data_response(&mut self) -> (r: Result<Response<'a>, ParseError>)
        requires
            old(self).wf(),
        ensures
            old(self).same_input(final(self)),
            named_data_at(old(self).input@, old(self).pos as int) == resp_res(r, final(self).pos),
    {
        let ghost s = self.input@;
        let line_start = self.pos;
        let _name = self.parse_atom()?;
        let name = &self.input[line_start..self.pos];
        if !(eq_ci(name, "CAPABILITY".as_bytes()) || eq_ci(name, "LIST".as_bytes()) || eq_ci(
            name,
            "LSUB".as_bytes(),
        ) || eq_ci(name, "STATUS".as_bytes()) || eq_ci(name, "SEARCH".as_bytes()) || eq_ci(
            name,
            "FLAGS".as_bytes(),
        )) {
            // Unknown — capture the raw line.
            let from = self.pos;
            self.advance_while(Stop::Cr);
            proof {
                lemma_scan(s, from as int, Stop::Cr);
            }
            let line = &self.input[line_start..self.pos];
            self.consume_crlf()?;
            return Ok(Response::Data(DataResponse::Other(line)));
        }
        let resp = self.parse_named_data_body(name)?;
        self.consume_line_end()?;
        Ok(Response::Data(resp))
    }

    fn parse_fetch_msg_att(&mut self) -> (r: Result<Vec<FetchAttribute<'a>>, ParseError>)
        requires
            old(self).wf(),
        ensures
            old(self).same_input(final(self)),
            fetch_msg_att_at(old(self).input@, old(self).pos as int) == match r {
                Ok(v) => Ok((final(self).pos as int, atts_view(v@))),
                Err(e) => Err(e),
            },
    {
        let ghost s = self.input@;
        let ghost p0 = self.pos as int;
        self.consume_byte(LPAREN)?;
        let mut atts: Vec<FetchAttribute<'a>> = Vec::new();
        proof {
            assert(atts_view(atts@) =~= Seq::<crate::ast::SpecFetchAttribute>::empty());
        }
        if self.try_consume_byte(RPAREN) {
            return Ok(atts);
        }
        loop
            invariant
                self.input@ == s,
                old(self).input@ == s,
                old(self).pos == p0,
                self.wf(),
                fetch_msg_att_at(s, p0) == fetch_att_loop(s, self.pos as int, atts_view(atts@)),
            decreases s.len() - self.pos,
        {
            let ghost before = self.pos as int;
            let ghost old_atts = atts@;
            proof {
                lemma_fetch_att_adv(s, before);
            }
            let att = self.parse_one_fetch_att()?;
            atts.push(att);
            proof {
                lemma_atts_view_push(old_atts, att);
            }
            let c = self.peek()?;
            if c == SP {
                self.pos += 1;
            } else if c == RPAREN {
                self.pos += 1;
                return Ok(atts);
            } else {
                return Err(ParseError::Malformed("expected SP or ) in FETCH atts"));
            }
        }
    }

    /// `BODY[section]<origin> SP nstring`, after `BODY` (at the `[`).
    fn parse_body_section(&mut self) -> (r: Result<FetchAttribute<'a>, ParseError>)
        requires
            old(self).wf(),
            at(old(self).input@, old(self).pos as int, LBRACKET),
        ensures
            old(self).same_input(final(self)),
            body_section_at(old(self).input@, old(self).pos as int) == match r {
                Ok(a) => Ok((final(self).pos as int, a@)),
                Err(e) => Err(e),
            },
    {
        self.pos += 1;
        let section = self.read_until_byte(RBRACKET)?;
        self.consume_byte(RBRACKET)?;
        let origin = if self.try_consume_byte(LANGLE) {
            let n = self.parse_number()?;
            self.consume_byte(RANGLE)?;
            Some(n)
        } else {
            None
        };
        self.consume_sp()?;
        let data = self.parse_nstring_bytes_optional()?;
        Ok(
            FetchAttribute::BodySection {
                section: if section.is_empty() {
                    None
                } else {
                    Some(section)
                },
                origin,
                data,
            },
        )
    }

    fn parse_one_fetch_att(&mut self) -> (r: Result<FetchAttribute<'a>, ParseError>)
        requires
            old(self).wf(),
        ensures
            old(self).same_input(final(self)),
            fetch_att_at(old(self).input@, old(self).pos as int) == match r {
                Ok(a) => Ok((final(self).pos as int, a@)),
                Err(e) => Err(e),
            },
    {
        let start = self.pos;
        let _name = self.parse_fetch_att_name()?;
        let name = &self.input[start..self.pos];

        if eq_ci(name, "UID".as_bytes()) {
            self.consume_sp()?;
            return Ok(FetchAttribute::Uid(self.parse_number()?));
        }
        if eq_ci(name, "FLAGS".as_bytes()) {
            self.consume_sp()?;
            return Ok(FetchAttribute::Flags(self.parse_paren_atom_list()?));
        }
        if eq_ci(name, "INTERNALDATE".as_bytes()) {
            self.consume_sp()?;
            let s = self.parse_quoted()?;
            return Ok(FetchAttribute::InternalDate(s));
        }
        if eq_ci(name, "RFC822.SIZE".as_bytes()) {
            self.consume_sp()?;
            return Ok(FetchAttribute::Rfc822Size(self.parse_number()?));
        }
        if eq_ci(name, "RFC822".as_bytes()) {
            self.consume_sp()?;
            return Ok(FetchAttribute::Rfc822(self.parse_nstring_bytes()?));
        }
        if eq_ci(name, "RFC822.HEADER".as_bytes()) {
            self.consume_sp()?;
            return Ok(FetchAttribute::Rfc822Header(self.parse_nstring_bytes()?));
        }
        if eq_ci(name, "RFC822.TEXT".as_bytes()) {
            self.consume_sp()?;
            return Ok(FetchAttribute::Rfc822Text(self.parse_nstring_bytes()?));
        }
        if eq_ci(name, "ENVELOPE".as_bytes()) {
            self.consume_sp()?;
            return Ok(FetchAttribute::Envelope(self.parse_balanced_parens()?));
        }
        if eq_ci(name, "BODYSTRUCTURE".as_bytes()) {
            self.consume_sp()?;
            return Ok(FetchAttribute::BodyStructure(self.parse_balanced_parens()?));
        }
        if eq_ci(name, "BODY".as_bytes()) {
            // Two cases: `BODY <body>` (= non-extensible body structure) or
            // `BODY[<section>]<<origin>> <nstring>`.
            if self.pos < self.input.len() && self.input[self.pos] == LBRACKET {
                return self.parse_body_section();
            }
            self.consume_sp()?;
            return Ok(FetchAttribute::Body(self.parse_balanced_parens()?));
        }
        Err(ParseError::Malformed("unknown FETCH attribute"))
    }
}


/// True iff `bytes` is a (possibly empty) case-insensitive proper prefix of
/// `keyword`.
fn is_proper_prefix_ci(bytes: &[u8], keyword: &[u8]) -> (r: bool)
    ensures
        r == proper_ci_prefix(bytes@, keyword@),
{
    bytes.len() < keyword.len() && eq_ci(&keyword[0..bytes.len()], bytes)
}

/// True iff `bytes` is a (possibly empty) case-insensitive prefix of one
/// of the IMAP status keywords. Used to disambiguate Incomplete from
/// Malformed when the parser is sitting at a known keyword position.
fn could_be_status_keyword_prefix(bytes: &[u8]) -> (r: bool)
    ensures
        r == keyword_prefix(bytes@),
{
    is_proper_prefix_ci(bytes, "OK".as_bytes()) || is_proper_prefix_ci(bytes, "NO".as_bytes())
        || is_proper_prefix_ci(bytes, "BAD".as_bytes()) || is_proper_prefix_ci(
        bytes,
        "BYE".as_bytes(),
    ) || is_proper_prefix_ci(bytes, "PREAUTH".as_bytes())
}

impl<'a> Parser<'a> {
    fn parse_continue_req(&mut self) -> (r: Result<Response<'a>, ParseError>)
        requires
            old(self).wf(),
        ensures
            old(self).same_input(final(self)),
            continue_req_at(old(self).input@, old(self).pos as int) == resp_res(r, final(self).pos),
    {
        self.consume_byte(PLUS)?;
        self.consume_sp()?;
        let (code, text) = self.parse_resp_text()?;
        self.consume_line_end()?;
        Ok(Response::Continue(ContinueReq { code, text }))
    }

    /// resp-text and CRLF after a status keyword.
    fn parse_status_tail(&mut self, tag: Option<&'a str>, status: Status) -> (r: Result<
        Response<'a>,
        ParseError,
    >)
        requires
            old(self).wf(),
        ensures
            old(self).same_input(final(self)),
            status_tail_at(old(self).input@, old(self).pos as int, opt_str_view(tag), status)
                == resp_res(r, final(self).pos),
    {
        let (code, text) = self.parse_resp_text_after_keyword()?;
        self.consume_line_end()?;
        Ok(Response::Status(StatusResponse { tag, status, code, text }))
    }

    fn parse_untagged(&mut self) -> (r: Result<Response<'a>, ParseError>)
        requires
            old(self).wf(),
        ensures
            old(self).same_input(final(self)),
            untagged_at(old(self).input@, old(self).pos as int) == resp_res(r, final(self).pos),
    {
        self.consume_byte(STAR)?;
        self.consume_sp()?;

        // First, try a status keyword (OK / NO / BAD / PREAUTH / BYE).
        if let Some(status) = self.try_parse_status_keyword() {
            return self.parse_status_tail(None, status);
        }

        // Otherwise: a data response. The first token is either a number
        // (FETCH / EXISTS / RECENT / EXPUNGE) or a name.
        let c = self.peek()?;
        if 48 <= c && c <= 57 {
            return self.parse_numeric_data_response();
        }
        self.parse_named_data_response()
    }

    fn parse_tagged(&mut self) -> (r: Result<Response<'a>, ParseError>)
        requires
            old(self).wf(),
        ensures
            old(self).same_input(final(self)),
            tagged_at(old(self).input@, old(self).pos as int) == resp_res(r, final(self).pos),
    {
        let tag = self.parse_tag()?;
        self.consume_sp()?;
        let status = match self.try_parse_status_keyword() {
            Some(s) => s,
            None => {
                // The byte after the tag's SP is required to be a status
                // keyword. If the buffer is too short for any keyword, or
                // its prefix matches one (`A0001 O…`), we're incomplete.
                let rem = &self.input[self.pos..self.input.len()];
                if could_be_status_keyword_prefix(rem) {
                    return Err(ParseError::Incomplete);
                }
                return Err(ParseError::Malformed("expected tagged status keyword"));
            },
        };
        self.parse_status_tail(Some(tag), status)
    }

    fn parse_response(&mut self) -> (r: Result<Response<'a>, ParseError>)
        requires
            old(self).wf(),
        ensures
            old(self).same_input(final(self)),
            response_at(old(self).input@, old(self).pos as int) == resp_res(r, final(self).pos),
    {
        if self.is_eof() {
            return Err(ParseError::Incomplete);
        }
        let c = self.peek()?;
        if c == PLUS {
            self.parse_continue_req()
        } else if c == STAR {
            self.parse_untagged()
        } else {
            self.parse_tagged()
        }
    }
}

/// Result returned by the parser API: the unparsed remainder and a value.
pub type IResult<'a, T> = Result<(&'a [u8], T), ParseError>;

/// Parse a single IMAP server response from `input`.
///
/// Returns the unparsed remainder and the parsed [`Response`]: the
/// response is what the grammar makes of the first bytes of `input`, and
/// the remainder is the rest of `input` after them. If `input` does not
/// yet contain a complete response, returns [`ParseError::Incomplete`].
pub fn parse_response(input: &[u8]) -> (r: IResult<'_, Response<'_>>)
    ensures
        match r {
            Ok((rest, resp)) => {
                &&& rest@.len() <= input@.len()
                &&& parse_response_spec(input@) == Ok::<(int, crate::ast::SpecResponse), ParseError>(
                    ((input@.len() - rest@.len()) as int, resp@),
                )
                &&& rest@ == input@.skip(input@.len() - rest@.len())
            },
            Err(e) => parse_response_spec(input@) == Err::<(int, crate::ast::SpecResponse), ParseError>(e),
        },
{
    proof {
        reveal(parse_response_spec);
    }
    let mut parser = Parser::new(input);
    let response = parser.parse_response()?;
    let rest = parser.remaining();
    proof {
        assert(rest@ =~= input@.skip(input@.len() - rest@.len()));
    }
    Ok((rest, response))
}

} // verus!
