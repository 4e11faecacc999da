//! Incremental parsing: a response that parses from the bytes received so
//! far parses the same way, to the same length, once more bytes arrive.
//! This is what lets the dispatcher split frames off a buffer that grows
//! read by read (partial reads, literals split across packets).
//!
//! Each grammar element gets a lemma: when it succeeds on `s` at `p` and
//! ends before the end of `s`, it gives the same result on any `t` that
//! begins with `s`, and it does not end before `p`. The elements that end
//! with CRLF give the same result even when they end exactly at the end
//! of `s`.

use vstd::prelude::*;

use crate::ast::{SpecResponse, SpecDataResponse, SpecFetchAttribute, Status, StatusItem};
use crate::error::ParseError;
use crate::grammar::{
    astring_at, at, atom_at, atom_list_at, atom_list_loop, atom_seq, balanced_at, balanced_loop, body_section_at,
    byte_at, ci_eq, ci_match, continue_req_at, crlf_at, digits_value, fetch_att_at, fetch_att_loop,
    fetch_att_name_end, fetch_att_value, fetch_msg_att_at, flag_or_atom_at, keyword_at, kw,
    line_end_at, line_start, list_body_at, lower, PRes, proper_ci_prefix, literal_at, literal_text_at, named_data_at, named_data_body_at,
    nstring_at, nstring_bytes_at, nstring_bytes_opt_at, number_at, number_seq, numeric_data_at,
    origin_at, other_data_at, parse_response_spec, quoted_at, quoted_bytes_at, quoted_close,
    resp_text_after_keyword_at, resp_text_at, resp_text_code_at, response_at, run_text, scan,
    skip_opt, status_item, status_items_at, status_items_loop, status_keyword_at, status_tail_at, stops, tag_at,
    tagged_at, text_at, then_crlf, until_byte_at, until_end, untagged_at, utf8, Stop, BACKSLASH, CR,
    DQUOTE, LANGLE, LBRACE, LBRACKET, LF, LPAREN, PLUS, RANGLE, RBRACE, RBRACKET, RPAREN, SP, STAR,
};

verus! {

/// `t` begins with all of `s`.
pub open spec fn extends(t: Seq<u8>, s: Seq<u8>) -> bool {
    &&& s.len() <= t.len()
    &&& forall|i: int| #![trigger s[i]] #![trigger t[i]] 0 <= i < s.len() ==> s[i] == t[i]
}

proof fn lemma_subrange_ext(s: Seq<u8>, t: Seq<u8>, a: int, b: int)
    requires
        extends(t, s),
        0 <= a <= b <= s.len(),
    ensures
        t.subrange(a, b) == s.subrange(a, b),
{
    assert(t.subrange(a, b) =~= s.subrange(a, b));
}

proof fn lemma_scan_ext(s: Seq<u8>, t: Seq<u8>, p: int, k: Stop)
    requires
        extends(t, s),
        0 <= p,
        scan(s, p, k) < s.len(),
    ensures
        scan(t, p, k) == scan(s, p, k),
        p <= scan(s, p, k),
    decreases s.len() - p,
{
    if p < s.len() && !stops(k, s[p]) {
        lemma_scan_ext(s, t, p + 1, k);
    }
}

proof fn lemma_digits_value_ext(s: Seq<u8>, t: Seq<u8>, a: int, b: int)
    requires
        extends(t, s),
        0 <= a,
        b <= s.len(),
    ensures
        digits_value(t, a, b) == digits_value(s, a, b),
    decreases b - a,
{
    if b > a {
        lemma_digits_value_ext(s, t, a, b - 1);
    }
}

proof fn lemma_number_ext(s: Seq<u8>, t: Seq<u8>, p: int)
    requires
        extends(t, s),
        0 <= p,
        number_at(s, p) matches Ok((q, _)) && q < s.len(),
    ensures
        number_at(t, p) == number_at(s, p),
        number_at(s, p) matches Ok((q, _)) && p <= q,
{
    lemma_scan_ext(s, t, p, Stop::NonDigit);
    lemma_digits_value_ext(s, t, p, scan(s, p, Stop::NonDigit));
}

proof fn lemma_run_text_ext(s: Seq<u8>, t: Seq<u8>, p: int, e: int, empty: ParseError)
    requires
        extends(t, s),
        0 <= p <= e <= s.len(),
        run_text(s, p, e, empty) is Ok,
    ensures
        run_text(t, p, e, empty) == run_text(s, p, e, empty),
{
    lemma_subrange_ext(s, t, p, e);
}

proof fn lemma_atom_ext(s: Seq<u8>, t: Seq<u8>, p: int)
    requires
        extends(t, s),
        0 <= p,
        atom_at(s, p) matches Ok((q, _)) && q < s.len(),
    ensures
        atom_at(t, p) == atom_at(s, p),
        atom_at(s, p) matches Ok((q, _)) && p <= q,
{
    lemma_scan_ext(s, t, p, Stop::NonAtom);
    lemma_run_text_ext(s, t, p, scan(s, p, Stop::NonAtom), ParseError::Malformed("expected atom"));
}

proof fn lemma_tag_ext(s: Seq<u8>, t: Seq<u8>, p: int)
    requires
        extends(t, s),
        0 <= p,
        tag_at(s, p) matches Ok((q, _)) && q < s.len(),
    ensures
        tag_at(t, p) == tag_at(s, p),
        tag_at(s, p) matches Ok((q, _)) && p <= q,
{
    lemma_scan_ext(s, t, p, Stop::TagEnd);
    lemma_run_text_ext(s, t, p, scan(s, p, Stop::TagEnd), ParseError::Malformed("expected tag"));
}

proof fn lemma_text_ext(s: Seq<u8>, t: Seq<u8>, p: int)
    requires
        extends(t, s),
        0 <= p,
        text_at(s, p) matches Ok((q, _)) && q < s.len(),
    ensures
        text_at(t, p) == text_at(s, p),
        text_at(s, p) matches Ok((q, _)) && p <= q,
{
    lemma_scan_ext(s, t, p, Stop::LineEnd);
    lemma_subrange_ext(s, t, p, scan(s, p, Stop::LineEnd));
}

proof fn lemma_byte_ext(s: Seq<u8>, t: Seq<u8>, p: int, b: u8)
    requires
        extends(t, s),
        byte_at(s, p, b) is Ok,
    ensures
        byte_at(t, p, b) == byte_at(s, p, b),
        byte_at(s, p, b) == Ok::<int, ParseError>(p + 1),
        0 <= p < s.len(),
{
}

proof fn lemma_crlf_ext(s: Seq<u8>, t: Seq<u8>, p: int)
    requires
        extends(t, s),
        crlf_at(s, p) is Ok,
    ensures
        crlf_at(t, p) == crlf_at(s, p),
        crlf_at(s, p) == Ok::<int, ParseError>(p + 2),
        0 <= p,
        p + 2 <= s.len(),
        s[p] == CR,
        s[p + 1] == LF,
{
}

proof fn lemma_line_end_ext(s: Seq<u8>, t: Seq<u8>, p: int)
    requires
        extends(t, s),
        0 <= p,
        line_end_at(s, p) is Ok,
    ensures
        line_end_at(t, p) == line_end_at(s, p),
        line_end_at(s, p) matches Ok(q) && p <= q - 2 && s[q - 2] == CR && s[q - 1] == LF && q <= s.len(),
{
    crate::grammar_lemmas::lemma_scan_any(s, p, Stop::LineEnd);
    let e = scan(s, p, Stop::LineEnd);
    lemma_crlf_ext(s, t, e);
    lemma_scan_ext(s, t, p, Stop::LineEnd);
}

proof fn lemma_quoted_close_ext(s: Seq<u8>, t: Seq<u8>, i: int)
    requires
        extends(t, s),
        quoted_close(s, i) is Ok,
    ensures
        quoted_close(t, i) == quoted_close(s, i),
        quoted_close(s, i) matches Ok(c) && 0 <= i <= c < s.len(),
    decreases s.len() - i,
{
    if 0 <= i < s.len() && s[i] != DQUOTE {
        if s[i] == BACKSLASH {
            assert(i + 1 < s.len());
            lemma_quoted_close_ext(s, t, i + 2);
        } else {
            lemma_quoted_close_ext(s, t, i + 1);
        }
    }
}

proof fn lemma_quoted_ext(s: Seq<u8>, t: Seq<u8>, p: int)
    requires
        extends(t, s),
        quoted_at(s, p) is Ok,
    ensures
        quoted_at(t, p) == quoted_at(s, p),
        quoted_at(s, p) matches Ok((q, _)) && 0 <= p < q <= s.len(),
{
    lemma_byte_ext(s, t, p, DQUOTE);
    lemma_quoted_close_ext(s, t, p + 1);
    let c = quoted_close(s, p + 1)->Ok_0;
    lemma_subrange_ext(s, t, p + 1, c);
}

proof fn lemma_quoted_bytes_ext(s: Seq<u8>, t: Seq<u8>, p: int)
    requires
        extends(t, s),
        quoted_bytes_at(s, p) is Ok,
    ensures
        quoted_bytes_at(t, p) == quoted_bytes_at(s, p),
        quoted_bytes_at(s, p) matches Ok((q, _)) && 0 <= p < q <= s.len(),
{
    lemma_byte_ext(s, t, p, DQUOTE);
    lemma_quoted_close_ext(s, t, p + 1);
    let c = quoted_close(s, p + 1)->Ok_0;
    lemma_subrange_ext(s, t, p + 1, c);
}

proof fn lemma_literal_ext(s: Seq<u8>, t: Seq<u8>, p: int)
    requires
        extends(t, s),
        literal_at(s, p) is Ok,
    ensures
        literal_at(t, p) == literal_at(s, p),
        literal_at(s, p) matches Ok((q, _)) && 0 <= p < q <= s.len(),
{
    lemma_byte_ext(s, t, p, LBRACE);
    let (e, n) = number_at(s, p + 1)->Ok_0;
    lemma_byte_ext(s, t, e, RBRACE);
    lemma_number_ext(s, t, p + 1);
    lemma_crlf_ext(s, t, e + 1);
    lemma_subrange_ext(s, t, e + 3, e + 3 + n);
}

proof fn lemma_literal_text_ext(s: Seq<u8>, t: Seq<u8>, p: int)
    requires
        extends(t, s),
        literal_text_at(s, p) is Ok,
    ensures
        literal_text_at(t, p) == literal_text_at(s, p),
        literal_text_at(s, p) matches Ok((q, _)) && 0 <= p < q <= s.len(),
{
    lemma_literal_ext(s, t, p);
}

proof fn lemma_keyword_ext(s: Seq<u8>, t: Seq<u8>, p: int, k: Seq<u8>)
    requires
        extends(t, s),
        keyword_at(s, p, k),
        p + k.len() < s.len(),
    ensures
        keyword_at(t, p, k),
{
    lemma_subrange_ext(s, t, p, p + k.len());
}

proof fn lemma_astring_ext(s: Seq<u8>, t: Seq<u8>, p: int)
    requires
        extends(t, s),
        0 <= p,
        astring_at(s, p) matches Ok((q, _)) && q < s.len(),
    ensures
        astring_at(t, p) == astring_at(s, p),
        astring_at(s, p) matches Ok((q, _)) && p <= q,
{
    let c = s[p];
    if c == DQUOTE {
        lemma_quoted_ext(s, t, p);
    } else if c == LBRACE {
        lemma_literal_text_ext(s, t, p);
    } else {
        lemma_atom_ext(s, t, p);
    }
}

proof fn lemma_nstring_ext(s: Seq<u8>, t: Seq<u8>, p: int)
    requires
        extends(t, s),
        0 <= p,
        nstring_at(s, p) matches Ok((q, _)) && q < s.len(),
    ensures
        nstring_at(t, p) == nstring_at(s, p),
        nstring_at(s, p) matches Ok((q, _)) && p <= q,
{
    let c = s[p];
    if c == DQUOTE {
        lemma_quoted_ext(s, t, p);
    } else if c == LBRACE {
        lemma_literal_text_ext(s, t, p);
    } else {
        lemma_keyword_ext(s, t, p, kw("NIL"));
    }
}

proof fn lemma_nstring_bytes_ext(s: Seq<u8>, t: Seq<u8>, p: int)
    requires
        extends(t, s),
        0 <= p,
        nstring_bytes_at(s, p) matches Ok((q, _)) && q < s.len(),
    ensures
        nstring_bytes_at(t, p) == nstring_bytes_at(s, p),
        nstring_bytes_at(s, p) matches Ok((q, _)) && p <= q,
{
    let c = s[p];
    if c == DQUOTE {
        lemma_quoted_bytes_ext(s, t, p);
    } else if c == LBRACE {
        lemma_literal_ext(s, t, p);
    } else {
        lemma_keyword_ext(s, t, p, kw("NIL"));
    }
}

proof fn lemma_nstring_bytes_opt_ext(s: Seq<u8>, t: Seq<u8>, p: int)
    requires
        extends(t, s),
        0 <= p,
        nstring_bytes_opt_at(s, p) matches Ok((q, _)) && q < s.len(),
    ensures
        nstring_bytes_opt_at(t, p) == nstring_bytes_opt_at(s, p),
        nstring_bytes_opt_at(s, p) matches Ok((q, _)) && p <= q,
{
    let c = s[p];
    if c == DQUOTE {
        lemma_quoted_bytes_ext(s, t, p);
    } else if c == LBRACE {
        lemma_literal_ext(s, t, p);
    } else {
        lemma_keyword_ext(s, t, p, kw("NIL"));
    }
}

proof fn lemma_flag_or_atom_ext(s: Seq<u8>, t: Seq<u8>, p: int)
    requires
        extends(t, s),
        0 <= p,
        flag_or_atom_at(s, p) matches Ok((q, _)) && q < s.len(),
    ensures
        flag_or_atom_at(t, p) == flag_or_atom_at(s, p),
        flag_or_atom_at(s, p) matches Ok((q, _)) && p < q,
{
    let c = s[p];
    if c == BACKSLASH && at(s, p + 1, STAR) {
        lemma_subrange_ext(s, t, p, p + 2);
    } else {
        let q = if c == BACKSLASH {
            p + 1
        } else {
            p
        };
        crate::grammar_lemmas::lemma_scan_any(s, q, Stop::NonAtom);
        lemma_scan_ext(s, t, q, Stop::NonAtom);
        lemma_subrange_ext(s, t, p, scan(s, q, Stop::NonAtom));
    }
}

proof fn lemma_until_end_ext(s: Seq<u8>, t: Seq<u8>, i: int, term: u8)
    requires
        extends(t, s),
        0 <= i,
        until_end(s, i, term) matches Ok(e) && e < s.len(),
    ensures
        until_end(t, i, term) == until_end(s, i, term),
        until_end(s, i, term) matches Ok(e) && i <= e,
    decreases s.len() - i,
{
    if i < s.len() && s[i] != term && !(s[i] == CR || s[i] == LF) {
        lemma_until_end_ext(s, t, i + 1, term);
    }
}

proof fn lemma_until_byte_ext(s: Seq<u8>, t: Seq<u8>, p: int, term: u8)
    requires
        extends(t, s),
        0 <= p,
        until_byte_at(s, p, term) matches Ok((q, _)) && q < s.len(),
    ensures
        until_byte_at(t, p, term) == until_byte_at(s, p, term),
        until_byte_at(s, p, term) matches Ok((q, _)) && p <= q,
{
    lemma_until_end_ext(s, t, p, term);
    let e = until_end(s, p, term)->Ok_0;
    lemma_subrange_ext(s, t, p, e);
}

proof fn lemma_atom_list_loop_ext(s: Seq<u8>, t: Seq<u8>, p: int, acc: Seq<Seq<char>>)
    requires
        extends(t, s),
        0 <= p,
        atom_list_loop(s, p, acc) matches Ok((q, _)) && q < s.len(),
    ensures
        atom_list_loop(t, p, acc) == atom_list_loop(s, p, acc),
        atom_list_loop(s, p, acc) matches Ok((q, _)) && p <= q,
    decreases s.len() - p,
{
    crate::grammar_lemmas::lemma_flag_or_atom_adv(s, p);
    let (q1, item) = flag_or_atom_at(s, p)->Ok_0;
    let c = s[q1];
    if c == SP {
        lemma_atom_list_loop_ext(s, t, q1 + 1, acc.push(item));
    }
    lemma_flag_or_atom_ext(s, t, p);
}

proof fn lemma_atom_list_ext(s: Seq<u8>, t: Seq<u8>, p: int)
    requires
        extends(t, s),
        0 <= p,
        atom_list_at(s, p) matches Ok((q, _)) && q < s.len(),
    ensures
        atom_list_at(t, p) == atom_list_at(s, p),
        atom_list_at(s, p) matches Ok((q, _)) && p <= q,
{
    lemma_byte_ext(s, t, p, LPAREN);
    if !at(s, p + 1, RPAREN) {
        lemma_atom_list_loop_ext(s, t, p + 1, Seq::empty());
    }
}

proof fn lemma_balanced_loop_ext(s: Seq<u8>, t: Seq<u8>, i: int, depth: u32)
    requires
        extends(t, s),
        0 <= i <= s.len(),
        balanced_loop(s, i, depth) is Ok,
    ensures
        balanced_loop(t, i, depth) == balanced_loop(s, i, depth),
        balanced_loop(s, i, depth) matches Ok(e) && i <= e <= s.len(),
    decreases s.len() - i,
{
    if depth != 0 {
        let c = s[i];
        if c == LPAREN {
            lemma_balanced_loop_ext(s, t, i + 1, (depth + 1) as u32);
        } else if c == RPAREN {
            lemma_balanced_loop_ext(s, t, i + 1, (depth - 1) as u32);
        } else if c == DQUOTE {
            lemma_quoted_ext(s, t, i);
            let q = quoted_at(s, i)->Ok_0.0;
            lemma_balanced_loop_ext(s, t, q, depth);
        } else if c == LBRACE {
            lemma_literal_ext(s, t, i);
            let q = literal_at(s, i)->Ok_0.0;
            lemma_balanced_loop_ext(s, t, q, depth);
        } else {
            lemma_balanced_loop_ext(s, t, i + 1, depth);
        }
    }
}

proof fn lemma_balanced_ext(s: Seq<u8>, t: Seq<u8>, p: int)
    requires
        extends(t, s),
        balanced_at(s, p) is Ok,
    ensures
        balanced_at(t, p) == balanced_at(s, p),
        balanced_at(s, p) matches Ok((q, _)) && 0 <= p < q <= s.len(),
{
    lemma_byte_ext(s, t, p, LPAREN);
    lemma_balanced_loop_ext(s, t, p + 1, 1);
    let e = balanced_loop(s, p + 1, 1)->Ok_0;
    lemma_subrange_ext(s, t, p, e);
}

proof fn lemma_atom_seq_ext(s: Seq<u8>, t: Seq<u8>, p: int, acc: Seq<Seq<char>>)
    requires
        extends(t, s),
        0 <= p,
        atom_seq(s, p, acc) matches Ok((q, _)) && q < s.len(),
    ensures
        atom_seq(t, p, acc) == atom_seq(s, p, acc),
        atom_seq(s, p, acc) matches Ok((q, _)) && p <= q,
    decreases s.len() - p,
{
    if at(s, p, SP) {
        crate::grammar_lemmas::lemma_atom_adv(s, p + 1);
        let (q1, a) = atom_at(s, p + 1)->Ok_0;
        lemma_atom_seq_ext(s, t, q1, acc.push(a));
        lemma_atom_ext(s, t, p + 1);
    }
}

proof fn lemma_number_seq_ext(s: Seq<u8>, t: Seq<u8>, p: int, acc: Seq<u32>)
    requires
        extends(t, s),
        0 <= p,
        number_seq(s, p, acc) matches Ok((q, _)) && q < s.len(),
    ensures
        number_seq(t, p, acc) == number_seq(s, p, acc),
        number_seq(s, p, acc) matches Ok((q, _)) && p <= q,
    decreases s.len() - p,
{
    if at(s, p, SP) {
        crate::grammar_lemmas::lemma_number_adv(s, p + 1);
        let (q1, n) = number_at(s, p + 1)->Ok_0;
        lemma_number_seq_ext(s, t, q1, acc.push(n));
        lemma_number_ext(s, t, p + 1);
    }
}

proof fn lemma_origin_ext(s: Seq<u8>, t: Seq<u8>, p: int)
    requires
        extends(t, s),
        0 <= p,
        origin_at(s, p) matches Ok((q, _)) && q < s.len(),
    ensures
        origin_at(t, p) == origin_at(s, p),
        origin_at(s, p) matches Ok((q, _)) && p <= q,
{
    if at(s, p, LANGLE) {
        let (q, n) = number_at(s, p + 1)->Ok_0;
        lemma_byte_ext(s, t, q, RANGLE);
        lemma_number_ext(s, t, p + 1);
    }
}

proof fn lemma_fetch_att_name_end_ext(s: Seq<u8>, t: Seq<u8>, p: int)
    requires
        extends(t, s),
        0 <= p,
        fetch_att_name_end(s, p) matches Ok(e) && e < s.len(),
    ensures
        fetch_att_name_end(t, p) == fetch_att_name_end(s, p),
        fetch_att_name_end(s, p) matches Ok(e) && p < e,
{
    lemma_scan_ext(s, t, p, Stop::AttNameEnd);
    lemma_subrange_ext(s, t, p, scan(s, p, Stop::AttNameEnd));
}

proof fn lemma_status_items_loop_ext(s: Seq<u8>, t: Seq<u8>, p: int, acc: Seq<StatusItem>)
    requires
        extends(t, s),
        0 <= p,
        status_items_loop(s, p, acc) matches Ok((q, _)) && q < s.len(),
    ensures
        status_items_loop(t, p, acc) == status_items_loop(s, p, acc),
        status_items_loop(s, p, acc) matches Ok((q, _)) && p <= q,
    decreases s.len() - p,
{
    crate::grammar_lemmas::lemma_atom_adv(s, p);
    let (q1, _a) = atom_at(s, p)->Ok_0;
    lemma_byte_ext(s, t, q1, SP);
    crate::grammar_lemmas::lemma_number_adv(s, q1 + 1);
    let (q3, v) = number_at(s, q1 + 1)->Ok_0;
    let c = s[q3];
    let item = status_item(s.subrange(p, q1), v);
    if c == SP {
        lemma_status_items_loop_ext(s, t, q3 + 1, acc.push(item));
    }
    lemma_number_ext(s, t, q1 + 1);
    lemma_atom_ext(s, t, p);
    lemma_subrange_ext(s, t, p, q1);
}

proof fn lemma_status_items_ext(s: Seq<u8>, t: Seq<u8>, p: int)
    requires
        extends(t, s),
        0 <= p,
        status_items_at(s, p) matches Ok((q, _)) && q < s.len(),
    ensures
        status_items_at(t, p) == status_items_at(s, p),
        status_items_at(s, p) matches Ok((q, _)) && p <= q,
{
    lemma_byte_ext(s, t, p, LPAREN);
    if !at(s, p + 1, RPAREN) {
        lemma_status_items_loop_ext(s, t, p + 1, Seq::empty());
    }
}

proof fn lemma_resp_text_code_ext(s: Seq<u8>, t: Seq<u8>, p: int)
    requires
        extends(t, s),
        0 <= p,
        resp_text_code_at(s, p) matches Ok((q, _)) && q < s.len(),
    ensures
        resp_text_code_at(t, p) == resp_text_code_at(s, p),
        resp_text_code_at(s, p) matches Ok((q, _)) && p <= q,
{
    crate::grammar_lemmas::lemma_scan_any(s, p, Stop::CodeEnd);
    let e = scan(s, p, Stop::CodeEnd);
    let name = s.subrange(p, e);
    if ci_eq(name, kw("ALERT")) || ci_eq(name, kw("PARSE")) || ci_eq(name, kw("READ-ONLY")) || ci_eq(
        name,
        kw("READ-WRITE"),
    ) || ci_eq(name, kw("TRYCREATE")) {
    } else if ci_eq(name, kw("UIDNEXT")) || ci_eq(name, kw("UIDVALIDITY")) || ci_eq(name, kw("UNSEEN")) {
        lemma_byte_ext(s, t, e, SP);
        lemma_number_ext(s, t, e + 1);
    } else if ci_eq(name, kw("CAPABILITY")) {
        lemma_atom_seq_ext(s, t, e, Seq::empty());
    } else if ci_eq(name, kw("PERMANENTFLAGS")) {
        lemma_byte_ext(s, t, e, SP);
        lemma_atom_list_ext(s, t, e + 1);
    } else if ci_eq(name, kw("BADCHARSET")) {
        if at(s, e, SP) {
            lemma_atom_list_ext(s, t, e + 1);
        }
    } else if at(s, e, SP) {
        crate::grammar_lemmas::lemma_scan_any(s, e + 1, Stop::CloseBracket);
        lemma_scan_ext(s, t, e + 1, Stop::CloseBracket);
        lemma_subrange_ext(s, t, e + 1, scan(s, e + 1, Stop::CloseBracket));
    }
    lemma_scan_ext(s, t, p, Stop::CodeEnd);
    lemma_subrange_ext(s, t, p, e);
}

proof fn lemma_resp_text_ext(s: Seq<u8>, t: Seq<u8>, p: int)
    requires
        extends(t, s),
        0 <= p,
        resp_text_at(s, p) matches Ok((q, _)) && q < s.len(),
    ensures
        resp_text_at(t, p) == resp_text_at(s, p),
        resp_text_at(s, p) matches Ok((q, _)) && p <= q,
{
    if at(s, p, LBRACKET) {
        let (q1, _c) = resp_text_code_at(s, p + 1)->Ok_0;
        lemma_byte_ext(s, t, q1, RBRACKET);
        let q2 = q1 + 1;
        lemma_text_ext(s, t, skip_opt(s, q2, SP));
        lemma_resp_text_code_ext(s, t, p + 1);
    } else {
        lemma_text_ext(s, t, p);
    }
}

proof fn lemma_resp_text_after_keyword_ext(s: Seq<u8>, t: Seq<u8>, p: int)
    requires
        extends(t, s),
        0 <= p,
        resp_text_after_keyword_at(s, p) matches Ok((q, _)) && q < s.len(),
    ensures
        resp_text_after_keyword_at(t, p) == resp_text_after_keyword_at(s, p),
        resp_text_after_keyword_at(s, p) matches Ok((q, _)) && p <= q,
{
    if at(s, p, SP) {
        lemma_resp_text_ext(s, t, p + 1);
    }
}

proof fn lemma_list_body_ext(s: Seq<u8>, t: Seq<u8>, p: int)
    requires
        extends(t, s),
        0 <= p,
        list_body_at(s, p) matches Ok((q, _)) && q < s.len(),
    ensures
        list_body_at(t, p) == list_body_at(s, p),
        list_body_at(s, p) matches Ok((q, _)) && p <= q,
{
    crate::grammar_lemmas::lemma_atom_list_adv(s, p);
    let (q, _flags) = atom_list_at(s, p)->Ok_0;
    lemma_byte_ext(s, t, q, SP);
    let (q2, _d) = nstring_at(s, q + 1)->Ok_0;
    lemma_byte_ext(s, t, q2, SP);
    lemma_astring_ext(s, t, q2 + 1);
    lemma_nstring_ext(s, t, q + 1);
    lemma_atom_list_ext(s, t, p);
}

proof fn lemma_named_data_body_ext(s: Seq<u8>, t: Seq<u8>, q: int, name: Seq<u8>)
    requires
        extends(t, s),
        0 <= q,
        named_data_body_at(s, q, name) matches Ok((q1, _)) && q1 < s.len(),
    ensures
        named_data_body_at(t, q, name) == named_data_body_at(s, q, name),
        named_data_body_at(s, q, name) matches Ok((q1, _)) && q <= q1,
{
    if ci_eq(name, kw("CAPABILITY")) {
        lemma_atom_seq_ext(s, t, q, Seq::empty());
    } else if ci_eq(name, kw("LIST")) || ci_eq(name, kw("LSUB")) {
        lemma_byte_ext(s, t, q, SP);
        lemma_list_body_ext(s, t, q + 1);
    } else if ci_eq(name, kw("STATUS")) {
        lemma_byte_ext(s, t, q, SP);
        crate::grammar_lemmas::lemma_scan_any(s, q + 1, Stop::NonAtom);
        let (q2, _m) = astring_at(s, q + 1)->Ok_0;
        lemma_byte_ext(s, t, q2, SP);
        lemma_status_items_ext(s, t, q2 + 1);
        lemma_astring_ext(s, t, q + 1);
    } else if ci_eq(name, kw("SEARCH")) {
        lemma_number_seq_ext(s, t, q, Seq::empty());
    } else {
        lemma_byte_ext(s, t, q, SP);
        lemma_atom_list_ext(s, t, q + 1);
    }
}

proof fn lemma_body_section_ext(s: Seq<u8>, t: Seq<u8>, p: int)
    requires
        extends(t, s),
        0 <= p,
        body_section_at(s, p) matches Ok((q, _)) && q < s.len(),
    ensures
        body_section_at(t, p) == body_section_at(s, p),
        body_section_at(s, p) matches Ok((q, _)) && p < q,
{
    crate::grammar_lemmas::lemma_until_end(s, p + 1, RBRACKET);
    let (q, _section) = until_byte_at(s, p + 1, RBRACKET)->Ok_0;
    lemma_byte_ext(s, t, q, RBRACKET);
    crate::grammar_lemmas::lemma_number_adv(s, q + 2);
    let (q2, _origin) = origin_at(s, q + 1)->Ok_0;
    lemma_byte_ext(s, t, q2, SP);
    lemma_nstring_bytes_opt_ext(s, t, q2 + 1);
    lemma_origin_ext(s, t, q + 1);
    lemma_until_byte_ext(s, t, p + 1, RBRACKET);
}

proof fn lemma_fetch_att_value_ext(s: Seq<u8>, t: Seq<u8>, p: int, q: int)
    requires
        extends(t, s),
        0 <= p <= q <= s.len(),
        fetch_att_value(s, p, q) matches Ok((q1, _)) && q1 < s.len(),
    ensures
        fetch_att_value(t, p, q) == fetch_att_value(s, p, q),
        fetch_att_value(s, p, q) matches Ok((q1, _)) && q < q1,
{
    let name = s.subrange(p, q);
    lemma_subrange_ext(s, t, p, q);
    if ci_eq(name, kw("UID")) {
        lemma_byte_ext(s, t, q, SP);
        lemma_number_ext(s, t, q + 1);
    } else if ci_eq(name, kw("FLAGS")) {
        lemma_byte_ext(s, t, q, SP);
        lemma_atom_list_ext(s, t, q + 1);
    } else if ci_eq(name, kw("INTERNALDATE")) {
        lemma_byte_ext(s, t, q, SP);
        lemma_quoted_ext(s, t, q + 1);
    } else if ci_eq(name, kw("RFC822.SIZE")) {
        lemma_byte_ext(s, t, q, SP);
        lemma_number_ext(s, t, q + 1);
    } else if ci_eq(name, kw("RFC822")) || ci_eq(name, kw("RFC822.HEADER")) || ci_eq(
        name,
        kw("RFC822.TEXT"),
    ) {
        lemma_byte_ext(s, t, q, SP);
        lemma_nstring_bytes_ext(s, t, q + 1);
    } else if ci_eq(name, kw("ENVELOPE")) || ci_eq(name, kw("BODYSTRUCTURE")) {
        lemma_byte_ext(s, t, q, SP);
        lemma_balanced_ext(s, t, q + 1);
    } else if ci_eq(name, kw("BODY")) {
        if at(s, q, LBRACKET) {
            lemma_body_section_ext(s, t, q);
        } else {
            lemma_byte_ext(s, t, q, SP);
            lemma_balanced_ext(s, t, q + 1);
        }
    }
}

proof fn lemma_fetch_att_ext(s: Seq<u8>, t: Seq<u8>, p: int)
    requires
        extends(t, s),
        0 <= p,
        fetch_att_at(s, p) matches Ok((q, _)) && q < s.len(),
    ensures
        fetch_att_at(t, p) == fetch_att_at(s, p),
        fetch_att_at(s, p) matches Ok((q, _)) && p < q,
{
    crate::grammar_lemmas::lemma_scan_any(s, p, Stop::AttNameEnd);
    let q = fetch_att_name_end(s, p)->Ok_0;
    lemma_fetch_att_value_ext(s, t, p, q);
    lemma_fetch_att_name_end_ext(s, t, p);
}

proof fn lemma_fetch_att_loop_ext(s: Seq<u8>, t: Seq<u8>, p: int, acc: Seq<SpecFetchAttribute>)
    requires
        extends(t, s),
        0 <= p,
        fetch_att_loop(s, p, acc) matches Ok((q, _)) && q < s.len(),
    ensures
        fetch_att_loop(t, p, acc) == fetch_att_loop(s, p, acc),
        fetch_att_loop(s, p, acc) matches Ok((q, _)) && p <= q,
    decreases s.len() - p,
{
    crate::grammar_lemmas::lemma_fetch_att_adv(s, p);
    let (q1, a) = fetch_att_at(s, p)->Ok_0;
    let c = s[q1];
    if c == SP {
        lemma_fetch_att_loop_ext(s, t, q1 + 1, acc.push(a));
    }
    lemma_fetch_att_ext(s, t, p);
}

proof fn lemma_fetch_msg_att_ext(s: Seq<u8>, t: Seq<u8>, p: int)
    requires
        extends(t, s),
        0 <= p,
        fetch_msg_att_at(s, p) matches Ok((q, _)) && q < s.len(),
    ensures
        fetch_msg_att_at(t, p) == fetch_msg_att_at(s, p),
        fetch_msg_att_at(s, p) matches Ok((q, _)) && p <= q,
{
    lemma_byte_ext(s, t, p, LPAREN);
    if !at(s, p + 1, RPAREN) {
        lemma_fetch_att_loop_ext(s, t, p + 1, Seq::empty());
    }
}

proof fn lemma_line_start_bounds(s: Seq<u8>, i: int)
    requires
        0 <= i,
    ensures
        0 <= line_start(s, i) <= i,
    decreases i,
{
    if i > 0 && !(i >= 2 && s[i - 2] == CR && s[i - 1] == LF) {
        lemma_line_start_bounds(s, i - 1);
    }
}

proof fn lemma_line_start_ext(s: Seq<u8>, t: Seq<u8>, i: int)
    requires
        extends(t, s),
        i <= s.len(),
    ensures
        line_start(t, i) == line_start(s, i),
    decreases i,
{
    if i > 0 && !(i >= 2 && s[i - 2] == CR && s[i - 1] == LF) {
        lemma_line_start_ext(s, t, i - 1);
    }
}

// --- Status keywords --------------------------------------------------------

/// Whether every byte of `k` is an ASCII capital letter.
pub open spec fn capitals(k: Seq<u8>) -> bool {
    forall|i: int| 0 <= i < k.len() ==> 65 <= #[trigger] k[i] <= 90
}

proof fn lemma_capitals(k: &str)
    requires
        vstd::utf8::is_ascii_chars(k@),
        forall|i: int| 0 <= i < k@.len() ==> 'A' <= #[trigger] k@[i] <= 'Z',
    ensures
        capitals(kw(k)),
        kw(k).len() == k@.len(),
        forall|i: int| 0 <= i < k@.len() ==> #[trigger] kw(k)[i] == k@[i] as u8,
{
    vstd::utf8::is_ascii_chars_encode_utf8(k@);
    assert forall|i: int| 0 <= i < kw(k).len() implies 65 <= #[trigger] kw(k)[i] <= 90 by {
        assert('A' <= k@[i] <= 'Z');
        assert(kw(k)[i] == k@[i] as u8);
    };
}

/// The status keywords are made of capital letters, and their first
/// letters tell `PREAUTH` apart from the others.
proof fn lemma_status_keywords()
    ensures
        capitals(kw("PREAUTH")),
        capitals(kw("OK")),
        capitals(kw("NO")),
        capitals(kw("BAD")),
        capitals(kw("BYE")),
        kw("PREAUTH").len() == 7,
        kw("OK").len() == 2,
        kw("NO").len() == 2,
        kw("BAD").len() == 3,
        kw("BYE").len() == 3,
        kw("PREAUTH")[0] == 80,
        kw("OK")[0] == 79,
        kw("NO")[0] == 78,
        kw("BAD")[0] == 66,
        kw("BYE")[0] == 66,
{
    reveal_strlit("PREAUTH");
    reveal_strlit("OK");
    reveal_strlit("NO");
    reveal_strlit("BAD");
    reveal_strlit("BYE");
    lemma_capitals("PREAUTH");
    lemma_capitals("OK");
    lemma_capitals("NO");
    lemma_capitals("BAD");
    lemma_capitals("BYE");
}

/// A keyword that does not stand at `p` in `s` does not come to stand
/// there as bytes arrive, provided `s` already shows a mismatching byte
/// at `j` whenever the keyword would reach past its end.
proof fn lemma_keyword_stays_absent(s: Seq<u8>, t: Seq<u8>, p: int, k: Seq<u8>, j: int)
    requires
        extends(t, s),
        0 <= p,
        !keyword_at(s, p, k),
        p + k.len() > s.len() ==> (p <= j < s.len() && lower(s[j]) != lower(k[j - p])),
    ensures
        !keyword_at(t, p, k),
{
    if p + k.len() <= s.len() {
        lemma_subrange_ext(s, t, p, p + k.len());
    } else if ci_match(t, p, k) {
        assert(t.subrange(p, p + k.len())[j - p] == t[j]);
    }
}

proof fn lemma_status_keyword_some_ext(s: Seq<u8>, t: Seq<u8>, p: int)
    requires
        extends(t, s),
        0 <= p,
        status_keyword_at(s, p) matches Some((q, _)) && q < s.len(),
    ensures
        status_keyword_at(t, p) == status_keyword_at(s, p),
        status_keyword_at(s, p) matches Some((q, _)) && p < q,
{
    lemma_status_keywords();
    if keyword_at(s, p, kw("PREAUTH")) {
        lemma_keyword_ext(s, t, p, kw("PREAUTH"));
    } else {
        let k = if keyword_at(s, p, kw("OK")) {
            kw("OK")
        } else if keyword_at(s, p, kw("NO")) {
            kw("NO")
        } else if keyword_at(s, p, kw("BAD")) {
            kw("BAD")
        } else {
            kw("BYE")
        };
        assert(keyword_at(s, p, k));
        assert(s.subrange(p, p + k.len())[0] == s[p]);
        assert(lower(s[p]) == lower(k[0]));
        lemma_keyword_stays_absent(s, t, p, kw("PREAUTH"), p);
        if keyword_at(s, p, kw("OK")) {
            lemma_keyword_ext(s, t, p, kw("OK"));
        } else {
            lemma_keyword_stays_absent(s, t, p, kw("OK"), p);
            if keyword_at(s, p, kw("NO")) {
                lemma_keyword_ext(s, t, p, kw("NO"));
            } else {
                lemma_keyword_stays_absent(s, t, p, kw("NO"), p);
                if keyword_at(s, p, kw("BAD")) {
                    lemma_keyword_ext(s, t, p, kw("BAD"));
                } else {
                    lemma_keyword_stays_absent(s, t, p, kw("BAD"), p);
                    lemma_keyword_ext(s, t, p, kw("BYE"));
                }
            }
        }
    }
}

proof fn lemma_status_keyword_none_ext(s: Seq<u8>, t: Seq<u8>, p: int, j: int)
    requires
        extends(t, s),
        0 <= p <= j < s.len(),
        s[j] == CR,
        status_keyword_at(s, p) is None,
    ensures
        status_keyword_at(t, p) is None,
{
    lemma_status_keywords();
    lemma_keyword_stays_absent(s, t, p, kw("PREAUTH"), j);
    lemma_keyword_stays_absent(s, t, p, kw("OK"), j);
    lemma_keyword_stays_absent(s, t, p, kw("NO"), j);
    lemma_keyword_stays_absent(s, t, p, kw("BAD"), j);
    lemma_keyword_stays_absent(s, t, p, kw("BYE"), j);
}

// --- Elements that end with CRLF --------------------------------------------

/// `r` ends at `q`, just after a CRLF that starts at or after `p`.
pub open spec fn ends_with_crlf<T>(r: PRes<T>, s: Seq<u8>, p: int) -> bool {
    r matches Ok((q, _)) && p <= q - 2 && s[q - 2] == CR && s[q - 1] == LF && q <= s.len()
}

proof fn lemma_then_crlf_ext(s: Seq<u8>, t: Seq<u8>, r: PRes<SpecDataResponse>)
    requires
        extends(t, s),
        then_crlf(s, r) is Ok,
    ensures
        then_crlf(t, r) == then_crlf(s, r),
        r matches Ok((q0, _)) && then_crlf(s, r) matches Ok((q, _)) && q0 <= q - 2 && s[q - 2] == CR && s[q - 1] == LF && 0 <= q0
            && q <= s.len(),
{
    let q0 = r->Ok_0.0;
    lemma_line_end_ext(s, t, q0);
}

proof fn lemma_other_data_ext(s: Seq<u8>, t: Seq<u8>, i: int)
    requires
        extends(t, s),
        0 <= i,
        other_data_at(s, i) is Ok,
    ensures
        other_data_at(t, i) == other_data_at(s, i),
        ends_with_crlf(other_data_at(s, i), s, i),
{
    crate::grammar_lemmas::lemma_scan_any(s, i, Stop::Cr);
    let e = scan(s, i, Stop::Cr);
    lemma_crlf_ext(s, t, e);
    lemma_scan_ext(s, t, i, Stop::Cr);
    lemma_line_start_ext(s, t, i);
    lemma_line_start_bounds(s, i);
    lemma_subrange_ext(s, t, line_start(s, i), e);
}

proof fn lemma_numeric_data_ext(s: Seq<u8>, t: Seq<u8>, p: int)
    requires
        extends(t, s),
        0 <= p,
        numeric_data_at(s, p) is Ok,
    ensures
        numeric_data_at(t, p) == numeric_data_at(s, p),
        ends_with_crlf(numeric_data_at(s, p), s, p),
{
    crate::grammar_lemmas::lemma_number_adv(s, p);
    let (q, _n) = number_at(s, p)->Ok_0;
    lemma_byte_ext(s, t, q, SP);
    crate::grammar_lemmas::lemma_atom_adv(s, q + 1);
    let (q2, _a) = atom_at(s, q + 1)->Ok_0;
    let k = s.subrange(q + 1, q2);
    if ci_eq(k, kw("EXISTS")) || ci_eq(k, kw("RECENT")) || ci_eq(k, kw("EXPUNGE")) {
        lemma_line_end_ext(s, t, q2);
    } else if ci_eq(k, kw("FETCH")) {
        lemma_byte_ext(s, t, q2, SP);
        let (q4, _atts) = fetch_msg_att_at(s, q2 + 1)->Ok_0;
        lemma_line_end_ext(s, t, q4);
        lemma_fetch_msg_att_ext(s, t, q2 + 1);
    } else {
        lemma_other_data_ext(s, t, q2);
    }
    lemma_atom_ext(s, t, q + 1);
    lemma_subrange_ext(s, t, q + 1, q2);
    lemma_number_ext(s, t, p);
}

proof fn lemma_named_data_ext(s: Seq<u8>, t: Seq<u8>, p: int)
    requires
        extends(t, s),
        0 <= p,
        named_data_at(s, p) is Ok,
    ensures
        named_data_at(t, p) == named_data_at(s, p),
        ends_with_crlf(named_data_at(s, p), s, p),
{
    crate::grammar_lemmas::lemma_atom_adv(s, p);
    let (q, _a) = atom_at(s, p)->Ok_0;
    let name = s.subrange(p, q);
    if crate::grammar::is_known_data_name(name) {
        lemma_then_crlf_ext(s, t, named_data_body_at(s, q, name));
        lemma_named_data_body_ext(s, t, q, name);
    } else {
        crate::grammar_lemmas::lemma_scan_any(s, q, Stop::Cr);
        let e = scan(s, q, Stop::Cr);
        lemma_crlf_ext(s, t, e);
        lemma_scan_ext(s, t, q, Stop::Cr);
        lemma_subrange_ext(s, t, p, e);
    }
    lemma_atom_ext(s, t, p);
    lemma_subrange_ext(s, t, p, q);
}

proof fn lemma_status_tail_ext(s: Seq<u8>, t: Seq<u8>, p: int, tag: Option<Seq<char>>, status: Status)
    requires
        extends(t, s),
        0 <= p,
        status_tail_at(s, p, tag, status) is Ok,
    ensures
        status_tail_at(t, p, tag, status) == status_tail_at(s, p, tag, status),
        ends_with_crlf(status_tail_at(s, p, tag, status), s, p),
{
    let (q, _v) = resp_text_after_keyword_at(s, p)->Ok_0;
    lemma_line_end_ext(s, t, q);
    lemma_resp_text_after_keyword_ext(s, t, p);
}

proof fn lemma_continue_req_ext(s: Seq<u8>, t: Seq<u8>, p: int)
    requires
        extends(t, s),
        0 <= p,
        continue_req_at(s, p) is Ok,
    ensures
        continue_req_at(t, p) == continue_req_at(s, p),
        ends_with_crlf(continue_req_at(s, p), s, p),
{
    lemma_byte_ext(s, t, p, PLUS);
    lemma_byte_ext(s, t, p + 1, SP);
    let (q2, _v) = resp_text_at(s, p + 2)->Ok_0;
    lemma_line_end_ext(s, t, q2);
    lemma_resp_text_ext(s, t, p + 2);
}

proof fn lemma_untagged_ext(s: Seq<u8>, t: Seq<u8>, p: int)
    requires
        extends(t, s),
        0 <= p,
        untagged_at(s, p) is Ok,
    ensures
        untagged_at(t, p) == untagged_at(s, p),
        ends_with_crlf(untagged_at(s, p), s, p),
{
    lemma_byte_ext(s, t, p, STAR);
    lemma_byte_ext(s, t, p + 1, SP);
    let q1 = p + 2;
    match status_keyword_at(s, q1) {
        Some((q2, status)) => {
            lemma_status_tail_ext(s, t, q2, None, status);
            lemma_status_keyword_some_ext(s, t, q1);
        },
        None => {
            let c = s[q1];
            if crate::grammar::is_digit(c) {
                lemma_numeric_data_ext(s, t, q1);
                let n = numeric_data_at(s, q1)->Ok_0.0;
                lemma_status_keyword_none_ext(s, t, q1, n - 2);
            } else {
                lemma_named_data_ext(s, t, q1);
                let n = named_data_at(s, q1)->Ok_0.0;
                lemma_status_keyword_none_ext(s, t, q1, n - 2);
            }
        },
    }
}

proof fn lemma_tagged_ext(s: Seq<u8>, t: Seq<u8>, p: int)
    requires
        extends(t, s),
        0 <= p,
        tagged_at(s, p) is Ok,
    ensures
        tagged_at(t, p) == tagged_at(s, p),
        ends_with_crlf(tagged_at(s, p), s, p),
{
    crate::grammar_lemmas::lemma_tag_adv(s, p);
    let (q, tag) = tag_at(s, p)->Ok_0;
    lemma_byte_ext(s, t, q, SP);
    let (q2, status) = status_keyword_at(s, q + 1)->Some_0;
    lemma_status_tail_ext(s, t, q2, Some(tag), status);
    lemma_status_keyword_some_ext(s, t, q + 1);
    lemma_tag_ext(s, t, p);
}

proof fn lemma_response_ext(s: Seq<u8>, t: Seq<u8>)
    requires
        extends(t, s),
        response_at(s, 0) is Ok,
    ensures
        response_at(t, 0) == response_at(s, 0),
{
    let c = s[0];
    if c == PLUS {
        lemma_continue_req_ext(s, t, 0);
    } else if c == STAR {
        lemma_untagged_ext(s, t, 0);
    } else {
        lemma_tagged_ext(s, t, 0);
    }
}

/// A response parsed from the bytes received so far is parsed the same
/// way, and to the same length, however many more bytes arrive after it:
/// once a frame is recognised it is never revised.
pub proof fn lemma_parse_response_extends(s: Seq<u8>, more: Seq<u8>)
    requires
        parse_response_spec(s) is Ok,
    ensures
        parse_response_spec(s + more) == parse_response_spec(s),
{
    reveal(parse_response_spec);
    let t = s + more;
    assert(extends(t, s));
    lemma_response_ext(s, t);
}

/// A response takes at least its closing CRLF and no more than the input: what it
/// consumes is a prefix of the input that ends in CR LF.
pub proof fn lemma_response_length(s: Seq<u8>)
    requires
        parse_response_spec(s) is Ok,
    ensures
        parse_response_spec(s) matches Ok((n, _)) && 2 <= n <= s.len() && s[n - 2] == CR && s[n - 1] == LF,
{
    reveal(parse_response_spec);
    assert(extends(s, s));
    let c = s[0];
    if c == PLUS {
        lemma_continue_req_ext(s, s, 0);
    } else if c == STAR {
        lemma_untagged_ext(s, s, 0);
    } else {
        lemma_tagged_ext(s, s, 0);
    }
}

// ---------------------------------------------------------------------------
// Prefixes of a response
// ---------------------------------------------------------------------------

/// An error that more input cannot mend.
pub open spec fn definite<T>(r: PRes<T>) -> bool {
    r matches Err(e) && e != ParseError::Incomplete
}

/// An error that more input cannot mend, of an element that yields a
/// position only.
pub open spec fn definite_pos(r: Result<int, ParseError>) -> bool {
    r matches Err(e) && e != ParseError::Incomplete
}

proof fn lemma_scan_pre(s: Seq<u8>, u: Seq<u8>, p: int, k: Stop)
    requires
        extends(s, u),
        0 <= p,
    ensures
        scan(s, p, k) < u.len() ==> scan(u, p, k) == scan(s, p, k),
        scan(s, p, k) >= u.len() ==> scan(u, p, k) >= u.len(),
    decreases s.len() - p,
{
    crate::grammar_lemmas::lemma_scan_any(s, p, k);
    crate::grammar_lemmas::lemma_scan_any(u, p, k);
    if p < u.len() && !stops(k, s[p]) {
        lemma_scan_pre(s, u, p + 1, k);
    }
}

proof fn lemma_line_end_pre(s: Seq<u8>, u: Seq<u8>, p: int)
    requires
        extends(s, u),
        0 <= p,
        line_end_at(s, p) is Ok,
    ensures
        !definite_pos(line_end_at(u, p)),
{
    lemma_scan_pre(s, u, p, Stop::LineEnd);
}

proof fn lemma_number_pre(s: Seq<u8>, u: Seq<u8>, p: int)
    requires
        extends(s, u),
        0 <= p,
        number_at(s, p) is Ok,
    ensures
        !definite(number_at(u, p)),
{
    lemma_scan_pre(s, u, p, Stop::NonDigit);
    let e = scan(s, p, Stop::NonDigit);
    if e < u.len() {
        lemma_digits_value_ext(u, s, p, e);
    }
}

proof fn lemma_run_pre(s: Seq<u8>, u: Seq<u8>, p: int, k: Stop, empty: ParseError)
    requires
        extends(s, u),
        0 <= p,
        run_text(s, p, scan(s, p, k), empty) is Ok,
    ensures
        !definite(run_text(u, p, scan(u, p, k), empty)),
{
    lemma_scan_pre(s, u, p, k);
    let e = scan(s, p, k);
    crate::grammar_lemmas::lemma_scan_any(s, p, k);
    if e < u.len() {
        lemma_subrange_ext(u, s, p, e);
    }
}

proof fn lemma_atom_pre(s: Seq<u8>, u: Seq<u8>, p: int)
    requires
        extends(s, u),
        0 <= p,
        atom_at(s, p) is Ok,
    ensures
        !definite(atom_at(u, p)),
{
    lemma_run_pre(s, u, p, Stop::NonAtom, ParseError::Malformed("expected atom"));
}

proof fn lemma_tag_pre(s: Seq<u8>, u: Seq<u8>, p: int)
    requires
        extends(s, u),
        0 <= p,
        tag_at(s, p) is Ok,
    ensures
        !definite(tag_at(u, p)),
{
    lemma_run_pre(s, u, p, Stop::TagEnd, ParseError::Malformed("expected tag"));
}

proof fn lemma_text_pre(s: Seq<u8>, u: Seq<u8>, p: int)
    requires
        extends(s, u),
        0 <= p,
        text_at(s, p) is Ok,
    ensures
        !definite(text_at(u, p)),
{
    lemma_scan_pre(s, u, p, Stop::LineEnd);
    let e = scan(s, p, Stop::LineEnd);
    crate::grammar_lemmas::lemma_scan_any(s, p, Stop::LineEnd);
    if e < u.len() {
        lemma_subrange_ext(u, s, p, e);
    }
}

proof fn lemma_flag_or_atom_pre(s: Seq<u8>, u: Seq<u8>, p: int)
    requires
        extends(s, u),
        0 <= p,
        flag_or_atom_at(s, p) is Ok,
    ensures
        !definite(flag_or_atom_at(u, p)),
{
    if p < u.len() {
        let c = s[p];
        if c == BACKSLASH && at(s, p + 1, STAR) && p + 1 < u.len() {
            lemma_subrange_ext(u, s, p, p + 2);
        } else {
            let q = if c == BACKSLASH {
                p + 1
            } else {
                p
            };
            lemma_scan_pre(s, u, q, Stop::NonAtom);
            lemma_scan_pre(s, u, p + 1, Stop::NonAtom);
            let e = scan(s, q, Stop::NonAtom);
            crate::grammar_lemmas::lemma_scan_any(s, q, Stop::NonAtom);
            if e < u.len() {
                lemma_subrange_ext(u, s, p, e);
            }
        }
    }
}

proof fn lemma_until_end_pre(s: Seq<u8>, u: Seq<u8>, i: int, term: u8)
    requires
        extends(s, u),
        0 <= i,
        until_end(s, i, term) is Ok,
    ensures
        until_end(u, i, term) is Ok,
        until_end(s, i, term)->Ok_0 < u.len() ==> until_end(u, i, term) == until_end(s, i, term),
        until_end(s, i, term)->Ok_0 >= u.len() ==> until_end(u, i, term)->Ok_0 >= u.len(),
    decreases s.len() - i,
{
    crate::grammar_lemmas::lemma_until_end(s, i, term);
    if i < u.len() && s[i] != term && !(s[i] == CR || s[i] == LF) {
        lemma_until_end_pre(s, u, i + 1, term);
    }
}

proof fn lemma_until_byte_pre(s: Seq<u8>, u: Seq<u8>, p: int, term: u8)
    requires
        extends(s, u),
        0 <= p,
        until_byte_at(s, p, term) is Ok,
    ensures
        !definite(until_byte_at(u, p, term)),
{
    lemma_until_end_pre(s, u, p, term);
    let e = until_end(s, p, term)->Ok_0;
    crate::grammar_lemmas::lemma_until_end(s, p, term);
    if e < u.len() {
        lemma_subrange_ext(u, s, p, e);
    }
}

proof fn lemma_quoted_close_pre(s: Seq<u8>, u: Seq<u8>, i: int)
    requires
        extends(s, u),
        quoted_close(s, i) is Ok,
    ensures
        !definite_pos(quoted_close(u, i)),
        quoted_close(u, i) is Ok ==> quoted_close(u, i) == quoted_close(s, i),
    decreases s.len() - i,
{
    if 0 <= i < u.len() && s[i] != DQUOTE {
        if s[i] == BACKSLASH {
            if i + 1 < u.len() {
                lemma_quoted_close_pre(s, u, i + 2);
            }
        } else {
            lemma_quoted_close_pre(s, u, i + 1);
        }
    }
}

proof fn lemma_quoted_pre(s: Seq<u8>, u: Seq<u8>, p: int)
    requires
        extends(s, u),
        quoted_at(s, p) is Ok,
    ensures
        !definite(quoted_at(u, p)),
{
    lemma_quoted_close_pre(s, u, p + 1);
    lemma_quoted_close_ext(s, s, p + 1);
    if quoted_close(u, p + 1) is Ok {
        let c = quoted_close(s, p + 1)->Ok_0;
        lemma_quoted_close_ext(u, u, p + 1);
        lemma_subrange_ext(u, s, p + 1, c);
    }
}

proof fn lemma_quoted_bytes_pre(s: Seq<u8>, u: Seq<u8>, p: int)
    requires
        extends(s, u),
        quoted_bytes_at(s, p) is Ok,
    ensures
        !definite(quoted_bytes_at(u, p)),
{
    lemma_quoted_close_pre(s, u, p + 1);
    if quoted_close(u, p + 1) is Ok {
        let c = quoted_close(s, p + 1)->Ok_0;
        lemma_quoted_close_ext(u, u, p + 1);
        lemma_subrange_ext(u, s, p + 1, c);
    }
}

proof fn lemma_literal_pre(s: Seq<u8>, u: Seq<u8>, p: int)
    requires
        extends(s, u),
        literal_at(s, p) is Ok,
    ensures
        !definite(literal_at(u, p)),
{
    let (e, n) = number_at(s, p + 1)->Ok_0;
    lemma_number_pre(s, u, p + 1);
    if number_at(u, p + 1) is Ok {
        lemma_number_ext(u, s, p + 1);
        if e + 3 + n <= u.len() {
            lemma_subrange_ext(u, s, e + 3, e + 3 + n);
        }
    }
}

proof fn lemma_literal_text_pre(s: Seq<u8>, u: Seq<u8>, p: int)
    requires
        extends(s, u),
        literal_text_at(s, p) is Ok,
    ensures
        !definite(literal_text_at(u, p)),
{
    lemma_literal_pre(s, u, p);
    if literal_at(u, p) is Ok {
        lemma_literal_ext(u, s, p);
    }
}

/// `u` holds, from `p` to its end, a proper prefix of the keyword that
/// stands at `p` in `s`.
proof fn lemma_keyword_prefix_pre(s: Seq<u8>, u: Seq<u8>, p: int, k: Seq<u8>)
    requires
        extends(s, u),
        0 <= p <= u.len(),
        keyword_at(s, p, k),
        u.len() < p + k.len(),
    ensures
        proper_ci_prefix(u.subrange(p, u.len() as int), k),
        forall|i: int| p <= i < u.len() ==> lower(#[trigger] u[i]) == lower(k[i - p]),
{
    let b = u.subrange(p, u.len() as int);
    assert forall|i: int| p <= i < u.len() implies lower(#[trigger] u[i]) == lower(k[i - p]) by {
        assert(s.subrange(p, p + k.len())[i - p] == s[i]);
    };
    assert forall|i: int| 0 <= i < b.len() implies lower(#[trigger] k.subrange(0, b.len() as int)[i]) == lower(b[i]) by {
        assert(b[i] == u[p + i]);
    };
}

proof fn lemma_nil_pre(s: Seq<u8>, u: Seq<u8>, p: int)
    requires
        extends(s, u),
        0 <= p < u.len(),
        keyword_at(s, p, kw("NIL")),
        p + kw("NIL").len() < s.len(),
    ensures
        keyword_at(u, p, kw("NIL")) || proper_ci_prefix(u.subrange(p, u.len() as int), kw("NIL")),
        keyword_at(u, p, kw("NIL")) ==> p + kw("NIL").len() <= u.len(),
{
    let k = kw("NIL");
    if p + k.len() <= u.len() {
        lemma_subrange_ext(u, s, p, p + k.len());
    } else {
        lemma_keyword_prefix_pre(s, u, p, k);
    }
}

proof fn lemma_astring_pre(s: Seq<u8>, u: Seq<u8>, p: int)
    requires
        extends(s, u),
        0 <= p,
        astring_at(s, p) is Ok,
    ensures
        !definite(astring_at(u, p)),
{
    if p < u.len() {
        let c = s[p];
        if c == DQUOTE {
            lemma_quoted_pre(s, u, p);
        } else if c == LBRACE {
            lemma_literal_text_pre(s, u, p);
        } else {
            lemma_atom_pre(s, u, p);
        }
    }
}

proof fn lemma_nstring_pre(s: Seq<u8>, u: Seq<u8>, p: int)
    requires
        extends(s, u),
        0 <= p,
        nstring_at(s, p) matches Ok((q, _)) && q < s.len(),
    ensures
        !definite(nstring_at(u, p)),
{
    if p < u.len() {
        let c = s[p];
        if c == DQUOTE {
            lemma_quoted_pre(s, u, p);
        } else if c == LBRACE {
            lemma_literal_text_pre(s, u, p);
        } else {
            lemma_nil_pre(s, u, p);
        }
    }
}

proof fn lemma_nstring_bytes_pre(s: Seq<u8>, u: Seq<u8>, p: int)
    requires
        extends(s, u),
        0 <= p,
        nstring_bytes_at(s, p) matches Ok((q, _)) && q < s.len(),
    ensures
        !definite(nstring_bytes_at(u, p)),
{
    if p < u.len() {
        let c = s[p];
        if c == DQUOTE {
            lemma_quoted_bytes_pre(s, u, p);
        } else if c == LBRACE {
            lemma_literal_pre(s, u, p);
        } else {
            lemma_nil_pre(s, u, p);
        }
    }
}

proof fn lemma_nstring_bytes_opt_pre(s: Seq<u8>, u: Seq<u8>, p: int)
    requires
        extends(s, u),
        0 <= p,
        nstring_bytes_opt_at(s, p) matches Ok((q, _)) && q < s.len(),
    ensures
        !definite(nstring_bytes_opt_at(u, p)),
{
    if p < u.len() {
        let c = s[p];
        if c == DQUOTE {
            lemma_quoted_bytes_pre(s, u, p);
        } else if c == LBRACE {
            lemma_literal_pre(s, u, p);
        } else {
            lemma_nil_pre(s, u, p);
        }
    }
}

proof fn lemma_atom_list_loop_pre(s: Seq<u8>, u: Seq<u8>, p: int, acc: Seq<Seq<char>>)
    requires
        extends(s, u),
        0 <= p,
        atom_list_loop(s, p, acc) matches Ok((q, _)) && q < s.len(),
    ensures
        !definite(atom_list_loop(u, p, acc)),
    decreases s.len() - p,
{
    crate::grammar_lemmas::lemma_flag_or_atom_adv(s, p);
    lemma_flag_or_atom_pre(s, u, p);
    let (q1, item) = flag_or_atom_at(s, p)->Ok_0;
    if flag_or_atom_at(u, p) matches Ok((q1u, _)) && q1u < u.len() {
        lemma_flag_or_atom_ext(u, s, p);
        if s[q1] == SP {
            lemma_atom_list_loop_pre(s, u, q1 + 1, acc.push(item));
        }
    }
}

proof fn lemma_atom_list_pre(s: Seq<u8>, u: Seq<u8>, p: int)
    requires
        extends(s, u),
        0 <= p,
        atom_list_at(s, p) matches Ok((q, _)) && q < s.len(),
    ensures
        !definite(atom_list_at(u, p)),
{
    if p + 1 < u.len() && !at(s, p + 1, RPAREN) {
        lemma_atom_list_loop_pre(s, u, p + 1, Seq::empty());
    }
}

proof fn lemma_balanced_loop_pre(s: Seq<u8>, u: Seq<u8>, i: int, depth: u32)
    requires
        extends(s, u),
        0 <= i <= s.len(),
        balanced_loop(s, i, depth) is Ok,
    ensures
        !definite_pos(balanced_loop(u, i, depth)),
    decreases s.len() - i,
{
    if depth != 0 && i < u.len() {
        let c = s[i];
        if c == LPAREN {
            lemma_balanced_loop_pre(s, u, i + 1, (depth + 1) as u32);
        } else if c == RPAREN {
            lemma_balanced_loop_pre(s, u, i + 1, (depth - 1) as u32);
        } else if c == DQUOTE {
            lemma_quoted_pre(s, u, i);
            lemma_quoted_ext(s, s, i);
            if quoted_at(u, i) is Ok {
                lemma_quoted_ext(u, s, i);
                let q = quoted_at(s, i)->Ok_0.0;
                lemma_balanced_loop_pre(s, u, q, depth);
            }
        } else if c == LBRACE {
            lemma_literal_pre(s, u, i);
            lemma_literal_ext(s, s, i);
            if literal_at(u, i) is Ok {
                lemma_literal_ext(u, s, i);
                let q = literal_at(s, i)->Ok_0.0;
                lemma_balanced_loop_pre(s, u, q, depth);
            }
        } else {
            lemma_balanced_loop_pre(s, u, i + 1, depth);
        }
    }
}

proof fn lemma_balanced_pre(s: Seq<u8>, u: Seq<u8>, p: int)
    requires
        extends(s, u),
        balanced_at(s, p) is Ok,
    ensures
        !definite(balanced_at(u, p)),
{
    if 0 <= p < u.len() {
        lemma_balanced_loop_pre(s, u, p + 1, 1);
    }
}

proof fn lemma_atom_seq_pre(s: Seq<u8>, u: Seq<u8>, p: int, acc: Seq<Seq<char>>)
    requires
        extends(s, u),
        0 <= p,
        atom_seq(s, p, acc) matches Ok((q, _)) && q < s.len(),
    ensures
        !definite(atom_seq(u, p, acc)),
    decreases s.len() - p,
{
    if p < u.len() && at(s, p, SP) {
        crate::grammar_lemmas::lemma_atom_adv(s, p + 1);
        lemma_atom_pre(s, u, p + 1);
        let (q1, a) = atom_at(s, p + 1)->Ok_0;
        if atom_at(u, p + 1) is Ok {
            lemma_atom_ext(u, s, p + 1);
            lemma_atom_seq_pre(s, u, q1, acc.push(a));
        }
    }
}

proof fn lemma_number_seq_pre(s: Seq<u8>, u: Seq<u8>, p: int, acc: Seq<u32>)
    requires
        extends(s, u),
        0 <= p,
        number_seq(s, p, acc) matches Ok((q, _)) && q < s.len(),
    ensures
        !definite(number_seq(u, p, acc)),
    decreases s.len() - p,
{
    if p < u.len() && at(s, p, SP) {
        crate::grammar_lemmas::lemma_number_adv(s, p + 1);
        lemma_number_pre(s, u, p + 1);
        let (q1, n) = number_at(s, p + 1)->Ok_0;
        if number_at(u, p + 1) is Ok {
            lemma_number_ext(u, s, p + 1);
            lemma_number_seq_pre(s, u, q1, acc.push(n));
        }
    }
}

proof fn lemma_origin_pre(s: Seq<u8>, u: Seq<u8>, p: int)
    requires
        extends(s, u),
        0 <= p,
        origin_at(s, p) matches Ok((q, _)) && q < s.len(),
    ensures
        !definite(origin_at(u, p)),
{
    if p < u.len() && at(s, p, LANGLE) {
        lemma_number_pre(s, u, p + 1);
        if number_at(u, p + 1) is Ok {
            lemma_number_ext(u, s, p + 1);
        }
    }
}

proof fn lemma_fetch_att_name_end_pre(s: Seq<u8>, u: Seq<u8>, p: int)
    requires
        extends(s, u),
        0 <= p,
        fetch_att_name_end(s, p) is Ok,
    ensures
        !definite_pos(fetch_att_name_end(u, p)),
        fetch_att_name_end(u, p) is Ok ==> fetch_att_name_end(u, p) == fetch_att_name_end(s, p),
{
    lemma_scan_pre(s, u, p, Stop::AttNameEnd);
    crate::grammar_lemmas::lemma_scan_any(s, p, Stop::AttNameEnd);
    let e = scan(s, p, Stop::AttNameEnd);
    if e < u.len() {
        lemma_subrange_ext(u, s, p, e);
    }
}

proof fn lemma_status_items_loop_pre(s: Seq<u8>, u: Seq<u8>, p: int, acc: Seq<StatusItem>)
    requires
        extends(s, u),
        0 <= p,
        status_items_loop(s, p, acc) matches Ok((q, _)) && q < s.len(),
    ensures
        !definite(status_items_loop(u, p, acc)),
    decreases s.len() - p,
{
    crate::grammar_lemmas::lemma_atom_adv(s, p);
    lemma_atom_pre(s, u, p);
    let (q1, _a) = atom_at(s, p)->Ok_0;
    crate::grammar_lemmas::lemma_number_adv(s, q1 + 1);
    let (q3, v) = number_at(s, q1 + 1)->Ok_0;
    let item = status_item(s.subrange(p, q1), v);
    if atom_at(u, p) is Ok {
        lemma_atom_ext(u, s, p);
        lemma_subrange_ext(u, s, p, q1);
        if q1 < u.len() {
            lemma_number_pre(s, u, q1 + 1);
            if number_at(u, q1 + 1) is Ok {
                lemma_number_ext(u, s, q1 + 1);
                if s[q3] == SP {
                    lemma_status_items_loop_pre(s, u, q3 + 1, acc.push(item));
                }
            }
        }
    }
}

proof fn lemma_status_items_pre(s: Seq<u8>, u: Seq<u8>, p: int)
    requires
        extends(s, u),
        0 <= p,
        status_items_at(s, p) matches Ok((q, _)) && q < s.len(),
    ensures
        !definite(status_items_at(u, p)),
{
    if p + 1 < u.len() && !at(s, p + 1, RPAREN) {
        lemma_status_items_loop_pre(s, u, p + 1, Seq::empty());
    }
}

proof fn lemma_resp_text_code_pre(s: Seq<u8>, u: Seq<u8>, p: int)
    requires
        extends(s, u),
        0 <= p,
        resp_text_code_at(s, p) matches Ok((q, _)) && q < s.len(),
    ensures
        !definite(resp_text_code_at(u, p)),
{
    crate::grammar_lemmas::lemma_scan_any(s, p, Stop::CodeEnd);
    lemma_scan_pre(s, u, p, Stop::CodeEnd);
    let e = scan(s, p, Stop::CodeEnd);
    if e < u.len() {
        lemma_subrange_ext(u, s, p, e);
        let name = s.subrange(p, e);
        if ci_eq(name, kw("ALERT")) || ci_eq(name, kw("PARSE")) || ci_eq(name, kw("READ-ONLY")) || ci_eq(
            name,
            kw("READ-WRITE"),
        ) || ci_eq(name, kw("TRYCREATE")) {
        } else if ci_eq(name, kw("UIDNEXT")) || ci_eq(name, kw("UIDVALIDITY")) || ci_eq(name, kw("UNSEEN")) {
            lemma_number_pre(s, u, e + 1);
        } else if ci_eq(name, kw("CAPABILITY")) {
            lemma_atom_seq_pre(s, u, e, Seq::empty());
        } else if ci_eq(name, kw("PERMANENTFLAGS")) {
            lemma_atom_list_pre(s, u, e + 1);
        } else if ci_eq(name, kw("BADCHARSET")) {
            if at(s, e, SP) {
                lemma_atom_list_pre(s, u, e + 1);
            }
        } else if at(s, e, SP) {
            crate::grammar_lemmas::lemma_scan_any(s, e + 1, Stop::CloseBracket);
            lemma_scan_pre(s, u, e + 1, Stop::CloseBracket);
            let f = scan(s, e + 1, Stop::CloseBracket);
            if f < u.len() {
                lemma_subrange_ext(u, s, e + 1, f);
            }
        }
    }
}

proof fn lemma_resp_text_pre(s: Seq<u8>, u: Seq<u8>, p: int)
    requires
        extends(s, u),
        0 <= p,
        resp_text_at(s, p) matches Ok((q, _)) && q < s.len(),
    ensures
        !definite(resp_text_at(u, p)),
{
    if p >= u.len() {
        crate::grammar_lemmas::lemma_scan_any(u, p, Stop::LineEnd);
    } else if at(s, p, LBRACKET) {
        lemma_resp_text_code_pre(s, u, p + 1);
        if resp_text_code_at(u, p + 1) matches Ok((q1u, _)) && q1u < u.len() {
            lemma_resp_text_code_ext(u, s, p + 1);
            let q2 = resp_text_code_at(s, p + 1)->Ok_0.0 + 1;
            if q2 < u.len() {
                lemma_text_pre(s, u, skip_opt(s, q2, SP));
            } else {
                crate::grammar_lemmas::lemma_scan_any(u, q2, Stop::LineEnd);
            }
        }
    } else {
        lemma_text_pre(s, u, p);
    }
}

proof fn lemma_resp_text_after_keyword_pre(s: Seq<u8>, u: Seq<u8>, p: int)
    requires
        extends(s, u),
        0 <= p,
        resp_text_after_keyword_at(s, p) matches Ok((q, _)) && q < s.len(),
    ensures
        !definite(resp_text_after_keyword_at(u, p)),
{
    if p < u.len() && at(s, p, SP) {
        lemma_resp_text_pre(s, u, p + 1);
    }
}

proof fn lemma_list_body_pre(s: Seq<u8>, u: Seq<u8>, p: int)
    requires
        extends(s, u),
        0 <= p,
        list_body_at(s, p) matches Ok((q, _)) && q < s.len(),
    ensures
        !definite(list_body_at(u, p)),
{
    lemma_list_body_ext(s, s, p);
    crate::grammar_lemmas::lemma_atom_list_adv(s, p);
    lemma_atom_list_pre(s, u, p);
    let (q, _flags) = atom_list_at(s, p)->Ok_0;
    let (q2, _d) = nstring_at(s, q + 1)->Ok_0;
    lemma_astring_ext(s, s, q2 + 1);
    lemma_nstring_ext(s, s, q + 1);
    if atom_list_at(u, p) matches Ok((qu, _)) && qu < u.len() {
        lemma_atom_list_ext(u, s, p);
        lemma_nstring_pre(s, u, q + 1);
        if nstring_at(u, q + 1) matches Ok((q2u, _)) && q2u < u.len() {
            lemma_nstring_ext(u, s, q + 1);
            lemma_astring_pre(s, u, q2 + 1);
        }
    }
}

proof fn lemma_named_data_body_pre(s: Seq<u8>, u: Seq<u8>, q: int, name: Seq<u8>)
    requires
        extends(s, u),
        0 <= q,
        named_data_body_at(s, q, name) matches Ok((q1, _)) && q1 < s.len(),
    ensures
        !definite(named_data_body_at(u, q, name)),
{
    if ci_eq(name, kw("CAPABILITY")) {
        lemma_atom_seq_pre(s, u, q, Seq::empty());
    } else if ci_eq(name, kw("LIST")) || ci_eq(name, kw("LSUB")) {
        lemma_list_body_pre(s, u, q + 1);
    } else if ci_eq(name, kw("STATUS")) {
        lemma_named_data_body_ext(s, s, q, name);
        let (q2, _m) = astring_at(s, q + 1)->Ok_0;
        lemma_astring_ext(s, s, q + 1);
        lemma_astring_pre(s, u, q + 1);
        if astring_at(u, q + 1) matches Ok((q2u, _)) && q2u < u.len() {
            lemma_astring_ext(u, s, q + 1);
            lemma_status_items_pre(s, u, q2 + 1);
        }
    } else if ci_eq(name, kw("SEARCH")) {
        lemma_number_seq_pre(s, u, q, Seq::empty());
    } else {
        lemma_atom_list_pre(s, u, q + 1);
    }
}

proof fn lemma_body_section_pre(s: Seq<u8>, u: Seq<u8>, p: int)
    requires
        extends(s, u),
        0 <= p,
        body_section_at(s, p) matches Ok((q, _)) && q < s.len(),
    ensures
        !definite(body_section_at(u, p)),
{
    lemma_body_section_ext(s, s, p);
    crate::grammar_lemmas::lemma_until_end(s, p + 1, RBRACKET);
    lemma_until_byte_pre(s, u, p + 1, RBRACKET);
    let (q, _section) = until_byte_at(s, p + 1, RBRACKET)->Ok_0;
    crate::grammar_lemmas::lemma_number_adv(s, q + 2);
    let (q2, _origin) = origin_at(s, q + 1)->Ok_0;
    lemma_origin_ext(s, s, q + 1);
    lemma_nstring_bytes_opt_ext(s, s, q2 + 1);
    if until_byte_at(u, p + 1, RBRACKET) is Ok {
        lemma_until_byte_ext(u, s, p + 1, RBRACKET);
        if q + 1 < u.len() {
            lemma_origin_pre(s, u, q + 1);
            if origin_at(u, q + 1) matches Ok((q2u, _)) && q2u < u.len() {
                lemma_origin_ext(u, s, q + 1);
                lemma_nstring_bytes_opt_pre(s, u, q2 + 1);
            }
        }
    }
}

proof fn lemma_fetch_att_value_pre(s: Seq<u8>, u: Seq<u8>, p: int, q: int)
    requires
        extends(s, u),
        0 <= p <= q <= u.len(),
        fetch_att_value(s, p, q) matches Ok((q1, _)) && q1 < s.len(),
    ensures
        !definite(fetch_att_value(u, p, q)),
{
    let name = s.subrange(p, q);
    lemma_subrange_ext(u, s, p, q);
    if q < u.len() {
        if ci_eq(name, kw("UID")) {
            lemma_number_pre(s, u, q + 1);
        } else if ci_eq(name, kw("FLAGS")) {
            lemma_atom_list_pre(s, u, q + 1);
        } else if ci_eq(name, kw("INTERNALDATE")) {
            lemma_quoted_pre(s, u, q + 1);
        } else if ci_eq(name, kw("RFC822.SIZE")) {
            lemma_number_pre(s, u, q + 1);
        } else if ci_eq(name, kw("RFC822")) || ci_eq(name, kw("RFC822.HEADER")) || ci_eq(
            name,
            kw("RFC822.TEXT"),
        ) {
            lemma_nstring_bytes_pre(s, u, q + 1);
        } else if ci_eq(name, kw("ENVELOPE")) || ci_eq(name, kw("BODYSTRUCTURE")) {
            lemma_balanced_pre(s, u, q + 1);
        } else if ci_eq(name, kw("BODY")) {
            if at(s, q, LBRACKET) {
                lemma_body_section_pre(s, u, q);
            } else {
                lemma_balanced_pre(s, u, q + 1);
            }
        }
    }
}

#[verifier::spinoff_prover]
#[verifier::rlimit(40)]
proof fn lemma_fetch_att_pre(s: Seq<u8>, u: Seq<u8>, p: int)
    requires
        extends(s, u),
        0 <= p,
        fetch_att_at(s, p) matches Ok((q, _)) && q < s.len(),
    ensures
        !definite(fetch_att_at(u, p)),
{
    lemma_fetch_att_name_end_pre(s, u, p);
    let q = fetch_att_name_end(s, p)->Ok_0;
    if fetch_att_name_end(u, p) is Ok {
        crate::grammar_lemmas::lemma_scan_any(u, p, Stop::AttNameEnd);
        assert(fetch_att_at(s, p) == fetch_att_value(s, p, q));
        lemma_fetch_att_value_pre(s, u, p, q);
        assert(fetch_att_at(u, p) == fetch_att_value(u, p, q));
    }
}

proof fn lemma_fetch_att_loop_pre(s: Seq<u8>, u: Seq<u8>, p: int, acc: Seq<SpecFetchAttribute>)
    requires
        extends(s, u),
        0 <= p,
        fetch_att_loop(s, p, acc) matches Ok((q, _)) && q < s.len(),
    ensures
        !definite(fetch_att_loop(u, p, acc)),
    decreases s.len() - p,
{
    crate::grammar_lemmas::lemma_fetch_att_adv(s, p);
    let (q1, a) = fetch_att_at(s, p)->Ok_0;
    if s[q1] == SP {
        lemma_fetch_att_loop_ext(s, s, q1 + 1, acc.push(a));
    }
    lemma_fetch_att_ext(s, s, p);
    lemma_fetch_att_pre(s, u, p);
    if fetch_att_at(u, p) matches Ok((q1u, _)) && q1u < u.len() {
        lemma_fetch_att_ext(u, s, p);
        if s[q1] == SP {
            lemma_fetch_att_loop_pre(s, u, q1 + 1, acc.push(a));
        }
    }
}

proof fn lemma_fetch_msg_att_pre(s: Seq<u8>, u: Seq<u8>, p: int)
    requires
        extends(s, u),
        0 <= p,
        fetch_msg_att_at(s, p) matches Ok((q, _)) && q < s.len(),
    ensures
        !definite(fetch_msg_att_at(u, p)),
{
    if p + 1 < u.len() && !at(s, p + 1, RPAREN) {
        lemma_fetch_att_loop_pre(s, u, p + 1, Seq::empty());
    }
}

/// An ASCII letter.
pub open spec fn letter(c: u8) -> bool {
    65 <= c <= 90 || 97 <= c <= 122
}

proof fn lemma_scan_letters(u: Seq<u8>, i: int)
    requires
        0 <= i,
        forall|j: int| i <= j < u.len() ==> letter(#[trigger] u[j]),
    ensures
        scan(u, i, Stop::NonAtom) >= u.len(),
    decreases u.len() - i,
{
    if i < u.len() {
        assert(letter(u[i]));
        lemma_scan_letters(u, i + 1);
    }
}

/// Where a prefix of `s` stands against the status keyword found at `q1`
/// in `s`.
proof fn lemma_status_keyword_pre(s: Seq<u8>, u: Seq<u8>, q1: int)
    requires
        extends(s, u),
        0 <= q1 <= u.len(),
    ensures
        status_keyword_at(u, q1) matches Some((q2u, _)) && q2u < u.len() ==> status_keyword_at(u, q1)
            == status_keyword_at(s, q1),
        status_keyword_at(u, q1) matches Some((q2u, _)) ==> q2u <= u.len(),
        status_keyword_at(s, q1) is Some && status_keyword_at(u, q1) is None ==> {
            &&& crate::grammar::keyword_prefix(u.subrange(q1, u.len() as int))
            &&& forall|j: int| q1 <= j < u.len() ==> letter(#[trigger] u[j])
        },
{
    lemma_status_keywords();
    if let Some((q2u, _)) = status_keyword_at(u, q1) {
        if q2u < u.len() {
            lemma_status_keyword_some_ext(u, s, q1);
        }
    }
    if status_keyword_at(s, q1) is Some && status_keyword_at(u, q1) is None {
        let k = if keyword_at(s, q1, kw("PREAUTH")) {
            kw("PREAUTH")
        } else if keyword_at(s, q1, kw("OK")) {
            kw("OK")
        } else if keyword_at(s, q1, kw("NO")) {
            kw("NO")
        } else if keyword_at(s, q1, kw("BAD")) {
            kw("BAD")
        } else {
            kw("BYE")
        };
        assert(keyword_at(s, q1, k));
        assert(capitals(k));
        if q1 + k.len() <= u.len() {
            lemma_subrange_ext(u, s, q1, q1 + k.len());
            assert(keyword_at(u, q1, k));
            assert(false);
        }
        lemma_keyword_prefix_pre(s, u, q1, k);
        assert forall|j: int| q1 <= j < u.len() implies letter(#[trigger] u[j]) by {
            assert(lower(u[j]) == lower(k[j - q1]));
            assert(65 <= k[j - q1] <= 90);
        };
    }
}

proof fn lemma_other_data_pre(s: Seq<u8>, u: Seq<u8>, i: int)
    requires
        extends(s, u),
        0 <= i,
        other_data_at(s, i) is Ok,
    ensures
        !definite(other_data_at(u, i)),
{
    lemma_scan_pre(s, u, i, Stop::Cr);
}

proof fn lemma_numeric_data_pre(s: Seq<u8>, u: Seq<u8>, p: int)
    requires
        extends(s, u),
        0 <= p,
        numeric_data_at(s, p) is Ok,
    ensures
        !definite(numeric_data_at(u, p)),
{
    lemma_numeric_data_ext(s, s, p);
    crate::grammar_lemmas::lemma_number_adv(s, p);
    lemma_number_pre(s, u, p);
    let (q, _n) = number_at(s, p)->Ok_0;
    lemma_number_ext(s, s, p);
    if number_at(u, p) is Ok {
        lemma_number_ext(u, s, p);
        crate::grammar_lemmas::lemma_atom_adv(s, q + 1);
        let (q2, _a) = atom_at(s, q + 1)->Ok_0;
        let k = s.subrange(q + 1, q2);
        if q + 1 <= u.len() {
            lemma_atom_pre(s, u, q + 1);
            if atom_at(u, q + 1) is Ok {
                lemma_atom_ext(u, s, q + 1);
                lemma_subrange_ext(u, s, q + 1, q2);
                if ci_eq(k, kw("EXISTS")) || ci_eq(k, kw("RECENT")) || ci_eq(k, kw("EXPUNGE")) {
                    lemma_line_end_pre(s, u, q2);
                } else if ci_eq(k, kw("FETCH")) {
                    let (q4, _atts) = fetch_msg_att_at(s, q2 + 1)->Ok_0;
                    lemma_line_end_ext(s, s, q4);
                    lemma_fetch_msg_att_pre(s, u, q2 + 1);
                    if let Ok((q4u, _)) = fetch_msg_att_at(u, q2 + 1) {
                        if q4u < u.len() {
                            lemma_fetch_msg_att_ext(u, s, q2 + 1);
                            lemma_line_end_pre(s, u, q4);
                        } else {
                            crate::grammar_lemmas::lemma_scan_any(u, q4u, Stop::LineEnd);
                        }
                    }
                } else {
                    lemma_other_data_pre(s, u, q2);
                }
            }
        }
    }
}

proof fn lemma_named_data_pre(s: Seq<u8>, u: Seq<u8>, p: int)
    requires
        extends(s, u),
        0 <= p,
        named_data_at(s, p) is Ok,
    ensures
        !definite(named_data_at(u, p)),
{
    lemma_named_data_ext(s, s, p);
    crate::grammar_lemmas::lemma_atom_adv(s, p);
    lemma_atom_pre(s, u, p);
    let (q, _a) = atom_at(s, p)->Ok_0;
    if atom_at(u, p) is Ok {
        lemma_atom_ext(u, s, p);
        lemma_subrange_ext(u, s, p, q);
        let name = s.subrange(p, q);
        if crate::grammar::is_known_data_name(name) {
            let (q1, _d) = named_data_body_at(s, q, name)->Ok_0;
            lemma_line_end_ext(s, s, q1);
            lemma_named_data_body_pre(s, u, q, name);
            if let Ok((q1u, _)) = named_data_body_at(u, q, name) {
                if q1u < u.len() {
                    lemma_named_data_body_ext(u, s, q, name);
                    lemma_line_end_pre(s, u, q1);
                } else {
                    crate::grammar_lemmas::lemma_scan_any(u, q1u, Stop::LineEnd);
                }
            }
        } else {
            lemma_scan_pre(s, u, q, Stop::Cr);
        }
    }
}

proof fn lemma_status_tail_pre(s: Seq<u8>, u: Seq<u8>, p: int, tag: Option<Seq<char>>, status: Status)
    requires
        extends(s, u),
        0 <= p,
        status_tail_at(s, p, tag, status) is Ok,
    ensures
        !definite(status_tail_at(u, p, tag, status)),
{
    let (q, _v) = resp_text_after_keyword_at(s, p)->Ok_0;
    lemma_line_end_ext(s, s, q);
    lemma_resp_text_after_keyword_pre(s, u, p);
    if let Ok((qu, _)) = resp_text_after_keyword_at(u, p) {
        if qu < u.len() {
            lemma_resp_text_after_keyword_ext(u, s, p);
            lemma_line_end_pre(s, u, q);
        } else {
            crate::grammar_lemmas::lemma_scan_any(u, qu, Stop::LineEnd);
        }
    }
}

proof fn lemma_status_tail_at_end(u: Seq<u8>, p: int, tag: Option<Seq<char>>, status: Status)
    requires
        p >= u.len(),
    ensures
        status_tail_at(u, p, tag, status) == Err::<(int, SpecResponse), ParseError>(ParseError::Incomplete),
{
    crate::grammar_lemmas::lemma_scan_any(u, p, Stop::LineEnd);
}

proof fn lemma_continue_req_pre(s: Seq<u8>, u: Seq<u8>, p: int)
    requires
        extends(s, u),
        0 <= p,
        continue_req_at(s, p) is Ok,
    ensures
        !definite(continue_req_at(u, p)),
{
    let (q2, _v) = resp_text_at(s, p + 2)->Ok_0;
    lemma_line_end_ext(s, s, q2);
    if p + 1 < u.len() {
        lemma_resp_text_pre(s, u, p + 2);
        if let Ok((q2u, _)) = resp_text_at(u, p + 2) {
            if q2u < u.len() {
                lemma_resp_text_ext(u, s, p + 2);
                lemma_line_end_pre(s, u, q2);
            } else {
                crate::grammar_lemmas::lemma_scan_any(u, q2u, Stop::LineEnd);
            }
        }
    }
}

proof fn lemma_untagged_pre(s: Seq<u8>, u: Seq<u8>, p: int)
    requires
        extends(s, u),
        0 <= p,
        untagged_at(s, p) is Ok,
    ensures
        !definite(untagged_at(u, p)),
{
    let q1 = p + 2;
    if q1 <= u.len() {
        lemma_status_keyword_pre(s, u, q1);
        match status_keyword_at(u, q1) {
            Some((q2u, stu)) => {
                if q2u < u.len() {
                    let (q2, st) = status_keyword_at(s, q1)->Some_0;
                    lemma_status_tail_pre(s, u, q2, None, st);
                } else {
                    lemma_status_tail_at_end(u, q2u, None, stu);
                }
            },
            None => {
                match status_keyword_at(s, q1) {
                    Some(_) => {
                        if q1 < u.len() {
                            lemma_scan_letters(u, q1);
                            assert(letter(u[q1]));
                        }
                    },
                    None => {
                        if q1 < u.len() {
                            if crate::grammar::is_digit(s[q1]) {
                                lemma_numeric_data_pre(s, u, q1);
                            } else {
                                lemma_named_data_pre(s, u, q1);
                            }
                        }
                    },
                }
            },
        }
    }
}

proof fn lemma_tagged_pre(s: Seq<u8>, u: Seq<u8>, p: int)
    requires
        extends(s, u),
        0 <= p,
        tagged_at(s, p) is Ok,
    ensures
        !definite(tagged_at(u, p)),
{
    lemma_tagged_ext(s, s, p);
    crate::grammar_lemmas::lemma_tag_adv(s, p);
    lemma_tag_pre(s, u, p);
    let (q, tag) = tag_at(s, p)->Ok_0;
    if tag_at(u, p) is Ok {
        lemma_tag_ext(u, s, p);
        let q1 = q + 1;
        if q1 <= u.len() {
            lemma_status_keyword_pre(s, u, q1);
            let (q2, st) = status_keyword_at(s, q1)->Some_0;
            match status_keyword_at(u, q1) {
                Some((q2u, stu)) => {
                    if q2u < u.len() {
                        lemma_status_tail_pre(s, u, q2, Some(tag), st);
                    } else {
                        lemma_status_tail_at_end(u, q2u, Some(tag), stu);
                    }
                },
                None => {},
            }
        }
    }
}

proof fn lemma_response_pre(s: Seq<u8>, u: Seq<u8>)
    requires
        extends(s, u),
        response_at(s, 0) is Ok,
    ensures
        !definite(response_at(u, 0)),
{
    if u.len() > 0 {
        let c = s[0];
        if c == PLUS {
            lemma_continue_req_pre(s, u, 0);
        } else if c == STAR {
            lemma_untagged_pre(s, u, 0);
        } else {
            lemma_tagged_pre(s, u, 0);
        }
    }
}

/// A buffer that holds only part of a response is reported `Incomplete`:
/// every strict prefix of the bytes a response takes parses to
/// `Err(Incomplete)`, never to another error and never to a response.
pub proof fn lemma_prefix_incomplete(s: Seq<u8>, j: int)
    requires
        parse_response_spec(s) matches Ok((n, _)) && 0 <= j < n,
    ensures
        parse_response_spec(s.subrange(0, j)) == Err::<(int, SpecResponse), ParseError>(ParseError::Incomplete),
{
    let u = s.subrange(0, j);
    lemma_response_length(s);
    assert(extends(s, u));
    reveal(parse_response_spec);
    lemma_response_pre(s, u);
    if response_at(u, 0) is Ok {
        lemma_response_length(u);
        lemma_parse_response_extends(u, s.subrange(j, s.len() as int));
        assert(u + s.subrange(j, s.len() as int) =~= s);
    }
}

/// However the bytes of a stream that starts with a response are split
/// into reads, the buffered prefix never parses to a definite error; while
/// it holds less than the first response it is `Incomplete`; and once it
/// parses, it parses to exactly the stream's first response, taking the
/// same bytes, so the frame split off is that response and the rest stays
/// buffered.
pub proof fn lemma_first_frame_any_split(s: Seq<u8>, j: int)
    requires
        parse_response_spec(s) is Ok,
        0 <= j <= s.len(),
    ensures
        !definite(parse_response_spec(s.subrange(0, j))),
        parse_response_spec(s) matches Ok((n, _)) && j < n ==> parse_response_spec(s.subrange(0, j))
            == Err::<(int, SpecResponse), ParseError>(ParseError::Incomplete),
        parse_response_spec(s.subrange(0, j)) matches Ok((m, r)) ==> parse_response_spec(s) == Ok::<
            (int, SpecResponse),
            ParseError,
        >((m, r)) && 2 <= m <= j && s[m - 2] == CR && s[m - 1] == LF,
{
    let u = s.subrange(0, j);
    lemma_response_length(s);
    assert(extends(s, u));
    reveal(parse_response_spec);
    lemma_response_pre(s, u);
    if let Ok((n, _)) = response_at(s, 0) {
        if j < n {
            lemma_prefix_incomplete(s, j);
        }
    }
    if response_at(u, 0) is Ok {
        lemma_response_length(u);
        lemma_parse_response_extends(u, s.subrange(j, s.len() as int));
        assert(u + s.subrange(j, s.len() as int) =~= s);
    }
}

} // verus!
