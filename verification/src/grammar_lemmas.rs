//! Bounds of the grammar elements — every element that succeeds at `p`
//! ends at a position between `p` and the end of the input — and the cap
//! on literal sizes.

use vstd::prelude::*;

use crate::grammar::{
    atom_at, atom_list_at, atom_list_loop, balanced_at, balanced_loop, fetch_att_at, fetch_att_name_end, flag_or_atom_at, literal_at, literal_text_at,
    nstring_bytes_at, nstring_bytes_opt_at, number_at, origin_at, quoted_at, quoted_bytes_at,
    quoted_close, scan, stops, tag_at, until_byte_at, until_end, PRes, Stop, BACKSLASH, CR, DQUOTE, LF,
    byte_at, crlf_at, LBRACE, RBRACE, MAX_LITERAL_SIZE,
};
use crate::error::ParseError;
use crate::ast::SpecResponseCode;
use crate::grammar::{atom_seq, ci_eq, kw, lower, resp_text_code_at, utf8, RBRACKET, SP};
use vstd::utf8::{
    decode_utf8_encode_utf8, encode_scalar, encode_utf8, encode_utf8_valid_utf8, is_ascii_chars, is_ascii_chars_encode_utf8,
    leading_byte_width_1, valid_utf8,
};

verus! {

/// `r` succeeded, if at all, at a position in `[p, n]`.
pub open spec fn adv<T>(r: PRes<T>, p: int, n: int) -> bool {
    r matches Ok((q, _)) ==> p <= q <= n
}

pub proof fn lemma_scan(s: Seq<u8>, p: int, k: Stop)
    requires
        0 <= p <= s.len(),
    ensures
        p <= scan(s, p, k) <= s.len(),
        forall|i: int| p <= i < scan(s, p, k) ==> !stops(k, #[trigger] s[i]),
        scan(s, p, k) < s.len() ==> stops(k, s[scan(s, p, k)]),
    decreases s.len() - p,
{
    if p < s.len() && !stops(k, s[p]) {
        lemma_scan(s, p + 1, k);
    }
}

pub proof fn lemma_scan_any(s: Seq<u8>, p: int, k: Stop)
    ensures
        p <= scan(s, p, k),
        0 <= p <= s.len() ==> scan(s, p, k) <= s.len(),
        !(0 <= p < s.len()) ==> scan(s, p, k) == p,
{
    if 0 <= p <= s.len() {
        lemma_scan(s, p, k);
    }
}

pub proof fn lemma_number_adv(s: Seq<u8>, p: int)
    ensures
        adv(number_at(s, p), p, s.len() as int),
{
    lemma_scan_any(s, p, Stop::NonDigit);
}

pub proof fn lemma_atom_adv(s: Seq<u8>, p: int)
    ensures
        adv(atom_at(s, p), p, s.len() as int),
{
    lemma_scan_any(s, p, Stop::NonAtom);
}

pub proof fn lemma_tag_adv(s: Seq<u8>, p: int)
    ensures
        adv(tag_at(s, p), p, s.len() as int),
{
    lemma_scan_any(s, p, Stop::TagEnd);
}

pub proof fn lemma_flag_or_atom_adv(s: Seq<u8>, p: int)
    ensures
        adv(flag_or_atom_at(s, p), p, s.len() as int),
{
    lemma_scan_any(s, p + 1, Stop::NonAtom);
    lemma_scan_any(s, p, Stop::NonAtom);
}

pub proof fn lemma_quoted_close(s: Seq<u8>, i: int)
    ensures
        quoted_close(s, i) matches Ok(c) ==> i <= c < s.len(),
    decreases s.len() - i,
{
    if 0 <= i < s.len() && s[i] != DQUOTE {
        if s[i] == BACKSLASH {
            if i + 1 < s.len() && (s[i + 1] == DQUOTE || s[i + 1] == BACKSLASH) {
                lemma_quoted_close(s, i + 2);
            }
        } else if !(s[i] == CR || s[i] == LF) {
            lemma_quoted_close(s, i + 1);
        }
    }
}

/// The bytes a quoted string spans before its closing quote hold no CR
/// and no LF.
proof fn lemma_quoted_close_no_line_break(s: Seq<u8>, i: int)
    requires
        quoted_close(s, i) is Ok,
    ensures
        forall|k: int| i <= k < quoted_close(s, i)->Ok_0 ==> #[trigger] s[k] != CR && s[k] != LF,
    decreases s.len() - i,
{
    if s[i] != DQUOTE {
        if s[i] == BACKSLASH {
            lemma_quoted_close_no_line_break(s, i + 2);
        } else {
            lemma_quoted_close_no_line_break(s, i + 1);
        }
    }
}

/// A byte below 0x80 that the UTF-8 encoding of `chars` lacks is not one
/// of its characters.
proof fn lemma_encode_lacks_ascii(chars: Seq<char>, b: u8)
    requires
        b < 0x80,
        forall|k: int| 0 <= k < encode_utf8(chars).len() ==> #[trigger] encode_utf8(chars)[k] != b,
    ensures
        forall|i: int| 0 <= i < chars.len() ==> #[trigger] chars[i] != b as char,
    decreases chars.len(),
{
    if chars.len() > 0 {
        let head = encode_scalar(chars[0] as u32);
        let tail = encode_utf8(chars.drop_first());
        assert(encode_utf8(chars) == head + tail);
        assert forall|k: int| 0 <= k < tail.len() implies #[trigger] tail[k] != b by {
            assert(encode_utf8(chars)[head.len() + k] == tail[k]);
        }
        lemma_encode_lacks_ascii(chars.drop_first(), b);
        if chars[0] == b as char {
            let v = chars[0] as u32;
            assert(v == b as u32);
            assert(leading_byte_width_1(v) == b) by (bit_vector)
                requires
                    v == b as u32,
                    b < 0x80,
            ;
            assert(encode_utf8(chars)[0] == b);
        }
        assert forall|i: int| 0 <= i < chars.len() implies #[trigger] chars[i] != b as char by {
            if i > 0 {
                assert(chars[i] == chars.drop_first()[i - 1]);
            }
        }
    }
}

/// The text of a quoted string never carries CR or LF: a backslash may
/// escape only a quote or a backslash, and a bare CR or LF ends the parse
/// with an error.
pub proof fn lemma_quoted_no_line_break(s: Seq<u8>, p: int)
    ensures
        quoted_at(s, p) matches Ok((_, t)) ==> !t.contains('\r') && !t.contains('\n'),
{
    if let Ok((_, t)) = quoted_at(s, p) {
        let q = p + 1;
        let c = quoted_close(s, q)->Ok_0;
        let b = s.subrange(q, c);
        lemma_quoted_close(s, q);
        lemma_quoted_close_no_line_break(s, q);
        decode_utf8_encode_utf8(b);
        assert(encode_utf8(t) == b);
        assert forall|k: int| 0 <= k < b.len() implies #[trigger] b[k] != CR && b[k] != LF by {
            assert(b[k] == s[q + k]);
        }
        lemma_encode_lacks_ascii(t, CR);
        lemma_encode_lacks_ascii(t, LF);
        assert(CR as char == '\r');
        assert(LF as char == '\n');
    }
}

pub proof fn lemma_quoted_adv(s: Seq<u8>, p: int)
    ensures
        adv(quoted_at(s, p), p + 1, s.len() as int),
        adv(quoted_bytes_at(s, p), p + 1, s.len() as int),
{
    lemma_quoted_close(s, p + 1);
}

pub proof fn lemma_literal_adv(s: Seq<u8>, p: int)
    ensures
        adv(literal_at(s, p), p + 1, s.len() as int),
        adv(literal_text_at(s, p), p + 1, s.len() as int),
{
    lemma_number_adv(s, p + 1);
}


pub proof fn lemma_nstring_bytes_adv(s: Seq<u8>, p: int)
    ensures
        adv(nstring_bytes_at(s, p), p, s.len() as int),
        adv(nstring_bytes_opt_at(s, p), p, s.len() as int),
{
    lemma_quoted_adv(s, p);
    lemma_literal_adv(s, p);
}

pub proof fn lemma_atom_list_loop_adv(s: Seq<u8>, p: int, acc: Seq<Seq<char>>)
    ensures
        adv(atom_list_loop(s, p, acc), p, s.len() as int),
    decreases s.len() - p,
{
    lemma_flag_or_atom_adv(s, p);
    if let Ok((q, item)) = flag_or_atom_at(s, p) {
        if 0 <= q < s.len() && s[q] == crate::grammar::SP {
            lemma_atom_list_loop_adv(s, q + 1, acc.push(item));
        }
    }
}

pub proof fn lemma_atom_list_adv(s: Seq<u8>, p: int)
    ensures
        adv(atom_list_at(s, p), p, s.len() as int),
{
    lemma_atom_list_loop_adv(s, p + 1, Seq::empty());
}

pub proof fn lemma_balanced_loop_adv(s: Seq<u8>, i: int, depth: u32)
    requires
        0 <= i <= s.len(),
    ensures
        balanced_loop(s, i, depth) matches Ok(e) ==> i <= e <= s.len(),
    decreases s.len() - i,
{
    if depth != 0 && i < s.len() {
        let c = s[i];
        if c == crate::grammar::LPAREN {
            if depth != u32::MAX {
                lemma_balanced_loop_adv(s, i + 1, (depth + 1) as u32);
            }
        } else if c == crate::grammar::RPAREN {
            lemma_balanced_loop_adv(s, i + 1, (depth - 1) as u32);
        } else if c == DQUOTE {
            lemma_quoted_adv(s, i);
            if let Ok((q, _)) = quoted_at(s, i) {
                lemma_balanced_loop_adv(s, q, depth);
            }
        } else if c == crate::grammar::LBRACE {
            lemma_literal_adv(s, i);
            if let Ok((q, _)) = literal_at(s, i) {
                lemma_balanced_loop_adv(s, q, depth);
            }
        } else {
            lemma_balanced_loop_adv(s, i + 1, depth);
        }
    }
}

pub proof fn lemma_balanced_adv(s: Seq<u8>, p: int)
    ensures
        adv(balanced_at(s, p), p, s.len() as int),
{
    if 0 <= p < s.len() {
        lemma_balanced_loop_adv(s, p + 1, 1);
    }
}

pub proof fn lemma_until_end(s: Seq<u8>, i: int, term: u8)
    ensures
        until_end(s, i, term) matches Ok(e) ==> i <= e && (0 <= i <= s.len() ==> e <= s.len()),
    decreases s.len() - i,
{
    if 0 <= i < s.len() && s[i] != term && !(s[i] == CR || s[i] == LF) {
        lemma_until_end(s, i + 1, term);
    }
}

pub proof fn lemma_fetch_att_adv(s: Seq<u8>, p: int)
    ensures
        adv(fetch_att_at(s, p), p, s.len() as int),
{
    lemma_scan_any(s, p, Stop::AttNameEnd);
    if let Ok(q) = fetch_att_name_end(s, p) {
        lemma_number_adv(s, q + 1);
        lemma_atom_list_adv(s, q + 1);
        lemma_quoted_adv(s, q + 1);
        lemma_nstring_bytes_adv(s, q + 1);
        lemma_balanced_adv(s, q + 1);
        lemma_until_end(s, q + 1, crate::grammar::RBRACKET);
        if let Ok((q1, _)) = until_byte_at(s, q + 1, crate::grammar::RBRACKET) {
            lemma_number_adv(s, q1 + 2);
            if let Ok((q2, _)) = origin_at(s, q1 + 1) {
                lemma_nstring_bytes_adv(s, q2 + 1);
            }
        }
    }
}

/// A literal that declares more than [`MAX_LITERAL_SIZE`] octets is
/// refused with `LiteralTooLarge` as soon as its `{n}` CRLF header has
/// been read, however many of its octets have arrived: the refusal never
/// waits for, or takes in, the announced data.
pub proof fn lemma_literal_cap(s: Seq<u8>, p: int, e: int, n: u32)
    requires
        byte_at(s, p, LBRACE) == Ok::<int, ParseError>(p + 1),
        number_at(s, p + 1) == Ok::<(int, u32), ParseError>((e, n)),
        byte_at(s, e, RBRACE) == Ok::<int, ParseError>(e + 1),
        crlf_at(s, e + 1) == Ok::<int, ParseError>(e + 3),
        n > MAX_LITERAL_SIZE,
    ensures
        literal_at(s, p) == Err::<(int, Seq<u8>), ParseError>(
            ParseError::LiteralTooLarge { got: n as usize, max: MAX_LITERAL_SIZE },
        ),
{
}

// ---------------------------------------------------------------------------
// Response codes without arguments
// ---------------------------------------------------------------------------

/// The atom that names each response code that takes no argument.
pub open spec fn plain_code_name(c: SpecResponseCode) -> Option<Seq<u8>> {
    match c {
        SpecResponseCode::Alert => Some(kw("ALERT")),
        SpecResponseCode::Parse => Some(kw("PARSE")),
        SpecResponseCode::ReadOnly => Some(kw("READ-ONLY")),
        SpecResponseCode::ReadWrite => Some(kw("READ-WRITE")),
        SpecResponseCode::TryCreate => Some(kw("TRYCREATE")),
        _ => None,
    }
}

/// Capital letters and hyphens only.
spec fn code_word(k: Seq<u8>) -> bool {
    forall|i: int| 0 <= i < k.len() ==> (65 <= #[trigger] k[i] <= 90 || k[i] == 45)
}

proof fn lemma_code_word(k: &str)
    requires
        vstd::utf8::is_ascii_chars(k@),
        forall|i: int| 0 <= i < k@.len() ==> ('A' <= #[trigger] k@[i] <= 'Z' || k@[i] == '-'),
    ensures
        code_word(kw(k)),
        kw(k).len() == k@.len(),
        forall|i: int| 0 <= i < k@.len() ==> #[trigger] kw(k)[i] == k@[i] as u8,
{
    is_ascii_chars_encode_utf8(k@);
    assert forall|i: int| 0 <= i < kw(k).len() implies (65 <= #[trigger] kw(k)[i] <= 90 || kw(k)[i] == 45) by {
        assert(kw(k)[i] == k@[i] as u8);
    }
}

/// Bytes below 0x80 are valid UTF-8.
proof fn lemma_ascii_valid_utf8(b: Seq<u8>)
    requires
        forall|i: int| 0 <= i < b.len() ==> #[trigger] b[i] < 0x80,
    ensures
        valid_utf8(b),
{
    let c = Seq::new(b.len(), |i: int| b[i] as char);
    assert(is_ascii_chars(c));
    is_ascii_chars_encode_utf8(c);
    assert(encode_utf8(c) =~= b);
    encode_utf8_valid_utf8(c);
}

/// The code atoms, written out, with their bytes known.
proof fn lemma_code_words()
    ensures
        code_word(kw("ALERT")),
        code_word(kw("PARSE")),
        code_word(kw("READ-ONLY")),
        code_word(kw("READ-WRITE")),
        code_word(kw("TRYCREATE")),
        code_word(kw("UIDNEXT")),
        code_word(kw("UIDVALIDITY")),
        code_word(kw("UNSEEN")),
        code_word(kw("CAPABILITY")),
        code_word(kw("PERMANENTFLAGS")),
        code_word(kw("BADCHARSET")),
        kw("ALERT") == seq![65u8, 76u8, 69u8, 82u8, 84u8],
        kw("PARSE") == seq![80u8, 65u8, 82u8, 83u8, 69u8],
        kw("READ-ONLY") == seq![82u8, 69u8, 65u8, 68u8, 45u8, 79u8, 78u8, 76u8, 89u8],
        kw("READ-WRITE") == seq![82u8, 69u8, 65u8, 68u8, 45u8, 87u8, 82u8, 73u8, 84u8, 69u8],
        kw("TRYCREATE") == seq![84u8, 82u8, 89u8, 67u8, 82u8, 69u8, 65u8, 84u8, 69u8],
        kw("UIDNEXT") == seq![85u8, 73u8, 68u8, 78u8, 69u8, 88u8, 84u8],
        kw("UIDVALIDITY") == seq![85u8, 73u8, 68u8, 86u8, 65u8, 76u8, 73u8, 68u8, 73u8, 84u8, 89u8],
        kw("UNSEEN") == seq![85u8, 78u8, 83u8, 69u8, 69u8, 78u8],
        kw("CAPABILITY") == seq![67u8, 65u8, 80u8, 65u8, 66u8, 73u8, 76u8, 73u8, 84u8, 89u8],
        kw("PERMANENTFLAGS") == seq![80u8, 69u8, 82u8, 77u8, 65u8, 78u8, 69u8, 78u8, 84u8, 70u8, 76u8, 65u8, 71u8, 83u8],
        kw("BADCHARSET") == seq![66u8, 65u8, 68u8, 67u8, 72u8, 65u8, 82u8, 83u8, 69u8, 84u8],
{
    reveal_strlit("ALERT");
    lemma_code_word("ALERT");
    assert(kw("ALERT") =~= seq![65u8, 76u8, 69u8, 82u8, 84u8]);
    reveal_strlit("PARSE");
    lemma_code_word("PARSE");
    assert(kw("PARSE") =~= seq![80u8, 65u8, 82u8, 83u8, 69u8]);
    reveal_strlit("READ-ONLY");
    lemma_code_word("READ-ONLY");
    assert(kw("READ-ONLY") =~= seq![82u8, 69u8, 65u8, 68u8, 45u8, 79u8, 78u8, 76u8, 89u8]);
    reveal_strlit("READ-WRITE");
    lemma_code_word("READ-WRITE");
    assert(kw("READ-WRITE") =~= seq![82u8, 69u8, 65u8, 68u8, 45u8, 87u8, 82u8, 73u8, 84u8, 69u8]);
    reveal_strlit("TRYCREATE");
    lemma_code_word("TRYCREATE");
    assert(kw("TRYCREATE") =~= seq![84u8, 82u8, 89u8, 67u8, 82u8, 69u8, 65u8, 84u8, 69u8]);
    reveal_strlit("UIDNEXT");
    lemma_code_word("UIDNEXT");
    assert(kw("UIDNEXT") =~= seq![85u8, 73u8, 68u8, 78u8, 69u8, 88u8, 84u8]);
    reveal_strlit("UIDVALIDITY");
    lemma_code_word("UIDVALIDITY");
    assert(kw("UIDVALIDITY") =~= seq![85u8, 73u8, 68u8, 86u8, 65u8, 76u8, 73u8, 68u8, 73u8, 84u8, 89u8]);
    reveal_strlit("UNSEEN");
    lemma_code_word("UNSEEN");
    assert(kw("UNSEEN") =~= seq![85u8, 78u8, 83u8, 69u8, 69u8, 78u8]);
    reveal_strlit("CAPABILITY");
    lemma_code_word("CAPABILITY");
    assert(kw("CAPABILITY") =~= seq![67u8, 65u8, 80u8, 65u8, 66u8, 73u8, 76u8, 73u8, 84u8, 89u8]);
    reveal_strlit("PERMANENTFLAGS");
    lemma_code_word("PERMANENTFLAGS");
    assert(kw("PERMANENTFLAGS") =~= seq![80u8, 69u8, 82u8, 77u8, 65u8, 78u8, 69u8, 78u8, 84u8, 70u8, 76u8, 65u8, 71u8, 83u8]);
    reveal_strlit("BADCHARSET");
    lemma_code_word("BADCHARSET");
    assert(kw("BADCHARSET") =~= seq![66u8, 65u8, 68u8, 67u8, 72u8, 65u8, 82u8, 83u8, 69u8, 84u8]);
}

/// The atom of a response code at `p`, up to `e`, is read as a whole
/// (the scan stops at `e`), as valid text, and which known atom it
/// equals can be told from its first and sixth letters.
proof fn lemma_code_atom(s: Seq<u8>, p: int, e: int, n: Seq<u8>)
    requires
        0 <= p < e < s.len(),
        s[e] == RBRACKET || s[e] == SP,
        code_word(n),
        ci_eq(s.subrange(p, e), n),
    ensures
        scan(s, p, Stop::CodeEnd) == e,
        utf8(s.subrange(p, e)) is Ok,
        lower(s.subrange(p, e)[0]) == lower(n[0]),
        e - p > 5 ==> lower(s.subrange(p, e)[5]) == lower(n[5]),
{
    let name = s.subrange(p, e);
    assert forall|i: int| p <= i < e implies !stops(Stop::CodeEnd, #[trigger] s[i]) && s[i] < 0x80 by {
        assert(name[i - p] == s[i]);
        assert(lower(name[i - p]) == lower(n[i - p]));
    }
    lemma_scan(s, p, Stop::CodeEnd);
    let f = scan(s, p, Stop::CodeEnd);
    if f < e {
        assert(stops(Stop::CodeEnd, s[f]));
    }
    lemma_ascii_valid_utf8(name);
    assert(name[0] == s[p]);
    assert(lower(name[0]) == lower(n[0]));
    if e - p > 5 {
        assert(name[5] == s[p + 5]);
        assert(lower(name[5]) == lower(n[5]));
    }
}

/// A response code given by its atom alone is parsed to its own variant:
/// `[ALERT]`, `[PARSE]`, `[READ-ONLY]`, `[READ-WRITE]` and `[TRYCREATE]`,
/// the atom in any mix of cases, each give the variant of that name, and
/// the code ends at the closing bracket.
pub proof fn lemma_plain_code(s: Seq<u8>, p: int, e: int, c: SpecResponseCode)
    requires
        0 <= p < e < s.len(),
        s[e] == RBRACKET,
        plain_code_name(c) matches Some(n) && ci_eq(s.subrange(p, e), n),
    ensures
        resp_text_code_at(s, p) == Ok::<(int, SpecResponseCode), ParseError>((e, c)),
{
    lemma_code_words();
    lemma_code_atom(s, p, e, plain_code_name(c)->Some_0);
}

/// The atom of each response code that takes a number.
pub open spec fn numeric_code_name(k: int) -> Seq<u8> {
    if k == 0 {
        kw("UIDNEXT")
    } else if k == 1 {
        kw("UIDVALIDITY")
    } else {
        kw("UNSEEN")
    }
}

/// The response code that takes a number, with number `v`.
pub open spec fn numeric_code(k: int, v: u32) -> SpecResponseCode {
    if k == 0 {
        SpecResponseCode::UidNext(v)
    } else if k == 1 {
        SpecResponseCode::UidValidity(v)
    } else {
        SpecResponseCode::Unseen(v)
    }
}

/// `[UIDNEXT n]`, `[UIDVALIDITY n]` and `[UNSEEN n]`, the atom in any mix
/// of cases, give the variant of that name with the number that follows
/// the space, and the code ends where the number ends.
pub proof fn lemma_numeric_code(s: Seq<u8>, p: int, e: int, k: int)
    requires
        0 <= p < e < s.len(),
        0 <= k < 3,
        s[e] == SP,
        ci_eq(s.subrange(p, e), numeric_code_name(k)),
        number_at(s, e + 1) is Ok,
    ensures
        number_at(s, e + 1) matches Ok((f, v)) && resp_text_code_at(s, p) == Ok::<(int, SpecResponseCode), ParseError>(
            (f, numeric_code(k, v)),
        ),
{
    lemma_code_words();
    lemma_code_atom(s, p, e, numeric_code_name(k));
    if k == 0 {
    } else if k == 1 {
    } else {
    }
}

/// `[CAPABILITY a b ...]`, the atom in any mix of cases, gives the
/// capability list of the atoms that follow it.
pub proof fn lemma_capability_code(s: Seq<u8>, p: int, e: int)
    requires
        0 <= p < e < s.len(),
        s[e] == RBRACKET || s[e] == SP,
        ci_eq(s.subrange(p, e), kw("CAPABILITY")),
        atom_seq(s, e, Seq::empty()) is Ok,
    ensures
        atom_seq(s, e, Seq::empty()) matches Ok((f, v)) && resp_text_code_at(s, p) == Ok::<
            (int, SpecResponseCode),
            ParseError,
        >((f, SpecResponseCode::Capability(v))),
{
    lemma_code_words();
    lemma_code_atom(s, p, e, kw("CAPABILITY"));
}

/// `[PERMANENTFLAGS (...)]`, the atom in any mix of cases, gives the flag
/// list that follows the space.
pub proof fn lemma_permanentflags_code(s: Seq<u8>, p: int, e: int)
    requires
        0 <= p < e < s.len(),
        s[e] == SP,
        ci_eq(s.subrange(p, e), kw("PERMANENTFLAGS")),
        atom_list_at(s, e + 1) is Ok,
    ensures
        atom_list_at(s, e + 1) matches Ok((f, v)) && resp_text_code_at(s, p) == Ok::<
            (int, SpecResponseCode),
            ParseError,
        >((f, SpecResponseCode::PermanentFlags(v))),
{
    lemma_code_words();
    lemma_code_atom(s, p, e, kw("PERMANENTFLAGS"));
}

/// `[BADCHARSET]` gives an empty charset list, and `[BADCHARSET (...)]` the
/// list that follows the space, the atom in any mix of cases.
pub proof fn lemma_badcharset_code(s: Seq<u8>, p: int, e: int)
    requires
        0 <= p < e < s.len(),
        s[e] == RBRACKET || s[e] == SP,
        ci_eq(s.subrange(p, e), kw("BADCHARSET")),
        s[e] == SP ==> atom_list_at(s, e + 1) is Ok,
    ensures
        s[e] == RBRACKET ==> resp_text_code_at(s, p) == Ok::<(int, SpecResponseCode), ParseError>(
            (e, SpecResponseCode::BadCharset(Seq::empty())),
        ),
        s[e] == SP ==> (atom_list_at(s, e + 1) matches Ok((f, v)) && resp_text_code_at(s, p) == Ok::<
            (int, SpecResponseCode),
            ParseError,
        >((f, SpecResponseCode::BadCharset(v)))),
{
    lemma_code_words();
    lemma_code_atom(s, p, e, kw("BADCHARSET"));
}

} // verus!
