//! Secret credential wrappers and IMAP quoted-string rendering.
//!
//! [`Password`] and [`OAuthToken`] keep their contents private, render a
//! redacted form for diagnostics, and can be wiped in place.

use vstd::prelude::*;
use vstd::string::{StringSliceAdditionalSpecFns, StrSliceExecFns, StringExecFns, is_ascii_spec_bytes};

use vstd::utf8::{
    encode_utf8, encode_utf8_decode_utf8, encode_utf8_valid_utf8, is_ascii_chars,
    is_ascii_chars_encode_utf8,
};

use crate::error::{ClientError, ParseError};
use crate::grammar::{quoted_at, quoted_close, DQUOTE};

verus! {

/// Whether `c` lies outside the ASCII range.
pub open spec fn non_ascii(c: char) -> bool {
    !('\0' <= c <= '\u{7f}')
}

/// A character that cannot stand inside an IMAP quoted string: CR, LF,
/// NUL, or any non-ASCII character.
pub open spec fn unquotable_char(c: char) -> bool {
    c == '\r' || c == '\n' || c == '\0' || non_ascii(c)
}

/// Whether every character of `t` may stand inside a quoted string.
pub open spec fn quotable(t: Seq<char>) -> bool {
    forall|i: int| 0 <= i < t.len() ==> !unquotable_char(#[trigger] t[i])
}

/// One character as it stands inside a quoted string: the two
/// quoted-specials (`"`, `\`) are preceded by `\`.
pub open spec fn escape_char(c: char) -> Seq<char> {
    if c == '"' || c == '\\' {
        seq!['\\', c]
    } else {
        seq![c]
    }
}

/// The characters of `t`, each escaped.
pub open spec fn escaped(t: Seq<char>) -> Seq<char>
    decreases t.len(),
{
    if t.len() == 0 {
        Seq::empty()
    } else {
        escaped(t.drop_last()) + escape_char(t.last())
    }
}

/// `t` as an IMAP quoted string (RFC 9051 §4.3).
pub open spec fn quoted_form(t: Seq<char>) -> Seq<char> {
    seq!['"'] + escaped(t) + seq!['"']
}

/// The message of the error for a value that cannot be quoted.
pub open spec fn unquotable_message() -> Seq<char> {
    "value contains characters disallowed in IMAP quoted string; use AUTHENTICATE for 8-bit or control-byte values"@
}

/// What [`imap_quoted`] returns for text `t`.
pub open spec fn quoted_result(t: Seq<char>, r: Result<String, ClientError>) -> bool {
    if quotable(t) {
        r matches Ok(o) && o@ == quoted_form(t)
    } else {
        r matches Err(ClientError::CommandFailed(m)) && m@ == unquotable_message()
    }
}

/// Whether `s` may be rendered as a quoted string.
fn is_quotable(s: &str) -> (r: bool)
    ensures
        r == quotable(s@),
        r ==> s.is_ascii(),
{
    if !s.is_ascii() {
        proof {
            assert(!vstd::utf8::is_ascii_chars(s@));
            let i = choose|i: int| 0 <= i < s@.len() && !('\0' <= #[trigger] s@[i] <= '\u{7f}');
            assert(unquotable_char(s@[i]));
        }
        return false;
    }
    let b = s.as_bytes();
    proof {
        is_ascii_spec_bytes(s);
    }
    let mut i: usize = 0;
    while i < b.len()
        invariant
            s.is_ascii(),
            b@ == s.spec_bytes(),
            b@.len() == s@.len(),
            forall|j: int| 0 <= j < b@.len() ==> b@[j] == s@[j] as u8,
            i <= b@.len(),
            forall|j: int| 0 <= j < i ==> !unquotable_char(#[trigger] s@[j]),
        decreases b@.len() - i,
    {
        let c = b[i];
        if c == 13 || c == 10 || c == 0 {
            assert(unquotable_char(s@[i as int]));
            return false;
        }
        i += 1;
    }
    true
}

/// Render `s` as an IMAP quoted string with proper escaping. Errors out
/// when `s` contains a character not permitted inside a quoted string.
pub fn imap_quoted(s: &str) -> (r: Result<String, ClientError>)
    ensures
        quoted_result(s@, r),
{
    if !is_quotable(s) {
        return Err(
            ClientError::CommandFailed(
                String::from_str(
                    "value contains characters disallowed in IMAP quoted string; use AUTHENTICATE for 8-bit or control-byte values",
                ),
            ),
        );
    }
    let n = s.as_bytes().len();
    proof {
        is_ascii_spec_bytes(s);
        reveal_strlit("\"");
    }
    let mut out = String::from_str("\"");
    let mut i: usize = 0;
    while i < n
        invariant
            s.is_ascii(),
            n == s@.len(),
            i <= n,
            out@ == seq!['"'] + escaped(s@.subrange(0, i as int)),
        decreases n - i,
    {
        let ghost before = out@;
        let c = s.get_char(i);
        proof {
            reveal_strlit("\\");
        }
        if c == '"' || c == '\\' {
            out.append("\\");
        }
        out.append(s.substring_ascii(i, i + 1));
        proof {
            let t = s@.subrange(0, i + 1);
            assert(t.drop_last() =~= s@.subrange(0, i as int));
            assert(t.last() == s@[i as int]);
            assert(s@.subrange(i as int, i + 1) =~= seq![c]);
            assert(out@ =~= before + escape_char(c));
            assert(escaped(t) == escaped(t.drop_last()) + escape_char(t.last()));
        }
        assert(out@ =~= seq!['"'] + escaped(s@.subrange(0, i + 1)));
        i += 1;
    }
    proof {
        reveal_strlit("\"");
    }
    out.append("\"");
    assert(s@.subrange(0, n as int) =~= s@);
    assert(out@ =~= quoted_form(s@));
    Ok(out)
}

/// `s` with each quoted-special (`"` or `\\`) preceded by `\\`: the
/// contents of a quoted string that stands for `s`.
pub fn escape_quoted_specials(s: &str) -> (r: String)
    ensures
        r@ == escaped(s@),
{
    let n = s.unicode_len();
    let mut out = String::new();
    let mut i: usize = 0;
    while i < n
        invariant
            n == s@.len(),
            i <= n,
            out@ == escaped(s@.subrange(0, i as int)),
        decreases n - i,
    {
        let ghost before = out@;
        let c = s.get_char(i);
        proof {
            reveal_strlit("\\");
        }
        if c == '"' || c == '\\' {
            out.append("\\");
        }
        out.append(s.substring_char(i, i + 1));
        proof {
            let t = s@.subrange(0, i + 1);
            assert(t.drop_last() =~= s@.subrange(0, i as int));
            assert(t.last() == s@[i as int]);
            assert(s@.subrange(i as int, i + 1) =~= seq![c]);
            assert(out@ =~= before + escape_char(c));
            assert(escaped(t) == escaped(t.drop_last()) + escape_char(t.last()));
        }
        i += 1;
    }
    assert(s@.subrange(0, n as int) =~= s@);
    out
}

/// Secret string, redacted in diagnostics and wipeable in place.
pub struct Password(String);

impl View for Password {
    type V = Seq<char>;

    closed spec fn view(&self) -> Seq<char> {
        self.0@
    }
}

/// The redacted form that secrets render as in diagnostics.
pub open spec fn redacted_form() -> Seq<char> {
    "\"***\""@
}

/// Empty `s` in place, overwriting its bytes first.
///
/// Wraps `zeroize::Zeroize::zeroize` for `String`, which writes zeros over
/// the string's buffer (including spare capacity) and then clears it: the
/// string is empty afterwards.
#[verifier::external_body]
fn zeroize_string(s: &mut String)
    ensures
        final(s)@ == Seq::<char>::empty(),
{
    zeroize::Zeroize::zeroize(s)
}

impl Clone for Password {
    /// A copy of the secret.
    fn clone(&self) -> (r: Self)
        ensures
            r@ == self@,
    {
        Password(self.0.clone())
    }
}

impl Password {
    /// Wrap a plaintext password.
    pub fn new(pass: &str) -> (r: Self)
        ensures
            r@ == pass@,
    {
        Self(pass.to_owned())
    }

    /// Borrow the password as a string slice. Use sparingly — the returned
    /// reference is not wiped.
    pub fn as_str(&self) -> (r: &str)
        ensures
            r@ == self@,
    {
        self.0.as_str()
    }

    /// Render the password as an IMAP `quoted` string (RFC 9051 §4.3),
    /// escaping the two quoted-specials (`\`, `"`).
    ///
    /// Returns [`ClientError::CommandFailed`] if the secret contains a
    /// character that cannot appear inside a quoted string (`CR`, `LF`,
    /// `NUL`, or any 8-bit character); such a secret can travel by
    /// `AUTHENTICATE PLAIN` instead.
    pub fn as_imap_quoted(&self) -> (r: Result<String, ClientError>)
        ensures
            quoted_result(self@, r),
    {
        imap_quoted(self.0.as_str())
    }

    /// The redacted form of the password, as it appears in diagnostics.
    pub fn redacted(&self) -> (r: String)
        ensures
            r@ == redacted_form(),
    {
        String::from_str("\"***\"")
    }

    /// Overwrite the password's memory and leave it empty.
    pub fn zeroize(&mut self)
        ensures
            final(self)@ == Seq::<char>::empty(),
    {
        zeroize_string(&mut self.0);
    }
}

/// Secure wrapper for OAuth bearer tokens.
pub struct OAuthToken(String);

impl View for OAuthToken {
    type V = Seq<char>;

    closed spec fn view(&self) -> Seq<char> {
        self.0@
    }
}

impl Clone for OAuthToken {
    /// A copy of the token.
    fn clone(&self) -> (r: Self)
        ensures
            r@ == self@,
    {
        OAuthToken(self.0.clone())
    }
}

impl OAuthToken {
    /// Wrap an OAuth bearer token.
    pub fn new(token: &str) -> (r: Self)
        ensures
            r@ == token@,
    {
        Self(token.to_owned())
    }

    /// Borrow the token as a string slice. Use sparingly — the returned
    /// reference is not wiped.
    pub fn as_str(&self) -> (r: &str)
        ensures
            r@ == self@,
    {
        self.0.as_str()
    }

    /// The redacted form of the token, as it appears in diagnostics.
    pub fn redacted(&self) -> (r: String)
        ensures
            r@ == redacted_form(),
    {
        String::from_str("\"***\"")
    }

    /// Overwrite the token's memory and leave it empty.
    pub fn zeroize(&mut self)
        ensures
            final(self)@ == Seq::<char>::empty(),
    {
        zeroize_string(&mut self.0);
    }
}

// --- Laws of the quoted form ---------------------------------------------

/// `e` with each `\` escape resolved: `\x` stands for `x`.
pub open spec fn unescaped(e: Seq<char>) -> Seq<char>
    decreases e.len(),
{
    if e.len() == 0 {
        Seq::empty()
    } else if e[0] == '\\' && e.len() >= 2 {
        seq![e[1]] + unescaped(e.skip(2))
    } else {
        seq![e[0]] + unescaped(e.skip(1))
    }
}

proof fn lemma_escaped_concat(a: Seq<char>, b: Seq<char>)
    ensures
        escaped(a + b) == escaped(a) + escaped(b),
    decreases b.len(),
{
    if b.len() == 0 {
        assert(a + b =~= a);
        assert(escaped(a) + escaped(b) =~= escaped(a));
    } else {
        lemma_escaped_concat(a, b.drop_last());
        assert((a + b).drop_last() =~= a + b.drop_last());
        assert((a + b).last() == b.last());
        assert(escaped(a) + escaped(b) =~= escaped(a) + escaped(b.drop_last()) + escape_char(b.last()));
    }
}

proof fn lemma_escaped_front(t: Seq<char>)
    requires
        t.len() > 0,
    ensures
        escaped(t) == escape_char(t[0]) + escaped(t.drop_first()),
{
    let h = seq![t[0]];
    assert(t =~= h + t.drop_first());
    lemma_escaped_concat(h, t.drop_first());
    assert(h.drop_last() =~= Seq::<char>::empty());
    assert(escaped(h) =~= escaped(h.drop_last()) + escape_char(h.last()));
}

proof fn lemma_escaped_ascii(t: Seq<char>)
    requires
        quotable(t),
    ensures
        forall|k: int| 0 <= k < escaped(t).len() ==> !#[trigger] unquotable_char(escaped(t)[k]),
    decreases t.len(),
{
    if t.len() > 0 {
        lemma_escaped_ascii(t.drop_last());
        let p = escaped(t.drop_last());
        let c = escape_char(t.last());
        assert(!unquotable_char(t[t.len() - 1]));
        assert forall|k: int| 0 <= k < escaped(t).len() implies !#[trigger] unquotable_char(escaped(t)[k]) by {
            if k < p.len() {
                assert(escaped(t)[k] == p[k]);
            } else {
                assert(escaped(t)[k] == c[k - p.len()]);
            }
        };
    }
}

/// Escaping loses nothing: resolving the escapes of the escaped text
/// gives the text back.
pub proof fn lemma_unescape_escaped(t: Seq<char>)
    ensures
        unescaped(escaped(t)) == t,
    decreases t.len(),
{
    if t.len() == 0 {
        assert(escaped(t) =~= Seq::<char>::empty());
    } else {
        let c = t[0];
        let r = t.drop_first();
        lemma_escaped_front(t);
        lemma_unescape_escaped(r);
        let e = escaped(t);
        if c == '"' || c == '\\' {
            assert(e.skip(2) =~= escaped(r));
        } else {
            assert(e.skip(1) =~= escaped(r));
        }
        assert(t =~= seq![c] + r);
    }
}

/// The parser's scan for the closing quote runs over escaped text whose
/// bytes stand at `i`, and stops at the quote that follows it.
proof fn lemma_quoted_close_escaped(s: Seq<u8>, i: int, t: Seq<char>)
    requires
        quotable(t),
        0 <= i,
        i + escaped(t).len() < s.len(),
        forall|k: int| 0 <= k < escaped(t).len() ==> s[i + k] == #[trigger] escaped(t)[k] as u8,
        s[i + escaped(t).len()] == DQUOTE,
    ensures
        quoted_close(s, i) == Ok::<int, ParseError>(i + escaped(t).len()),
    decreases t.len(),
{
    if t.len() == 0 {
        assert(escaped(t).len() == 0);
    } else {
        let c = t[0];
        let r = t.drop_first();
        let e = escaped(t);
        lemma_escaped_front(t);
        assert(!unquotable_char(t[0]));
        assert(quotable(r)) by {
            assert forall|k: int| 0 <= k < r.len() implies !#[trigger] unquotable_char(r[k]) by {
                assert(r[k] == t[k + 1]);
            };
        };
        if c == '"' || c == '\\' {
            assert(e[0] == '\\');
            assert(e[1] == c);
            assert(s[i] == e[0] as u8);
            assert(s[i + 1] == e[1] as u8);
            assert(forall|k: int| 0 <= k < escaped(r).len() ==> escaped(r)[k] == #[trigger] e[k + 2]);
            assert forall|k: int| 0 <= k < escaped(r).len() implies s[(i + 2) + k] == #[trigger] escaped(r)[k] as u8 by {
                assert(e[k + 2] == escaped(r)[k]);
                assert(s[i + (k + 2)] == e[k + 2] as u8);
            };
            lemma_quoted_close_escaped(s, i + 2, r);
        } else {
            assert(e[0] == c);
            assert(s[i] == e[0] as u8);
            assert(forall|k: int| 0 <= k < escaped(r).len() ==> escaped(r)[k] == #[trigger] e[k + 1]);
            assert forall|k: int| 0 <= k < escaped(r).len() implies s[(i + 1) + k] == #[trigger] escaped(r)[k] as u8 by {
                assert(e[k + 1] == escaped(r)[k]);
                assert(s[i + (k + 1)] == e[k + 1] as u8);
            };
            lemma_quoted_close_escaped(s, i + 1, r);
        }
    }
}

/// What [`imap_quoted`] renders is read back by the parser's
/// quoted-string rule as one token that ends exactly where the rendering
/// ends, whatever bytes follow it, and whose raw contents are the escaped
/// text (see [`lemma_unescape_escaped`] for getting the text back).
pub proof fn lemma_quoted_reads_back(t: Seq<char>, rest: Seq<u8>)
    requires
        quotable(t),
    ensures
        quoted_at(encode_utf8(quoted_form(t)) + rest, 0) == Ok::<(int, Seq<char>), ParseError>(
            (encode_utf8(quoted_form(t)).len() as int, escaped(t)),
        ),
{
    let e = escaped(t);
    let n: int = e.len() as int;
    let q = quoted_form(t);
    let b = encode_utf8(q);
    let s = b + rest;
    lemma_escaped_ascii(t);
    assert(is_ascii_chars(q)) by {
        assert forall|k: int| 0 <= k < q.len() implies '\0' <= #[trigger] q[k] <= '\u{7f}' by {
            if 1 <= k <= e.len() {
                assert(q[k] == e[k - 1]);
                assert(!unquotable_char(e[k - 1]));
            }
        };
    };
    assert(is_ascii_chars(e)) by {
        assert forall|k: int| 0 <= k < e.len() implies '\0' <= #[trigger] e[k] <= '\u{7f}' by {
            assert(!unquotable_char(e[k]));
        };
    };
    is_ascii_chars_encode_utf8(q);
    is_ascii_chars_encode_utf8(e);
    assert(q.len() == e.len() + 2);
    assert(s[0] == q[0] as u8);
    assert forall|k: int| 0 <= k < e.len() implies s[1 + k] == #[trigger] e[k] as u8 by {
        assert(q[1 + k] == e[k]);
        assert(s[1 + k] == b[1 + k]);
    };
    assert(s[1 + n] == q[1 + n] as u8);
    lemma_quoted_close_escaped(s, 1, t);
    assert(s.subrange(1, 1 + n) =~= encode_utf8(e)) by {
        assert forall|k: int| 0 <= k < e.len() implies s.subrange(1, 1 + n)[k] == encode_utf8(e)[k] by {
            assert(s[1 + k] == e[k] as u8);
        };
    };
    encode_utf8_valid_utf8(e);
    encode_utf8_decode_utf8(e);
}

} // verus!
