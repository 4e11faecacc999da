//! The decisions of a type-state IMAP session: the wire form of each
//! command, the capability gates of the extension commands, the SASL
//! `PLAIN` exchange, and what `FETCH` / `SEARCH` make of the untagged
//! frames they receive.
//!
//! ## States
//!
//! | State          | Allowed commands |
//! |----------------|------------------|
//! | Unauthenticated | `STARTTLS` (PlainText only), `LOGIN` / `AUTHENTICATE` (Tls only), `CAPABILITY`, `LOGOUT`, `NOOP` |
//! | Authenticated  | `SELECT` / `EXAMINE`, `LIST`, `LSUB`, `STATUS`, `LOGOUT`, `NOOP`, `CAPABILITY`, `ENABLE` |
//! | Selected       | All Authenticated commands plus `FETCH`, `STORE`, `SEARCH`, `EXPUNGE`, `IDLE`, `CLOSE`, `UNSELECT`, `MOVE` |

use vstd::prelude::*;
use vstd::string::{StringExecFns, StringSliceAdditionalSpecFns};
use vstd::utf8::{decode_utf8, encode_scalar, encode_utf8, valid_utf8};

use crate::ast::{DataResponse, FetchAttribute, Response, SpecDataResponse, SpecFetchAttribute, SpecResponse};
use crate::capabilities::Capabilities;
use crate::credentials::{
    imap_quoted, lemma_quoted_reads_back, lemma_unescape_escaped, quotable, quoted_form, unescaped, unquotable_message, Password,
};
use crate::grammar::quoted_at;
use crate::error::ClientError;
use crate::flags::{flags_text, join_flags, store_prefix, Flag, StoreAction};
use crate::grammar::parse_response_spec;
use crate::parser::parse_response;
use crate::search::{key_text, SearchQuery};

verus! {

// --- State markers -----------------------------------------------------

/// Session state before authentication.
pub struct Unauthenticated;

/// Session state after a successful `LOGIN` / `AUTHENTICATE`.
pub struct Authenticated;

/// Session state with a mailbox selected.
pub struct Selected;

// --- Transport markers -------------------------------------------------

/// A cleartext transport.
pub struct PlainText;

/// A TLS-protected transport.
pub struct Tls;

// --- Command text --------------------------------------------------------

/// What a command builder returns for a command text that is `Some` when
/// every quoted argument could be quoted: the text, or the unquotable
/// error.
pub open spec fn command_result(c: Option<Seq<char>>, r: Result<String, ClientError>) -> bool {
    match c {
        Some(t) => r matches Ok(s) && s@ == t,
        None => r matches Err(ClientError::CommandFailed(m)) && m@ == unquotable_message(),
    }
}

/// `prefix` followed by the quoted form of `arg`, when `arg` is quotable.
pub open spec fn with_quoted(prefix: Seq<char>, arg: Seq<char>) -> Option<Seq<char>> {
    if quotable(arg) {
        Some(prefix + quoted_form(arg))
    } else {
        None
    }
}

/// `LOGIN <user> <pass>`, both quoted.
pub open spec fn login_text(user: Seq<char>, pass: Seq<char>) -> Option<Seq<char>> {
    if quotable(user) && quotable(pass) {
        Some("LOGIN "@ + quoted_form(user) + seq![' '] + quoted_form(pass))
    } else {
        None
    }
}

/// `LIST <reference> <mask>`, both quoted.
pub open spec fn list_text(reference: Seq<char>, mask: Seq<char>) -> Option<Seq<char>> {
    if quotable(reference) && quotable(mask) {
        Some("LIST "@ + quoted_form(reference) + seq![' '] + quoted_form(mask))
    } else {
        None
    }
}

/// `<name> <set> <action prefix> (<flags>)`.
pub open spec fn store_text(name: Seq<char>, set: Seq<char>, action: StoreAction, flags: Seq<Flag>) -> Seq<char> {
    name + set + seq![' '] + store_prefix(action, false) + " ("@ + flags_text(flags) + seq![')']
}

/// `prefix` followed by `a`.
fn concat2(prefix: &str, a: &str) -> (r: String)
    ensures
        r@ == prefix@ + a@,
{
    let mut out = String::from_str(prefix);
    out.append(a);
    out
}

/// `prefix`, `a`, a space, then `b`.
fn concat_spaced(prefix: &str, a: &str, b: &str) -> (r: String)
    ensures
        r@ == prefix@ + a@ + seq![' '] + b@,
{
    let mut out = String::from_str(prefix);
    out.append(a);
    out.append(" ");
    out.append(b);
    proof {
        reveal_strlit(" ");
    }
    out
}

/// The `LOGIN` command for `user` and `pass`, both sent as quoted
/// strings. Fails with [`ClientError::CommandFailed`] when either cannot
/// be quoted (8-bit, control bytes, CR, LF); `AUTHENTICATE PLAIN` carries
/// such credentials instead.
pub fn login_command(user: &str, pass: &Password) -> (r: Result<String, ClientError>)
    ensures
        command_result(login_text(user@, pass@), r),
        r is Ok <==> quotable(user@) && quotable(pass@),
        r matches Ok(t) ==> t@ == "LOGIN "@ + quoted_form(user@) + seq![' '] + quoted_form(pass@),
{
    let user_q = imap_quoted(user)?;
    let pass_q = pass.as_imap_quoted()?;
    Ok(concat_spaced("LOGIN ", user_q.as_str(), pass_q.as_str()))
}

/// The `SELECT` command for `mailbox`, quoted.
pub fn select_command(mailbox: &str) -> (r: Result<String, ClientError>)
    ensures
        command_result(with_quoted("SELECT "@, mailbox@), r),
        r is Ok <==> quotable(mailbox@),
        r matches Ok(t) ==> t@ == "SELECT "@ + quoted_form(mailbox@),
{
    let mb = imap_quoted(mailbox)?;
    Ok(concat2("SELECT ", mb.as_str()))
}

/// The `EXAMINE` command for `mailbox`, quoted.
pub fn examine_command(mailbox: &str) -> (r: Result<String, ClientError>)
    ensures
        command_result(with_quoted("EXAMINE "@, mailbox@), r),
        r is Ok <==> quotable(mailbox@),
        r matches Ok(t) ==> t@ == "EXAMINE "@ + quoted_form(mailbox@),
{
    let mb = imap_quoted(mailbox)?;
    Ok(concat2("EXAMINE ", mb.as_str()))
}

/// The `LIST` command for `reference` and `mailbox_mask`, both quoted.
pub fn list_command(reference: &str, mailbox_mask: &str) -> (r: Result<String, ClientError>)
    ensures
        command_result(list_text(reference@, mailbox_mask@), r),
        r is Ok <==> quotable(reference@) && quotable(mailbox_mask@),
        r matches Ok(t) ==> t@ == "LIST "@ + quoted_form(reference@) + seq![' '] + quoted_form(mailbox_mask@),
{
    let reference_q = imap_quoted(reference)?;
    let mask_q = imap_quoted(mailbox_mask)?;
    Ok(concat_spaced("LIST ", reference_q.as_str(), mask_q.as_str()))
}

proof fn lemma_encode_utf8_concat(a: Seq<char>, b: Seq<char>)
    ensures
        encode_utf8(a + b) == encode_utf8(a) + encode_utf8(b),
    decreases a.len(),
{
    if a.len() == 0 {
        assert(a + b =~= b);
        assert(encode_utf8(a) =~= Seq::<u8>::empty());
        assert(encode_utf8(a) + encode_utf8(b) =~= encode_utf8(b));
    } else {
        assert((a + b)[0] == a[0]);
        assert((a + b).drop_first() =~= a.drop_first() + b);
        lemma_encode_utf8_concat(a.drop_first(), b);
        assert(encode_utf8(a + b) =~= encode_utf8(a) + encode_utf8(b));
    }
}

/// The `LIST` command names the reference it was given: after `LIST ` its
/// bytes begin with a quoted string that the parser reads back, up to its
/// closing quote, and that unescapes to exactly the reference; a space
/// follows it.
pub proof fn lemma_list_reads_back(reference: Seq<char>, mask: Seq<char>)
    requires
        quotable(reference),
        quotable(mask),
    ensures
        list_text(reference, mask) matches Some(t) && t.subrange(0, 5) == "LIST "@ && ({
            let b = encode_utf8(t.subrange(5, t.len() as int));
            quoted_at(b, 0) matches Ok((k, e)) && unescaped(e) == reference && 0 <= k < b.len() && b[k] == 32u8
        }),
{
    reveal_strlit("LIST ");
    let t = list_text(reference, mask)->Some_0;
    let q = quoted_form(reference);
    let rest = seq![' '] + quoted_form(mask);
    assert(t =~= "LIST "@ + (q + rest));
    assert(t.subrange(0, 5) =~= "LIST "@);
    assert(t.subrange(5, t.len() as int) =~= q + rest);
    lemma_encode_utf8_concat(q, rest);
    lemma_encode_utf8_concat(seq![' '], quoted_form(mask));
    lemma_quoted_reads_back(reference, encode_utf8(rest));
    lemma_unescape_escaped(reference);
    let b = encode_utf8(q + rest);
    let k = encode_utf8(q).len() as int;
    assert(encode_utf8(seq![' ']) =~= seq![32u8]) by {
        assert(encode_utf8(seq![' ']) == encode_scalar(' ' as u32) + encode_utf8(seq![' '].drop_first()));
        assert(seq![' '].drop_first() =~= Seq::<char>::empty());
        assert(encode_scalar(' ' as u32) =~= seq![32u8]) by {
            assert((32u32 & 0x7F) as u8 == 32u8) by (bit_vector);
        }
    }
    assert(b[k] == 32u8);
}

/// The `FETCH` command: `FETCH <sequence_set> <items>`, both verbatim.
pub fn fetch_command(sequence_set: &str, items: &str) -> (r: String)
    ensures
        r@ == "FETCH "@ + sequence_set@ + seq![' '] + items@,
{
    concat_spaced("FETCH ", sequence_set, items)
}

/// `name`, the set, the action's item name, then the flags in parentheses.
fn store_like(name: &str, set: &str, action: StoreAction, flags: &[Flag]) -> (r: String)
    ensures
        r@ == store_text(name@, set@, action, flags@),
{
    let flags_str = join_flags(flags);
    let mut out = String::from_str(name);
    out.append(set);
    out.append(" ");
    out.append(action.to_imap_prefix(false));
    out.append(" (");
    out.append(flags_str.as_str());
    out.append(")");
    proof {
        reveal_strlit(" ");
        reveal_strlit(")");
    }
    out
}

/// The `STORE` command: `STORE <sequence_set> <+FLAGS|-FLAGS|FLAGS> (<flags>)`.
pub fn store_command(sequence_set: &str, action: StoreAction, flags: &[Flag]) -> (r: String)
    ensures
        r@ == store_text("STORE "@, sequence_set@, action, flags@),
{
    store_like("STORE ", sequence_set, action, flags)
}

/// The `UID STORE` command: `UID STORE <uid_set> <+FLAGS|-FLAGS|FLAGS> (<flags>)`.
pub fn uid_store_command(uid_set: &str, action: StoreAction, flags: &[Flag]) -> (r: String)
    ensures
        r@ == store_text("UID STORE "@, uid_set@, action, flags@),
{
    store_like("UID STORE ", uid_set, action, flags)
}

/// The `SEARCH` command for `query`.
pub fn search_command(query: SearchQuery) -> (r: String)
    ensures
        r@ == "SEARCH "@ + key_text(query@),
{
    let q = query.build();
    concat2("SEARCH ", q.as_str())
}

/// The `UID SEARCH` command for `query`.
pub fn uid_search_command(query: SearchQuery) -> (r: String)
    ensures
        r@ == "UID SEARCH "@ + key_text(query@),
{
    let q = query.build();
    concat2("UID SEARCH ", q.as_str())
}

/// The `MOVE` command (RFC 6851): `MOVE <sequence_set> <mailbox>`, the
/// mailbox quoted. Fails with [`ClientError::UnsupportedCapability`]
/// when the server has not advertised `MOVE`.
pub fn move_command(caps: &Capabilities, sequence_set: &str, mailbox: &str) -> (r: Result<String, ClientError>)
    ensures
        !caps.move_ext ==> (r matches Err(ClientError::UnsupportedCapability(n)) && n@ == "MOVE"@),
        caps.move_ext ==> command_result(
            if quotable(mailbox@) {
                Some("MOVE "@ + sequence_set@ + seq![' '] + quoted_form(mailbox@))
            } else {
                None
            },
            r,
        ),
{
    if !caps.move_ext {
        return Err(ClientError::UnsupportedCapability("MOVE"));
    }
    let mb = imap_quoted(mailbox)?;
    Ok(concat_spaced("MOVE ", sequence_set, mb.as_str()))
}

/// `UNSELECT` (RFC 3691) is only sent to a server that has
/// advertised `UNSELECT`.
pub fn require_unselect(caps: &Capabilities) -> (r: Result<(), ClientError>)
    ensures
        caps.unselect ==> r is Ok,
        !caps.unselect ==> (r matches Err(ClientError::UnsupportedCapability(n)) && n@ == "UNSELECT"@),
{
    if !caps.unselect {
        return Err(ClientError::UnsupportedCapability("UNSELECT"));
    }
    Ok(())
}

/// `IDLE` (RFC 2177) is only sent to a server that has
/// advertised `IDLE`.
pub fn require_idle(caps: &Capabilities) -> (r: Result<(), ClientError>)
    ensures
        caps.idle ==> r is Ok,
        !caps.idle ==> (r matches Err(ClientError::UnsupportedCapability(n)) && n@ == "IDLE"@),
{
    if !caps.idle {
        return Err(ClientError::UnsupportedCapability("IDLE"));
    }
    Ok(())
}

/// What `LOGOUT` makes of the server's reply: success, or the connection
/// closing, both count as logged out.
pub fn logout_outcome(reply: Result<Vec<u8>, ClientError>) -> (r: Result<(), ClientError>)
    ensures
        match reply {
            Ok(_) => r is Ok,
            Err(ClientError::ConnectionClosed) => r is Ok,
            Err(e) => r == Err::<(), ClientError>(e),
        },
{
    match reply {
        Ok(_) => Ok(()),
        Err(ClientError::ConnectionClosed) => Ok(()),
        Err(e) => Err(e),
    }
}

// --- SASL PLAIN -----------------------------------------------------------

/// The standard base64 encoding (RFC 4648 alphabet, `=` padding) of
/// `data`, as ASCII bytes.
pub uninterp spec fn base64_standard(data: Seq<u8>) -> Seq<u8>;

/// Encode `data` in standard base64.
///
/// Wraps `base64::Engine::encode` on `base64::engine::general_purpose::STANDARD`
/// (then `String::into_bytes`). The engine pads, so the output takes four
/// bytes for every started group of three input bytes; it panics when that
/// length does not fit in `usize`, which `requires` rules out. Which bytes
/// the encoding produces is not spelled out here: it is left to the name
/// `base64_standard`.
#[verifier::external_body]
fn base64_encode_standard(data: &[u8]) -> (r: Vec<u8>)
    requires
        4 * ((data@.len() + 2) / 3) <= usize::MAX,
    ensures
        r@ == base64_standard(data@),
        r@.len() == 4 * ((data@.len() + 2) / 3),
{
    base64::Engine::encode(&base64::engine::general_purpose::STANDARD, data).into_bytes()
}

/// The SASL `PLAIN` message (RFC 4616) with an empty authorization
/// identity: `NUL user NUL pass`.
pub open spec fn sasl_plain_message(user: Seq<u8>, pass: Seq<u8>) -> Seq<u8> {
    seq![0u8] + user + seq![0u8] + pass
}

/// The SASL `PLAIN` message for `user` and `pass`.
pub fn sasl_plain(user: &str, pass: &str) -> (r: Vec<u8>)
    ensures
        r@ == sasl_plain_message(user.spec_bytes(), pass.spec_bytes()),
{
    let mut sasl: Vec<u8> = Vec::new();
    sasl.push(0u8);
    sasl.extend_from_slice(user.as_bytes());
    sasl.push(0u8);
    sasl.extend_from_slice(pass.as_bytes());
    assert(sasl@ =~= sasl_plain_message(user.spec_bytes(), pass.spec_bytes()));
    sasl
}

/// A client line in answer to a continuation request: the bytes, then CRLF.
pub fn continuation_line(encoded: Vec<u8>) -> (r: Vec<u8>)
    ensures
        r@ == encoded@ + seq![13u8, 10u8],
{
    let mut payload = encoded;
    payload.push(13u8);
    payload.push(10u8);
    assert(payload@ =~= encoded@ + seq![13u8, 10u8]);
    payload
}

/// Whether `b` holds a NUL byte.
fn contains_nul(b: &[u8]) -> (r: bool)
    ensures
        r == b@.contains(0u8),
{
    let mut i: usize = 0;
    while i < b.len()
        invariant
            i <= b@.len(),
            forall|j: int| 0 <= j < i ==> b@[j] != 0u8,
        decreases b@.len() - i,
    {
        if b[i] == 0 {
            assert(b@[i as int] == 0u8);
            return true;
        }
        i += 1;
    }
    false
}

/// The message of the error for a username holding NUL.
pub open spec fn user_nul_message() -> Seq<char> {
    "username must not contain NUL"@
}

/// The message of the error for a password holding NUL.
pub open spec fn pass_nul_message() -> Seq<char> {
    "password must not contain NUL"@
}

/// The client's answer to the `AUTHENTICATE PLAIN` continuation request:
/// the base64 of `NUL user NUL pass`, then CRLF. A username or password
/// holding NUL cannot travel in the SASL `PLAIN` message and is refused
/// with [`ClientError::CommandFailed`], the username first.
pub fn authenticate_plain_payload(user: &str, pass: &Password) -> (r: Result<Vec<u8>, ClientError>)
    requires
        4 * ((user.spec_bytes().len() + encode_utf8(pass@).len() + 4) / 3) <= usize::MAX,
    ensures
        user.spec_bytes().contains(0u8) ==> (r matches Err(ClientError::CommandFailed(m)) && m@ == user_nul_message()),
        !user.spec_bytes().contains(0u8) && encode_utf8(pass@).contains(0u8) ==> (r matches Err(ClientError::CommandFailed(m))
            && m@ == pass_nul_message()),
        !user.spec_bytes().contains(0u8) && !encode_utf8(pass@).contains(0u8) ==> (r matches Ok(p) && p@
            == base64_standard(sasl_plain_message(user.spec_bytes(), encode_utf8(pass@))) + seq![13u8, 10u8]),
{
    if contains_nul(user.as_bytes()) {
        return Err(ClientError::CommandFailed(String::from_str("username must not contain NUL")));
    }
    let p = pass.as_str();
    if contains_nul(p.as_bytes()) {
        return Err(ClientError::CommandFailed(String::from_str("password must not contain NUL")));
    }
    let sasl = sasl_plain(user, p);
    let encoded = base64_encode_standard(sasl.as_slice());
    Ok(continuation_line(encoded))
}

// --- Continuation requests ----------------------------------------------

/// Whether `frame` is a continuation request (`+ …`).
pub open spec fn is_continuation_frame(frame: Seq<u8>) -> bool {
    frame.len() > 0 && frame[0] == 43u8
}

/// Whether `frame` is a continuation request (`+ …`).
pub fn is_continuation(frame: &[u8]) -> (r: bool)
    ensures
        r == is_continuation_frame(frame@),
{
    frame.len() > 0 && frame[0] == 43u8
}

/// What happened while waiting on the untagged-event channel.
pub enum WaitEvent {
    /// An untagged frame arrived.
    Frame(Vec<u8>),
    /// The channel was closed.
    Closed,
    /// The receiver fell behind and frames were dropped.
    Lagged,
    /// The deadline passed.
    TimedOut,
}

/// The message of the error for a lagged event channel.
pub open spec fn lagged_message() -> Seq<char> {
    "broadcast lagged; continuation may have been missed"@
}

/// One step of waiting for a continuation request: `Ok(true)` when it has
/// arrived, `Ok(false)` to keep waiting (an unrelated untagged frame),
/// else the error that ends the wait.
pub fn continuation_step(event: &WaitEvent) -> (r: Result<bool, ClientError>)
    ensures
        match event {
            WaitEvent::Frame(f) => r == Ok::<bool, ClientError>(is_continuation_frame(f@)),
            WaitEvent::Closed => r matches Err(ClientError::ConnectionClosed),
            WaitEvent::Lagged => r matches Err(ClientError::CommandFailed(m)) && m@ == lagged_message(),
            WaitEvent::TimedOut => r matches Err(ClientError::Timeout),
        },
        (r == Ok::<bool, ClientError>(false)) <==> keeps_waiting(*event),
{
    match event {
        WaitEvent::Frame(f) => Ok(is_continuation(f.as_slice())),
        WaitEvent::Closed => Err(ClientError::ConnectionClosed),
        WaitEvent::Lagged => Err(
            ClientError::CommandFailed(String::from_str("broadcast lagged; continuation may have been missed")),
        ),
        WaitEvent::TimedOut => Err(ClientError::Timeout),
    }
}

/// Whether `event` lets the wait go on: an untagged frame that is not a
/// continuation request.
pub open spec fn keeps_waiting(event: WaitEvent) -> bool {
    event matches WaitEvent::Frame(f) && !is_continuation_frame(f@)
}

/// The event that decides a wait over `events`, one [`continuation_step`]
/// each: the first one that does not keep it waiting (`None` while every
/// event so far keeps it waiting).
pub open spec fn deciding_event(events: Seq<WaitEvent>) -> Option<WaitEvent>
    decreases events.len(),
{
    if events.len() == 0 {
        None
    } else if keeps_waiting(events[0]) {
        deciding_event(events.drop_first())
    } else {
        Some(events[0])
    }
}

/// Waiting for a continuation request consumes and drops every untagged
/// frame that is not one, and ends at the first event that is: a `+`
/// frame (the wait succeeds), the channel closing, the receiver lagging or
/// the deadline passing (each its own error, as [`continuation_step`]
/// says); what comes after that event is never looked at.
pub proof fn lemma_wait_for_continuation(pre: Seq<WaitEvent>, event: WaitEvent, rest: Seq<WaitEvent>)
    requires
        forall|i: int| 0 <= i < pre.len() ==> keeps_waiting(#[trigger] pre[i]),
        !keeps_waiting(event),
    ensures
        deciding_event(pre) is None,
        deciding_event(pre + seq![event] + rest) == Some(event),
    decreases pre.len(),
{
    if pre.len() == 0 {
        assert(pre + seq![event] + rest =~= seq![event] + rest);
        assert((seq![event] + rest)[0] == event);
    } else {
        assert(keeps_waiting(pre[0]));
        let p1 = pre.drop_first();
        assert forall|i: int| 0 <= i < p1.len() implies keeps_waiting(#[trigger] p1[i]) by {
            assert(p1[i] == pre[i + 1]);
        }
        lemma_wait_for_continuation(p1, event, rest);
        assert((pre + seq![event] + rest)[0] == pre[0]);
        assert((pre + seq![event] + rest).drop_first() =~= p1 + seq![event] + rest);
    }
}

// --- FETCH and SEARCH results ---------------------------------------------

/// The structured result of one untagged `FETCH` response.
#[derive(Debug, Clone)]
pub struct FetchResult {
    /// The message sequence number.
    pub seq: u32,
    /// The message's UID, when fetched.
    pub uid: Option<u32>,
    /// The message body (`BODY[...]`, `BODY` or `RFC822`), when fetched.
    pub body: Option<Vec<u8>>,
}

/// The model of a fetch result: sequence number, UID, body.
pub type SpecFetchResult = (u32, Option<u32>, Option<Seq<u8>>);

/// The model of a [`FetchResult`].
pub open spec fn fetch_result_view(f: FetchResult) -> SpecFetchResult {
    (
        f.seq,
        f.uid,
        match f.body {
            Some(b) => Some(b@),
            None => None,
        },
    )
}

/// The UID and body after the first `n` attributes: a `UID` sets the UID;
/// a `BODY[...]` with data, a `BODY` or an `RFC822` sets the body; the
/// last one of each wins.
pub open spec fn fetch_fields(atts: Seq<SpecFetchAttribute>, n: int) -> (Option<u32>, Option<Seq<u8>>)
    decreases n,
{
    if n <= 0 || n > atts.len() {
        (None, None)
    } else {
        let prev = fetch_fields(atts, n - 1);
        match atts[n - 1] {
            SpecFetchAttribute::Uid(u) => (Some(u), prev.1),
            SpecFetchAttribute::BodySection { data: Some(d), .. } => (prev.0, Some(d)),
            SpecFetchAttribute::Body(b) => (prev.0, Some(b)),
            SpecFetchAttribute::Rfc822(b) => (prev.0, Some(b)),
            _ => prev,
        }
    }
}

/// The fetch result a response carries, if it is a `FETCH` response.
pub open spec fn fetch_result_spec(r: SpecResponse) -> Option<SpecFetchResult> {
    match r {
        SpecResponse::Data(SpecDataResponse::Fetch { seq, attributes }) => {
            let f = fetch_fields(attributes, attributes.len() as int);
            Some((seq, f.0, f.1))
        },
        _ => None,
    }
}

/// The body that a `FETCH` attribute carries: the data of any
/// `BODY[section]<origin>` that has data, whatever the section, or of a
/// `BODY` or an `RFC822`.
pub open spec fn carried_body(a: SpecFetchAttribute) -> Option<Seq<u8>> {
    match a {
        SpecFetchAttribute::BodySection { section: _, origin: _, data } => data,
        SpecFetchAttribute::Body(b) => Some(b),
        SpecFetchAttribute::Rfc822(b) => Some(b),
        _ => None,
    }
}

/// The UID that a `FETCH` attribute carries.
pub open spec fn carried_uid(a: SpecFetchAttribute) -> Option<u32> {
    match a {
        SpecFetchAttribute::Uid(u) => Some(u),
        _ => None,
    }
}

proof fn lemma_fetch_fields_step(atts: Seq<SpecFetchAttribute>, n: int)
    requires
        0 < n <= atts.len(),
    ensures
        fetch_fields(atts, n).1 == match carried_body(atts[n - 1]) {
            Some(b) => Some(b),
            None => fetch_fields(atts, n - 1).1,
        },
        fetch_fields(atts, n).0 == match carried_uid(atts[n - 1]) {
            Some(u) => Some(u),
            None => fetch_fields(atts, n - 1).0,
        },
{
}

proof fn lemma_fetch_fields_body(atts: Seq<SpecFetchAttribute>, n: int)
    requires
        0 <= n <= atts.len(),
    ensures
        (forall|i: int| 0 <= i < n ==> #[trigger] carried_body(atts[i]) is None) ==> fetch_fields(atts, n).1 is None,
        forall|i: int|
            0 <= i < n && #[trigger] carried_body(atts[i]) is Some && (forall|j: int| i < j < n ==> carried_body(atts[j]) is None)
                ==> fetch_fields(atts, n).1 == carried_body(atts[i]),
    decreases n,
{
    if n > 0 {
        lemma_fetch_fields_body(atts, n - 1);
        lemma_fetch_fields_step(atts, n);
        assert forall|i: int|
            0 <= i < n && #[trigger] carried_body(atts[i]) is Some && (forall|j: int| i < j < n ==> carried_body(atts[j]) is None)
                implies fetch_fields(atts, n).1 == carried_body(atts[i]) by {
            if i < n - 1 {
                assert(carried_body(atts[n - 1]) is None);
            }
        }
    }
}

proof fn lemma_fetch_fields_uid(atts: Seq<SpecFetchAttribute>, n: int)
    requires
        0 <= n <= atts.len(),
    ensures
        (forall|i: int| 0 <= i < n ==> #[trigger] carried_uid(atts[i]) is None) ==> fetch_fields(atts, n).0 is None,
        forall|i: int|
            0 <= i < n && #[trigger] carried_uid(atts[i]) is Some && (forall|j: int| i < j < n ==> carried_uid(atts[j]) is None)
                ==> fetch_fields(atts, n).0 == carried_uid(atts[i]),
    decreases n,
{
    if n > 0 {
        lemma_fetch_fields_uid(atts, n - 1);
        lemma_fetch_fields_step(atts, n);
        assert forall|i: int|
            0 <= i < n && #[trigger] carried_uid(atts[i]) is Some && (forall|j: int| i < j < n ==> carried_uid(atts[j]) is None)
                implies fetch_fields(atts, n).0 == carried_uid(atts[i]) by {
            if i < n - 1 {
                assert(carried_uid(atts[n - 1]) is None);
            }
        }
    }
}

/// What a `FETCH` response gives: its sequence number; as body, the body
/// carried by the last attribute that carries one (the data of a
/// `BODY[section]<origin>` whatever its section, a `BODY` or an `RFC822`),
/// none when no attribute carries one; as UID, that of the last `UID`
/// attribute, none when there is none. Any other response gives no result.
pub proof fn lemma_fetch_result(r: SpecResponse)
    ensures
        !(r is Data && r->Data_0 is Fetch) ==> fetch_result_spec(r) is None,
        r matches SpecResponse::Data(SpecDataResponse::Fetch { seq, attributes: atts }) ==> {
            &&& fetch_result_spec(r) matches Some(f) && f.0 == seq
            &&& (forall|i: int| 0 <= i < atts.len() ==> #[trigger] carried_body(atts[i]) is None)
                ==> fetch_result_spec(r)->Some_0.2 is None
            &&& forall|i: int|
                0 <= i < atts.len() && #[trigger] carried_body(atts[i]) is Some && (forall|j: int|
                    i < j < atts.len() ==> carried_body(atts[j]) is None) ==> fetch_result_spec(r)->Some_0.2
                    == carried_body(atts[i])
            &&& (forall|i: int| 0 <= i < atts.len() ==> #[trigger] carried_uid(atts[i]) is None)
                ==> fetch_result_spec(r)->Some_0.1 is None
            &&& forall|i: int|
                0 <= i < atts.len() && #[trigger] carried_uid(atts[i]) is Some && (forall|j: int|
                    i < j < atts.len() ==> carried_uid(atts[j]) is None) ==> fetch_result_spec(r)->Some_0.1
                    == carried_uid(atts[i])
        },
{
    if let SpecResponse::Data(SpecDataResponse::Fetch { seq, attributes }) = r {
        lemma_fetch_fields_body(attributes, attributes.len() as int);
        lemma_fetch_fields_uid(attributes, attributes.len() as int);
    }
}

/// The fetch result of a parsed response (see [`fetch_result_spec`]).
pub fn fetch_result_of(response: &Response<'_>) -> (r: Option<FetchResult>)
    ensures
        match r {
            Some(f) => fetch_result_spec(response@) == Some(fetch_result_view(f)),
            None => fetch_result_spec(response@) is None,
        },
{
    match response {
        Response::Data(DataResponse::Fetch { seq, attributes }) => {
            let ghost atts = crate::ast::atts_view(attributes@);
            let mut uid: Option<u32> = None;
            let mut body: Option<Vec<u8>> = None;
            let mut i: usize = 0;
            while i < attributes.len()
                invariant
                    i <= attributes@.len(),
                    atts == crate::ast::atts_view(attributes@),
                    fetch_fields(atts, i as int) == (uid, match body {
                        Some(b) => Some(b@),
                        None => None::<Seq<u8>>,
                    }),
                decreases attributes@.len() - i,
            {
                proof {
                    assert(atts[i as int] == attributes@[i as int]@);
                }
                match &attributes[i] {
                    FetchAttribute::Uid(u) => {
                        uid = Some(*u);
                    },
                    FetchAttribute::BodySection { data: Some(d), .. } => {
                        body = Some(vstd::slice::slice_to_vec(*d));
                    },
                    FetchAttribute::Body(b) => {
                        body = Some(vstd::slice::slice_to_vec(*b));
                    },
                    FetchAttribute::Rfc822(b) => {
                        body = Some(vstd::slice::slice_to_vec(*b));
                    },
                    _ => {},
                }
                i += 1;
            }
            Some(FetchResult { seq: *seq, uid, body })
        },
        _ => None,
    }
}

/// The fetch results that a run of untagged frames carries, in order:
/// one for each frame that parses to a `FETCH` response.
pub open spec fn fetch_results_spec(frames: Seq<Seq<u8>>) -> Seq<SpecFetchResult>
    decreases frames.len(),
{
    if frames.len() == 0 {
        Seq::empty()
    } else {
        let prev = fetch_results_spec(frames.drop_last());
        match parse_response_spec(frames.last()) {
            Ok((_, r)) => match fetch_result_spec(r) {
                Some(f) => prev.push(f),
                None => prev,
            },
            Err(_) => prev,
        }
    }
}

/// The models of a list of byte vectors.
pub open spec fn bytes_views(v: Seq<Vec<u8>>) -> Seq<Seq<u8>> {
    v.map_values(|b: Vec<u8>| b@)
}

/// The models of a list of fetch results.
pub open spec fn fetch_results_view(v: Seq<FetchResult>) -> Seq<SpecFetchResult> {
    v.map_values(|f: FetchResult| fetch_result_view(f))
}

/// The fetch results carried by the untagged frames that arrived while a
/// `FETCH` ran (see [`fetch_results_spec`]).
pub fn fetch_results_from_frames(frames: &[Vec<u8>]) -> (r: Vec<FetchResult>)
    ensures
        fetch_results_view(r@) == fetch_results_spec(bytes_views(frames@)),
{
    let mut results: Vec<FetchResult> = Vec::new();
    let mut i: usize = 0;
    while i < frames.len()
        invariant
            i <= frames@.len(),
            fetch_results_view(results@) == fetch_results_spec(bytes_views(frames@.subrange(0, i as int))),
        decreases frames@.len() - i,
    {
        let ghost before = results@;
        proof {
            assert(bytes_views(frames@.subrange(0, i + 1)).drop_last() =~= bytes_views(frames@.subrange(0, i as int)));
            assert(bytes_views(frames@.subrange(0, i + 1)).last() == frames@[i as int]@);
        }
        if let Ok((_, response)) = parse_response(frames[i].as_slice()) {
            if let Some(f) = fetch_result_of(&response) {
                results.push(f);
                proof {
                    assert(fetch_results_view(results@) =~= fetch_results_view(before).push(fetch_result_view(f)));
                }
            }
        }
        i += 1;
    }
    proof {
        assert(frames@.subrange(0, frames@.len() as int) =~= frames@);
    }
    results
}

/// The message numbers that a run of untagged frames carries: those of
/// every frame that parses to a `SEARCH` response, concatenated in order.
pub open spec fn search_ids_spec(frames: Seq<Seq<u8>>) -> Seq<u32>
    decreases frames.len(),
{
    if frames.len() == 0 {
        Seq::empty()
    } else {
        let prev = search_ids_spec(frames.drop_last());
        match parse_response_spec(frames.last()) {
            Ok((_, SpecResponse::Data(SpecDataResponse::Search(ids)))) => prev + ids,
            _ => prev,
        }
    }
}

/// The message numbers carried by the untagged frames that arrived while
/// a `SEARCH` ran (see [`search_ids_spec`]).
pub fn search_ids_from_frames(frames: &[Vec<u8>]) -> (r: Vec<u32>)
    ensures
        r@ == search_ids_spec(bytes_views(frames@)),
{
    let mut all_ids: Vec<u32> = Vec::new();
    let mut i: usize = 0;
    while i < frames.len()
        invariant
            i <= frames@.len(),
            all_ids@ == search_ids_spec(bytes_views(frames@.subrange(0, i as int))),
        decreases frames@.len() - i,
    {
        proof {
            assert(bytes_views(frames@.subrange(0, i + 1)).drop_last() =~= bytes_views(frames@.subrange(0, i as int)));
            assert(bytes_views(frames@.subrange(0, i + 1)).last() == frames@[i as int]@);
        }
        if let Ok((_, Response::Data(DataResponse::Search(ids)))) = parse_response(frames[i].as_slice()) {
            let mut j: usize = 0;
            let ghost before = all_ids@;
            while j < ids.len()
                invariant
                    j <= ids@.len(),
                    all_ids@ == before + ids@.subrange(0, j as int),
                decreases ids@.len() - j,
            {
                all_ids.push(ids[j]);
                assert(all_ids@ =~= before + ids@.subrange(0, j + 1));
                j += 1;
            }
            assert(ids@.subrange(0, ids@.len() as int) =~= ids@);
        }
        i += 1;
    }
    proof {
        assert(frames@.subrange(0, frames@.len() as int) =~= frames@);
    }
    all_ids
}

/// `bytes` decoded as UTF-8, each invalid sequence replaced by U+FFFD.
pub uninterp spec fn utf8_lossy(bytes: Seq<u8>) -> Seq<char>;

/// Decode `bytes` as UTF-8, replacing invalid sequences.
///
/// Wraps `String::from_utf8_lossy` (then `into_owned`). On valid UTF-8 the
/// documentation promises the plain decoding; otherwise each invalid
/// sequence becomes U+FFFD, which is left to the name `utf8_lossy`.
#[verifier::external_body]
fn lossy_text(bytes: &[u8]) -> (r: String)
    ensures
        r@ == utf8_lossy(bytes@),
        valid_utf8(bytes@) ==> r@ == decode_utf8(bytes@),
{
    String::from_utf8_lossy(bytes).into_owned()
}

/// The body of the first fetch result, as text, if it has one.
pub fn first_body_text(results: &[FetchResult]) -> (r: Option<String>)
    ensures
        match r {
            Some(t) => {
                &&& results@.len() > 0
                &&& results@[0].body matches Some(b) && t@ == utf8_lossy(b@)
            },
            None => results@.len() == 0 || results@[0].body is None,
        },
{
    if results.len() == 0 {
        return None;
    }
    match &results[0].body {
        Some(b) => Some(lossy_text(b.as_slice())),
        None => None,
    }
}

} // verus!
