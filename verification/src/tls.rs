//! The decisions of the cleartext `STARTTLS` exchange (RFC 3501 §6.2.1)
//! that precedes a TLS handshake on port 143, and of the greeting read
//! after the handshake.
//!
//! The exchange reads the greeting, runs `CAPABILITY` under tag `T0001`,
//! checks that `STARTTLS` is advertised, then runs `STARTTLS` under tag
//! `T0002`. Capabilities seen before TLS are only used for that check:
//! they are never trusted afterwards.

use vstd::prelude::*;
use vstd::string::{StringExecFns, StringSliceAdditionalSpecFns};
use vstd::utf8::encode_utf8_decode_utf8;

use crate::ast::{Response, SpecResponse, Status};
use crate::capabilities::{caps_from, caps_of_frame, capability_list, no_caps, texts_bytes, Capabilities};
use crate::error::{ClientError, ParseError};
use crate::client::reads_concat;
use crate::grammar::parse_response_spec;
use crate::incremental::{lemma_first_frame_any_split, lemma_response_length};
use crate::parser::parse_response;

verus! {

/// The tag of the pre-TLS `CAPABILITY` command.
pub open spec fn capability_tag() -> Seq<char> {
    "T0001"@
}

/// The tag of the `STARTTLS` command.
pub open spec fn starttls_tag() -> Seq<char> {
    "T0002"@
}

/// The message of the error for a frame that does not parse.
pub open spec fn malformed_message() -> Seq<char> {
    "malformed pre-TLS response"@
}

/// The message of the error for a server without `STARTTLS`.
pub open spec fn no_starttls_message() -> Seq<char> {
    "server does not advertise STARTTLS"@
}

/// The status and text of `r` when it is a status response tagged `tag`.
pub open spec fn tagged_status(r: SpecResponse, tag: Seq<char>) -> Option<(Status, Seq<char>)> {
    match r {
        SpecResponse::Status(s) => if s.tag == Some(tag) {
            Some((s.status, s.text))
        } else {
            None
        },
        _ => None,
    }
}

/// Whether `t` is the text of `lit`, compared byte for byte.
fn text_is(t: &str, lit: &str) -> (r: bool)
    ensures
        r == (t@ == lit@),
{
    let a = t.as_bytes();
    let b = lit.as_bytes();
    let mut same = a.len() == b.len();
    let mut i: usize = 0;
    while same && i < a.len()
        invariant
            a@ == t.spec_bytes(),
            b@ == lit.spec_bytes(),
            i <= a@.len(),
            same ==> a@.len() == b@.len(),
            same ==> a@.subrange(0, i as int) == b@.subrange(0, i as int),
            !same ==> a@ != b@,
        decreases a@.len() - i,
    {
        if a[i] != b[i] {
            same = false;
        } else {
            assert(a@.subrange(0, i + 1) =~= a@.subrange(0, i as int).push(a@[i as int]));
            assert(b@.subrange(0, i + 1) =~= b@.subrange(0, i as int).push(b@[i as int]));
        }
        i += 1;
    }
    proof {
        if same {
            assert(a@ =~= a@.subrange(0, a@.len() as int));
            assert(b@ =~= b@.subrange(0, b@.len() as int));
        }
        encode_utf8_decode_utf8(t@);
        encode_utf8_decode_utf8(lit@);
    }
    same
}

/// The status and text of `response` when it is a status response tagged
/// `tag` (see [`tagged_status`]).
fn tagged_status_of<'a>(response: &Response<'a>, tag: &str) -> (r: Option<(Status, &'a str)>)
    ensures
        match r {
            Some((st, tx)) => tagged_status(response@, tag@) == Some((st, tx@)),
            None => tagged_status(response@, tag@) is None,
        },
{
    match response {
        Response::Status(s) => match s.tag {
            Some(t) => if text_is(t, tag) {
                Some((s.status, s.text))
            } else {
                None
            },
            None => None,
        },
        _ => None,
    }
}

/// What to make of the bytes buffered before TLS: `Ok(Some(n))` when the
/// first `n` bytes are one complete response frame, `Ok(None)` when more
/// bytes must be read first, and an error for bytes that can never parse.
pub fn pre_tls_frame(buf: &[u8]) -> (r: Result<Option<usize>, ClientError>)
    ensures
        buf@.len() == 0 ==> r == Ok::<Option<usize>, ClientError>(None),
        buf@.len() > 0 ==> match parse_response_spec(buf@) {
            Ok((n, _)) => r == Ok::<Option<usize>, ClientError>(Some(n as usize)) && n <= buf@.len(),
            Err(ParseError::Incomplete) => r == Ok::<Option<usize>, ClientError>(None),
            Err(_) => r matches Err(ClientError::CommandFailed(m)) && m@ == malformed_message(),
        },
{
    if buf.len() == 0 {
        return Ok(None);
    }
    match parse_response(buf) {
        Ok((remaining, _)) => Ok(Some(buf.len() - remaining.len())),
        Err(ParseError::Incomplete) => Ok(None),
        Err(_) => Err(ClientError::CommandFailed(String::from_str("malformed pre-TLS response"))),
    }
}

/// `prefix` followed by `text`.
fn failure_text(prefix: &str, text: &str) -> (r: String)
    ensures
        r@ == prefix@ + text@,
{
    let mut out = String::from_str(prefix);
    out.append(text);
    out
}

/// What a frame read while awaiting the `CAPABILITY` reply does: the
/// tagged reply ends the wait (`Ok(true)`), or fails it when it is not
/// `OK`; any other frame that parses may carry capabilities, which
/// replace `caps`; a frame that does not parse is skipped.
pub fn capability_reply_step(caps: &mut Capabilities, frame: &[u8]) -> (r: Result<bool, ClientError>)
    ensures
        match parse_response_spec(frame@) {
            Ok((_, resp)) => match tagged_status(resp, capability_tag()) {
                Some((Status::Okay, _)) => r == Ok::<bool, ClientError>(true) && *final(caps) == *old(caps),
                Some((_, text)) => (r matches Err(ClientError::CommandFailed(m)) && m@ == "CAPABILITY failed: "@ + text)
                    && *final(caps) == *old(caps),
                None => r == Ok::<bool, ClientError>(false) && *final(caps) == match capability_list(resp) {
                    Some(v) => caps_from(texts_bytes(v)),
                    None => *old(caps),
                },
            },
            Err(_) => r == Ok::<bool, ClientError>(false) && *final(caps) == *old(caps),
        },
        step_agrees(r, cap_step(*old(caps), frame@).0),
        *final(caps) == cap_step(*old(caps), frame@).1,
{
    let response = match parse_response(frame) {
        Ok((_, response)) => response,
        Err(_) => return Ok(false),
    };
    match tagged_status_of(&response, "T0001") {
        Some((Status::Okay, _)) => Ok(true),
        Some((_, text)) => Err(ClientError::CommandFailed(failure_text("CAPABILITY failed: ", text))),
        None => {
            caps.try_update_from(&response);
            Ok(false)
        },
    }
}

/// The check between the two round-trips: the server must advertise
/// `STARTTLS`.
pub fn require_starttls(caps: &Capabilities) -> (r: Result<(), ClientError>)
    ensures
        caps.starttls ==> r is Ok,
        !caps.starttls ==> (r matches Err(ClientError::CommandFailed(m)) && m@ == no_starttls_message()),
{
    if !caps.starttls {
        return Err(ClientError::CommandFailed(String::from_str("server does not advertise STARTTLS")));
    }
    Ok(())
}

/// What a frame read while awaiting the `STARTTLS` reply does: the tagged
/// `OK` ends the exchange (`Ok(true)`, the stream is ready for the TLS
/// handshake), another tagged status fails it, and anything else is
/// skipped (`Ok(false)`).
pub fn starttls_reply_step(frame: &[u8]) -> (r: Result<bool, ClientError>)
    ensures
        match parse_response_spec(frame@) {
            Ok((_, resp)) => match tagged_status(resp, starttls_tag()) {
                Some((Status::Okay, _)) => r == Ok::<bool, ClientError>(true),
                Some((_, text)) => r matches Err(ClientError::CommandFailed(m)) && m@ == "STARTTLS rejected: "@ + text,
                None => r == Ok::<bool, ClientError>(false),
            },
            Err(_) => r == Ok::<bool, ClientError>(false),
        },
        step_agrees(r, starttls_step(frame@)),
{
    let response = match parse_response(frame) {
        Ok((_, response)) => response,
        Err(_) => return Ok(false),
    };
    match tagged_status_of(&response, "T0002") {
        Some((Status::Okay, _)) => Ok(true),
        Some((_, text)) => Err(ClientError::CommandFailed(failure_text("STARTTLS rejected: ", text))),
        None => Ok(false),
    }
}

// ---------------------------------------------------------------------------
// The exchange as a whole
// ---------------------------------------------------------------------------

/// The status and text of the reply tagged `tag` that `frame` is, if it
/// parses to one.
pub open spec fn reply_status(frame: Seq<u8>, tag: Seq<char>) -> Option<(Status, Seq<char>)> {
    match parse_response_spec(frame) {
        Ok((_, resp)) => tagged_status(resp, tag),
        Err(_) => None,
    }
}

/// A step's result, as the model of the exchange writes it: `Ok(done)`,
/// or `Err(m)` for [`ClientError::CommandFailed`] with message `m`.
pub open spec fn step_agrees(r: Result<bool, ClientError>, m: Result<bool, Seq<char>>) -> bool {
    match m {
        Ok(b) => r == Ok::<bool, ClientError>(b),
        Err(t) => r matches Err(ClientError::CommandFailed(e)) && e@ == t,
    }
}

/// What [`capability_reply_step`] does with `frame` when the capabilities
/// gathered so far are `caps`: its result and the capabilities after it.
pub open spec fn cap_step(caps: Capabilities, frame: Seq<u8>) -> (Result<bool, Seq<char>>, Capabilities) {
    match reply_status(frame, capability_tag()) {
        Some((Status::Okay, _)) => (Ok(true), caps),
        Some((_, text)) => (Err("CAPABILITY failed: "@ + text), caps),
        None => (Ok(false), match caps_of_frame(frame) {
            Some(c) => c,
            None => caps,
        }),
    }
}

/// What [`starttls_reply_step`] does with `frame`.
pub open spec fn starttls_step(frame: Seq<u8>) -> Result<bool, Seq<char>> {
    match reply_status(frame, starttls_tag()) {
        Some((Status::Okay, _)) => Ok(true),
        Some((_, text)) => Err("STARTTLS rejected: "@ + text),
        None => Ok(false),
    }
}

/// The `CAPABILITY` round-trip run over the frames read after the command,
/// one [`capability_reply_step`] each, from `caps`: how it ended (`None`
/// while still waiting when the frames run out) and the capabilities
/// gathered.
pub open spec fn cap_phase(caps: Capabilities, frames: Seq<Seq<u8>>) -> (Option<Result<(), Seq<char>>>, Capabilities)
    decreases frames.len(),
{
    if frames.len() == 0 {
        (None, caps)
    } else {
        match cap_step(caps, frames[0]) {
            (Ok(true), c) => (Some(Ok(())), c),
            (Err(m), c) => (Some(Err(m)), c),
            (Ok(false), c) => cap_phase(c, frames.drop_first()),
        }
    }
}

/// The `STARTTLS` round-trip run over the frames read after the command,
/// one [`starttls_reply_step`] each (`None` while still waiting).
pub open spec fn starttls_phase(frames: Seq<Seq<u8>>) -> Option<Result<(), Seq<char>>>
    decreases frames.len(),
{
    if frames.len() == 0 {
        None
    } else {
        match starttls_step(frames[0]) {
            Ok(true) => Some(Ok(())),
            Err(m) => Some(Err(m)),
            Ok(false) => starttls_phase(frames.drop_first()),
        }
    }
}

/// The whole cleartext exchange after the greeting: the `CAPABILITY`
/// round-trip over `cap_frames`, the check for `STARTTLS` (the `STARTTLS`
/// command is only sent when it passes), then the `STARTTLS` round-trip over
/// `tls_frames`.
pub open spec fn starttls_exchange(cap_frames: Seq<Seq<u8>>, tls_frames: Seq<Seq<u8>>) -> Option<Result<(), Seq<char>>> {
    match cap_phase(no_caps(), cap_frames) {
        (Some(Ok(())), caps) => if caps.starttls {
            starttls_phase(tls_frames)
        } else {
            Some(Err(no_starttls_message()))
        },
        (other, _) => other,
    }
}

/// The capability set of the last frame of `frames` that carries one.
pub open spec fn last_caps(frames: Seq<Seq<u8>>) -> Option<Capabilities>
    decreases frames.len(),
{
    if frames.len() == 0 {
        None
    } else {
        match caps_of_frame(frames.last()) {
            Some(c) => Some(c),
            None => last_caps(frames.drop_last()),
        }
    }
}

/// No frame of `frames` is the reply tagged `tag`.
pub open spec fn none_tagged(frames: Seq<Seq<u8>>, tag: Seq<char>) -> bool {
    forall|i: int| 0 <= i < frames.len() ==> #[trigger] reply_status(frames[i], tag) is None
}

proof fn lemma_cap_phase_untagged(caps: Capabilities, u: Seq<Seq<u8>>, w: Seq<Seq<u8>>)
    requires
        none_tagged(u, capability_tag()),
    ensures
        cap_phase(caps, u + w) == cap_phase(
            match last_caps(u) {
                Some(c) => c,
                None => caps,
            },
            w,
        ),
    decreases u.len(),
{
    if u.len() > 0 {
        let x = u.last();
        let u1 = u.drop_last();
        assert(reply_status(u[u.len() - 1], capability_tag()) is None);
        assert(none_tagged(u1, capability_tag())) by {
            assert forall|i: int| 0 <= i < u1.len() implies #[trigger] reply_status(u1[i], capability_tag()) is None by {
                assert(u1[i] == u[i]);
            }
        }
        assert(u + w =~= u1 + (seq![x] + w));
        lemma_cap_phase_untagged(caps, u1, seq![x] + w);
        assert((seq![x] + w)[0] == x);
        assert((seq![x] + w).drop_first() =~= w);
    }
}

proof fn lemma_starttls_phase_untagged(v: Seq<Seq<u8>>, w: Seq<Seq<u8>>)
    requires
        none_tagged(v, starttls_tag()),
    ensures
        starttls_phase(v + w) == starttls_phase(w),
    decreases v.len(),
{
    if v.len() > 0 {
        assert(reply_status(v[0], starttls_tag()) is None);
        assert(none_tagged(v.drop_first(), starttls_tag())) by {
            assert forall|i: int| 0 <= i < v.drop_first().len() implies #[trigger] reply_status(
                v.drop_first()[i],
                starttls_tag(),
            ) is None by {
                assert(v.drop_first()[i] == v[i + 1]);
            }
        }
        assert((v + w)[0] == v[0]);
        assert((v + w).drop_first() =~= v.drop_first() + w);
        lemma_starttls_phase_untagged(v.drop_first(), w);
    }
}

/// The cleartext exchange succeeds exactly when the `CAPABILITY` reply is
/// `OK`, the last capability list the server sent before it advertises
/// `STARTTLS`, and the `STARTTLS` reply is `OK`; each refusal is a
/// `CommandFailed` with its own message, and the first one ends the
/// exchange. Untagged frames, and replies to other tags, in between change
/// nothing but the capability list.
pub proof fn lemma_starttls_exchange(u: Seq<Seq<u8>>, t1: Seq<u8>, v: Seq<Seq<u8>>, t2: Seq<u8>)
    requires
        none_tagged(u, capability_tag()),
        reply_status(t1, capability_tag()) is Some,
        none_tagged(v, starttls_tag()),
        reply_status(t2, starttls_tag()) is Some,
    ensures
        ({
            let (st1, text1) = reply_status(t1, capability_tag())->Some_0;
            let (st2, text2) = reply_status(t2, starttls_tag())->Some_0;
            starttls_exchange(u.push(t1), v.push(t2)) == Some(
                if st1 != Status::Okay {
                    Err("CAPABILITY failed: "@ + text1)
                } else if !(last_caps(u) matches Some(c) && c.starttls) {
                    Err(no_starttls_message())
                } else if st2 != Status::Okay {
                    Err("STARTTLS rejected: "@ + text2)
                } else {
                    Ok(())
                },
            )
        }),
        starttls_exchange(u.push(t1), v.push(t2)) == Some(Ok::<(), Seq<char>>(())) <==> (
            reply_status(t1, capability_tag()) matches Some((Status::Okay, _))
            && last_caps(u) matches Some(c) && c.starttls
            && reply_status(t2, starttls_tag()) matches Some((Status::Okay, _))),
{
    let e = Seq::<Seq<u8>>::empty();
    assert(u.push(t1) =~= u + seq![t1]);
    lemma_cap_phase_untagged(no_caps(), u, seq![t1]);
    assert(seq![t1][0] == t1);
    assert(seq![t1].drop_first() =~= e);
    assert(v.push(t2) =~= v + seq![t2]);
    lemma_starttls_phase_untagged(v, seq![t2]);
    assert(seq![t2][0] == t2);
    assert(seq![t2].drop_first() =~= e);
    assert(!no_caps().starttls);
}

// ---------------------------------------------------------------------------
// Reading one frame
// ---------------------------------------------------------------------------

/// Reading one frame before TLS from buffer `buf`, the reads `reads`
/// arriving one by one: [`pre_tls_frame`] is asked first and after each
/// read. `Some(Ok((frame, rest)))` when a frame is split off, with what
/// stays buffered; `Some(Err(()))` for a malformed buffer; `None` when the
/// reads run out first (the stream closes or the deadline passes).
pub open spec fn read_one_frame_fold(buf: Seq<u8>, reads: Seq<Seq<u8>>) -> Option<Result<(Seq<u8>, Seq<u8>), ()>>
    decreases reads.len(),
{
    if buf.len() == 0 || parse_response_spec(buf) == Err::<(int, SpecResponse), ParseError>(ParseError::Incomplete) {
        if reads.len() == 0 {
            None
        } else {
            read_one_frame_fold(buf + reads[0], reads.drop_first())
        }
    } else {
        match parse_response_spec(buf) {
            Ok((n, _)) => Some(Ok((buf.subrange(0, n), buf.subrange(n, buf.len() as int)))),
            Err(_) => Some(Err(())),
        }
    }
}

/// However a stream that starts with a response arrives, split into reads,
/// reading one frame never fails as malformed and never runs out of reads:
/// it splits off exactly the stream's first response, and what stays
/// buffered is the bytes read after it, in order.
pub proof fn lemma_read_one_frame(buf: Seq<u8>, reads: Seq<Seq<u8>>)
    requires
        parse_response_spec(buf + reads_concat(reads)) is Ok,
    ensures
        read_one_frame_fold(buf, reads) matches Some(Ok((frame, rest))) && parse_response_spec(
            buf + reads_concat(reads),
        ) matches Ok((n, _)) && frame == (buf + reads_concat(reads)).subrange(0, n) && n + rest.len()
            <= (buf + reads_concat(reads)).len() && frame + rest == (buf + reads_concat(reads)).subrange(
            0,
            n + rest.len(),
        ),
    decreases reads.len(),
{
    let t = buf + reads_concat(reads);
    assert(buf =~= t.subrange(0, buf.len() as int));
    lemma_first_frame_any_split(t, buf.len() as int);
    lemma_response_length(t);
    if reads.len() == 0 {
        assert(t =~= buf);
        assert(buf.subrange(0, buf.len() as int) =~= buf);
    } else {
        let b1 = buf + reads[0];
        assert(t =~= b1 + reads_concat(reads.drop_first()));
        if buf.len() > 0 && parse_response_spec(buf) is Ok {
            let n = parse_response_spec(buf)->Ok_0.0;
            assert(buf.subrange(0, n) + buf.subrange(n, buf.len() as int) =~= t.subrange(0, buf.len() as int));
        } else {
            lemma_read_one_frame(b1, reads.drop_first());
        }
    }
}

/// The buffer once the first `k` of `reads` have arrived after `buf`.
pub open spec fn buffered_after(buf: Seq<u8>, reads: Seq<Seq<u8>>, k: int) -> Seq<u8> {
    buf + reads_concat(reads.take(k))
}

/// Whatever bytes arrive, reading one frame before TLS splits off a frame
/// only from the bytes buffered at that moment (those it started with, then
/// the reads in order): the frame and what stays buffered are exactly
/// those bytes, and the frame is the response they begin with, so nothing
/// is lost or reordered. It fails as malformed only when those bytes begin
/// with a parse error other than `Incomplete`.
pub proof fn lemma_read_one_frame_buffer(buf: Seq<u8>, reads: Seq<Seq<u8>>)
    ensures
        read_one_frame_fold(buf, reads) matches Some(Ok((frame, rest))) ==> exists|k: int|
            0 <= k <= reads.len() && frame + rest == #[trigger] buffered_after(buf, reads, k)
                && (parse_response_spec(frame + rest) matches Ok((n, _)) && n == frame.len()),
        read_one_frame_fold(buf, reads) matches Some(Err(_)) ==> exists|k: int|
            0 <= k <= reads.len() && (parse_response_spec(#[trigger] buffered_after(buf, reads, k)) matches Err(e)
                && e != ParseError::Incomplete),
    decreases reads.len(),
{
    assert(buffered_after(buf, reads, 0) =~= buf) by {
        assert(reads.take(0) =~= Seq::<Seq<u8>>::empty());
    }
    if buf.len() > 0 && parse_response_spec(buf) != Err::<(int, SpecResponse), ParseError>(ParseError::Incomplete) {
        if let Ok((n, _)) = parse_response_spec(buf) {
            lemma_response_length(buf);
            assert(buf.subrange(0, n) + buf.subrange(n, buf.len() as int) =~= buf);
        }
    } else if reads.len() > 0 {
        let b1 = buf + reads[0];
        let tail = reads.drop_first();
        lemma_read_one_frame_buffer(b1, tail);
        assert forall|k: int| 0 <= k <= tail.len() implies #[trigger] buffered_after(b1, tail, k) == buffered_after(
            buf,
            reads,
            k + 1,
        ) by {
            let t = reads.take(k + 1);
            assert(t[0] == reads[0]);
            assert(t.drop_first() =~= tail.take(k));
            assert(reads_concat(t) == t[0] + reads_concat(t.drop_first()));
            assert(buf + (reads[0] + reads_concat(tail.take(k))) =~= b1 + reads_concat(tail.take(k)));
        }
        if let Some(Ok((frame, rest))) = read_one_frame_fold(b1, tail) {
            let k = choose|k: int|
                0 <= k <= tail.len() && frame + rest == #[trigger] buffered_after(b1, tail, k)
                    && (parse_response_spec(frame + rest) matches Ok((n, _)) && n == frame.len());
            assert(buffered_after(buf, reads, k + 1) == buffered_after(b1, tail, k));
        }
        if let Some(Err(_)) = read_one_frame_fold(b1, tail) {
            let k = choose|k: int|
                0 <= k <= tail.len() && (parse_response_spec(#[trigger] buffered_after(b1, tail, k)) matches Err(e)
                    && e != ParseError::Incomplete);
            assert(buffered_after(buf, reads, k + 1) == buffered_after(b1, tail, k));
        }
    }
}

} // verus!
