//! The decisions of the command dispatcher: tag allocation, the wire form
//! of a tagged command, splitting a read buffer into response frames,
//! routing a tagged status response back to its command, and the
//! in-flight frame size guard.
//!
//! ## Routing semantics
//!
//! Each command is assigned a monotonically-increasing tag. Every frame is
//! parsed: tagged status frames go back to the awaiting caller; untagged
//! frames (data, status, continuation) are broadcast. Tagged frames whose
//! status is `NO` or `BAD` are converted to [`ClientError::CommandFailed`]
//! before being delivered, so callers don't need to re-parse the wire
//! bytes to discover failure.

use vstd::prelude::*;
use vstd::string::StringSliceAdditionalSpecFns;

use crate::ast::{Response, SpecResponse, Status};
use crate::error::{ClientError, ParseError};
use crate::grammar::{digits_value, is_digit, parse_response_spec, MAX_LITERAL_SIZE};
use crate::incremental::{lemma_first_frame_any_split, lemma_parse_response_extends, lemma_response_length};
use crate::parser::parse_response;

verus! {

/// Hard ceiling on the bytes buffered for a single in-flight response frame.
/// Bounds the read buffer so a hostile server cannot exhaust memory by
/// streaming a frame that never terminates (e.g. an unterminated quoted
/// string, or a line with no CRLF) — the parser would otherwise keep
/// returning [`ParseError::Incomplete`] while the buffer grows without
/// limit. Sized to admit one maximal literal plus protocol overhead.
pub const MAX_FRAME_SIZE: usize = MAX_LITERAL_SIZE + 64 * 1024;

// ---------------------------------------------------------------------------
// Tags
// ---------------------------------------------------------------------------

/// The ASCII decimal digits of `n`, most significant first, without
/// leading zeros.
pub open spec fn decimal_digits(n: nat) -> Seq<u8>
    decreases n,
{
    if n < 10 {
        seq![(48 + n) as u8]
    } else {
        decimal_digits(n / 10).push((48 + n % 10) as u8)
    }
}

/// `d` preceded by as many `0` digits as it takes to reach `width`.
pub open spec fn zero_padded(d: Seq<u8>, width: nat) -> Seq<u8> {
    if d.len() >= width {
        d
    } else {
        Seq::new((width - d.len()) as nat, |_i: int| 48u8) + d
    }
}

/// The tag of the command numbered `n`: `A` and `n` in decimal, padded
/// with zeros to at least four digits (`A0001`, …, `A9999`, `A10000`).
pub open spec fn tag_for(n: nat) -> Seq<u8> {
    seq![65u8] + zero_padded(decimal_digits(n), 4)
}

proof fn lemma_decimal_len(n: nat)
    ensures
        decimal_digits(n).len() >= 1,
        n < 10 ==> decimal_digits(n).len() == 1,
        10 <= n < 100 ==> decimal_digits(n).len() == 2,
        100 <= n < 1000 ==> decimal_digits(n).len() == 3,
        1000 <= n ==> decimal_digits(n).len() >= 4,
    decreases n,
{
    if n >= 10 {
        lemma_decimal_len(n / 10);
    }
}

/// Two digit runs that hold the same bytes have the same value.
proof fn lemma_digits_value_same(s: Seq<u8>, a: int, b: int, t: Seq<u8>, c: int)
    requires
        0 <= a <= b <= s.len(),
        0 <= c,
        c + (b - a) <= t.len(),
        s.subrange(a, b) == t.subrange(c, c + (b - a)),
    ensures
        digits_value(s, a, b) == digits_value(t, c, c + (b - a)),
    decreases b - a,
{
    if b > a {
        assert(s.subrange(a, b - 1) =~= s.subrange(a, b).subrange(0, b - 1 - a));
        assert(t.subrange(c, c + (b - 1 - a)) =~= t.subrange(c, c + (b - a)).subrange(0, b - 1 - a));
        lemma_digits_value_same(s, a, b - 1, t, c);
        assert(s[b - 1] == s.subrange(a, b)[b - 1 - a]);
        assert(t[c + (b - a) - 1] == t.subrange(c, c + (b - a))[b - 1 - a]);
    }
}

/// Leading zeros do not change the value of a digit run.
proof fn lemma_digits_value_leading_zeros(s: Seq<u8>, a: int, k: int, b: int)
    requires
        0 <= a <= a + k <= b <= s.len(),
        forall|i: int| a <= i < a + k ==> s[i] == 48,
    ensures
        digits_value(s, a, b) == digits_value(s, a + k, b),
    decreases b - a,
{
    if b > a + k {
        lemma_digits_value_leading_zeros(s, a, k, b - 1);
    } else {
        lemma_digits_value_zeros(s, a, b);
    }
}

proof fn lemma_digits_value_zeros(s: Seq<u8>, a: int, b: int)
    requires
        0 <= a <= b <= s.len(),
        forall|i: int| a <= i < b ==> s[i] == 48,
    ensures
        digits_value(s, a, b) == 0,
    decreases b - a,
{
    if b > a {
        lemma_digits_value_zeros(s, a, b - 1);
    }
}

proof fn lemma_decimal_value(n: nat)
    ensures
        digits_value(decimal_digits(n), 0, decimal_digits(n).len() as int) == n,
        forall|i: int| 0 <= i < decimal_digits(n).len() ==> #[trigger] is_digit(decimal_digits(n)[i]),
    decreases n,
{
    let d = decimal_digits(n);
    if n < 10 {
        assert(digits_value(d, 0, 0) == 0);
        assert(digits_value(d, 0, 1) == digits_value(d, 0, 0) * 10 + (d[0] - 48) as nat);
    } else {
        let p = decimal_digits(n / 10);
        lemma_decimal_value(n / 10);
        assert(d == p.push((48 + n % 10) as u8));
        assert(d[p.len() as int] == (48 + n % 10) as u8);
        assert(digits_value(d, 0, d.len() as int) == digits_value(d, 0, p.len() as int) * 10 + (d[p.len() as int] - 48) as nat);
        assert(d.subrange(0, p.len() as int) =~= p.subrange(0, p.len() as int));
        lemma_digits_value_same(d, 0, p.len() as int, p, 0);
        assert(d.len() == p.len() + 1);
        assert((n / 10) * 10 + n % 10 == n);
        assert forall|i: int| 0 <= i < d.len() implies #[trigger] is_digit(d[i]) by {
            if i < p.len() {
                assert(d[i] == p[i]);
            }
        };
    }
}

/// A tag reads back as the number it was made from: after the leading `A`
/// come only ASCII digits, and their decimal value is the number.
pub proof fn lemma_tag_reads_back(n: nat)
    ensures
        tag_for(n).len() >= 5,
        tag_for(n)[0] == 65,
        forall|i: int| 1 <= i < tag_for(n).len() ==> #[trigger] is_digit(tag_for(n)[i]),
        digits_value(tag_for(n), 1, tag_for(n).len() as int) == n,
{
    let d = decimal_digits(n);
    let p = zero_padded(d, 4);
    let t = tag_for(n);
    lemma_decimal_len(n);
    lemma_decimal_value(n);
    let k: int = p.len() - d.len();
    assert(forall|i: int| 0 <= i < d.len() ==> p[k + i] == d[i]);
    assert(forall|i: int| 0 <= i < k ==> p[i] == 48);
    assert(forall|i: int| 0 <= i < p.len() ==> t[1 + i] == p[i]);
    assert forall|i: int| 1 <= i < t.len() implies #[trigger] is_digit(t[i]) by {
        assert(t[i] == p[i - 1]);
        if i - 1 >= k {
            assert(p[i - 1] == d[i - 1 - k]);
        }
    };
    assert(t.subrange(1, t.len() as int) =~= p.subrange(0, p.len() as int));
    lemma_digits_value_same(t, 1, t.len() as int, p, 0);
    lemma_digits_value_leading_zeros(p, 0, k, p.len() as int);
    assert(p.subrange(k, p.len() as int) =~= d.subrange(0, d.len() as int));
    lemma_digits_value_same(p, k, p.len() as int, d, 0);
}

/// Commands with different numbers never share a tag.
pub proof fn lemma_tags_distinct(a: nat, b: nat)
    requires
        a != b,
    ensures
        tag_for(a) != tag_for(b),
{
    lemma_tag_reads_back(a);
    lemma_tag_reads_back(b);
}

/// Append the decimal digits of `n` to `out`.
fn push_decimal(out: &mut Vec<u8>, n: u64)
    ensures
        final(out)@ == old(out)@ + decimal_digits(n as nat),
    decreases n,
{
    if n >= 10 {
        push_decimal(out, n / 10);
    }
    out.push((48 + n % 10) as u8);
}

/// The tag of the command numbered `n` (`A0001` for 1).
pub fn format_tag(n: u64) -> (r: Vec<u8>)
    ensures
        r@ == tag_for(n as nat),
{
    let mut out: Vec<u8> = Vec::new();
    out.push(65u8);
    proof {
        lemma_decimal_len(n as nat);
    }
    if n < 1000 {
        out.push(48u8);
    }
    if n < 100 {
        out.push(48u8);
    }
    if n < 10 {
        out.push(48u8);
    }
    let ghost zeros = out@.subrange(1, out@.len() as int);
    push_decimal(&mut out, n);
    proof {
        let d = decimal_digits(n as nat);
        assert(zeros.len() + d.len() >= 4);
        if d.len() < 4 {
            assert(zeros =~= Seq::new((4 - d.len()) as nat, |_i: int| 48u8));
        } else {
            assert(zeros.len() == 0);
        }
        assert(out@ =~= tag_for(n as nat));
    }
    out
}

/// The counter from which a connection draws its command tags. Tags are
/// formatted `A<counter>`, start at `A0001` and increase by one per
/// command (the counter wraps around after `u64::MAX`).
pub struct TagCounter {
    next: u64,
}

impl View for TagCounter {
    type V = u64;

    closed spec fn view(&self) -> u64 {
        self.next
    }
}

impl TagCounter {
    /// A counter whose first tag is `A0001`.
    pub fn new() -> (r: Self)
        ensures
            r@ == 1,
    {
        TagCounter { next: 1 }
    }

    /// Allocate a fresh tag and advance the counter.
    pub fn next_tag(&mut self) -> (r: Vec<u8>)
        ensures
            r@ == tag_for(old(self)@ as nat),
            final(self)@ == (if old(self)@ == u64::MAX { 0 } else { (old(self)@ + 1) as u64 }),
    {
        let tag = format_tag(self.next);
        self.next = if self.next == u64::MAX { 0 } else { self.next + 1 };
        tag
    }
}

/// The bytes of a tagged command on the wire: `<tag> <cmd>\r\n`.
pub open spec fn command_line_bytes(tag: Seq<u8>, cmd: Seq<u8>) -> Seq<u8> {
    tag + seq![32u8] + cmd + seq![13u8, 10u8]
}

/// Frame `cmd` under `tag` for the wire: `<tag> <cmd>\r\n`.
pub fn command_line(tag: &[u8], cmd: &str) -> (r: Vec<u8>)
    ensures
        r@ == command_line_bytes(tag@, cmd.spec_bytes()),
{
    let mut out: Vec<u8> = Vec::new();
    out.extend_from_slice(tag);
    out.push(32u8);
    out.extend_from_slice(cmd.as_bytes());
    out.push(13u8);
    out.push(10u8);
    assert(out@ =~= command_line_bytes(tag@, cmd.spec_bytes()));
    out
}

// ---------------------------------------------------------------------------
// Routing
// ---------------------------------------------------------------------------

/// Where a tagged status frame goes: the tag it answers, its status and
/// its resp-text.
pub struct Routing {
    /// The tag of the command the frame answers.
    pub tag: String,
    /// The status condition of the frame.
    pub status: Status,
    /// The human-readable text of the frame.
    pub text: String,
}

/// The model of a routing: tag, status, text.
pub type SpecRouting = (Seq<char>, Status, Seq<char>);

/// The routing a response calls for: only a tagged status response is
/// routed to a command; everything else is broadcast.
pub open spec fn routing_spec(r: SpecResponse) -> Option<SpecRouting> {
    match r {
        SpecResponse::Status(s) => match s.tag {
            Some(t) => Some((t, s.status, s.text)),
            None => None,
        },
        _ => None,
    }
}

/// The model of an optional routing.
pub open spec fn routing_view(r: Option<Routing>) -> Option<SpecRouting> {
    match r {
        Some(x) => Some((x.tag@, x.status, x.text@)),
        None => None,
    }
}

/// Every tagged status response is routed to the command that sent its
/// tag, whatever its status (`OK`, `NO`, `BAD`, `BYE` or `PREAUTH`), with
/// its status and text; every other response (untagged, data, continuation
/// request) is broadcast.
pub proof fn lemma_tagged_status_routed(r: SpecResponse)
    ensures
        routing_spec(r) is Some <==> (r is Status && r->Status_0.tag is Some),
        match r {
            SpecResponse::Status(s) => match s.tag {
                Some(t) => routing_spec(r) == Some((t, s.status, s.text)),
                None => true,
            },
            _ => true,
        },
{
}

/// The routing of a parsed response (see [`routing_spec`]).
pub fn routing_of(response: &Response<'_>) -> (r: Option<Routing>)
    ensures
        routing_view(r) == routing_spec(response@),
{
    match response {
        Response::Status(s) => match s.tag {
            Some(t) => Some(Routing { tag: t.to_owned(), status: s.status, text: s.text.to_owned() }),
            None => None,
        },
        _ => None,
    }
}

/// What the command that a tagged status frame answers receives:
/// the frame itself on `OK`; [`ClientError::CommandFailed`] with the
/// resp-text on `NO` or `BAD` (and on a tagged `PREAUTH`, which is only
/// valid as an untagged greeting); [`ClientError::ConnectionClosed`] on
/// `BYE`.
pub open spec fn tagged_reply_spec(status: Status, frame: Seq<u8>, text: Seq<char>, r: Result<Vec<u8>, ClientError>) -> bool {
    match status {
        Status::Okay => r matches Ok(f) && f@ == frame,
        Status::No | Status::Bad | Status::PreAuth => r matches Err(ClientError::CommandFailed(m)) && m@ == text,
        Status::Bye => r matches Err(ClientError::ConnectionClosed),
    }
}

/// The reply delivered to the command that a tagged status frame answers
/// (see [`tagged_reply_spec`]).
pub fn tagged_reply(status: Status, frame: Vec<u8>, text: String) -> (r: Result<Vec<u8>, ClientError>)
    ensures
        tagged_reply_spec(status, frame@, text@, r),
{
    match status {
        Status::Okay => Ok(frame),
        Status::No | Status::Bad => Err(ClientError::CommandFailed(text)),
        Status::Bye => Err(ClientError::ConnectionClosed),
        Status::PreAuth => Err(ClientError::CommandFailed(text)),
    }
}

// ---------------------------------------------------------------------------
// Framing
// ---------------------------------------------------------------------------

/// One complete response frame split off the read buffer.
pub struct Frame {
    /// The frame's bytes, including its trailing CRLF.
    pub bytes: Vec<u8>,
    /// Where the frame goes (see [`routing_spec`]).
    pub routing: Option<Routing>,
}

/// The model of a frame: its bytes and its routing.
pub open spec fn frame_view(f: Frame) -> (Seq<u8>, Option<SpecRouting>) {
    (f.bytes@, routing_view(f.routing))
}

/// What one pass over the read buffer yields.
pub struct Drained {
    /// The complete frames at the front of the buffer, in order.
    pub frames: Vec<Frame>,
    /// How many bytes those frames take.
    pub consumed: usize,
    /// Whether the bytes after them are malformed (rather than an
    /// incomplete frame, or nothing).
    pub malformed: bool,
}

/// The frames that `buf[pos..]` splits into: each complete response is
/// split off in turn until the buffer is used up, the next response is
/// incomplete, or it is malformed. Returns the frames with their routing,
/// where the split stopped, and whether it stopped at a malformed
/// response.
pub open spec fn drain_spec(buf: Seq<u8>, pos: int) -> (Seq<(Seq<u8>, Option<SpecRouting>)>, int, bool)
    decreases buf.len() - pos,
{
    if pos < 0 || pos >= buf.len() {
        (Seq::empty(), pos, false)
    } else {
        match parse_response_spec(buf.subrange(pos, buf.len() as int)) {
            Ok((n, resp)) => {
                proof {
                    lemma_response_length(buf.subrange(pos, buf.len() as int));
                }
                let rest = drain_spec(buf, pos + n);
                (seq![(buf.subrange(pos, pos + n), routing_spec(resp))] + rest.0, rest.1, rest.2)
            },
            Err(ParseError::Incomplete) => (Seq::empty(), pos, false),
            Err(_) => (Seq::empty(), pos, true),
        }
    }
}

proof fn lemma_drain_step(buf: Seq<u8>, pos: int, n: int, resp: SpecResponse)
    requires
        0 <= pos < buf.len(),
        parse_response_spec(buf.subrange(pos, buf.len() as int)) == Ok::<(int, SpecResponse), ParseError>((n, resp)),
    ensures
        drain_spec(buf, pos) == (seq![(buf.subrange(pos, pos + n), routing_spec(resp))] + drain_spec(buf, pos + n).0,
            drain_spec(buf, pos + n).1, drain_spec(buf, pos + n).2),
{
}

/// The bytes of a run of frames, one after the other.
pub open spec fn frames_bytes_concat(fs: Seq<(Seq<u8>, Option<SpecRouting>)>) -> Seq<u8>
    decreases fs.len(),
{
    if fs.len() == 0 {
        Seq::empty()
    } else {
        fs[0].0 + frames_bytes_concat(fs.drop_first())
    }
}

/// Splitting the buffer loses and reorders nothing: the frames split off
/// `buf[pos..]`, put back together, are exactly the bytes from `pos` to
/// where the split stopped, and the split stops within the buffer.
pub proof fn lemma_drain_reassembles(buf: Seq<u8>, pos: int)
    requires
        0 <= pos <= buf.len(),
    ensures
        pos <= drain_spec(buf, pos).1 <= buf.len(),
        frames_bytes_concat(drain_spec(buf, pos).0) == buf.subrange(pos, drain_spec(buf, pos).1),
    decreases buf.len() - pos,
{
    let d = drain_spec(buf, pos);
    if pos < buf.len() {
        match parse_response_spec(buf.subrange(pos, buf.len() as int)) {
            Ok((n, resp)) => {
                lemma_response_length(buf.subrange(pos, buf.len() as int));
                lemma_drain_reassembles(buf, pos + n);
                let rest = drain_spec(buf, pos + n);
                let head = (buf.subrange(pos, pos + n), routing_spec(resp));
                assert(d.0 == seq![head] + rest.0);
                assert((seq![head] + rest.0).drop_first() =~= rest.0);
                assert(buf.subrange(pos, rest.1) =~= buf.subrange(pos, pos + n) + buf.subrange(pos + n, rest.1));
            },
            Err(_) => {
                assert(buf.subrange(pos, pos) =~= Seq::<u8>::empty());
            },
        }
    } else {
        assert(buf.subrange(pos, pos) =~= Seq::<u8>::empty());
    }
}

/// Frames split off the buffer are never revised as more bytes arrive:
/// the frames split off `buf[pos..]` (with their routing) are the first
/// frames split off the same buffer with `more` appended.
pub proof fn lemma_drain_extends(buf: Seq<u8>, more: Seq<u8>, pos: int)
    requires
        0 <= pos <= buf.len(),
    ensures
        drain_spec(buf, pos).0.is_prefix_of(drain_spec(buf + more, pos).0),
    decreases buf.len() - pos,
{
    let b2 = buf + more;
    let d = drain_spec(buf, pos);
    if pos < buf.len() {
        let rest = buf.subrange(pos, buf.len() as int);
        match parse_response_spec(rest) {
            Ok((n, resp)) => {
                lemma_response_length(rest);
                {
                    lemma_parse_response_extends(rest, more);
                    assert(b2.subrange(pos, b2.len() as int) =~= rest + more);
                    assert(b2.subrange(pos, pos + n) =~= buf.subrange(pos, pos + n));
                    lemma_drain_extends(buf, more, pos + n);
                    let d2 = drain_spec(b2, pos);
                    let tail = drain_spec(buf, pos + n).0;
                    let tail2 = drain_spec(b2, pos + n).0;
                    let head = seq![(buf.subrange(pos, pos + n), routing_spec(resp))];
                    assert(d.0 == head + tail);
                    assert(d2.0 == head + tail2);
                    assert(d.0 =~= d2.0.subrange(0, d.0.len() as int)) by {
                        assert(tail =~= tail2.subrange(0, tail.len() as int));
                    };
                }
            },
            Err(_) => {
                assert(d.0 =~= Seq::<(Seq<u8>, Option<SpecRouting>)>::empty());
            },
        }
    } else {
        assert(d.0 =~= Seq::<(Seq<u8>, Option<SpecRouting>)>::empty());
    }
}

/// A buffer that holds any prefix of a stream made of complete responses
/// is never reported malformed, wherever the prefix ends, and the frames
/// split off it are the first frames of the whole stream: a read that ends
/// in the middle of a frame only leaves that frame buffered.
pub proof fn lemma_drain_stream_prefix(s: Seq<u8>, j: int, pos: int)
    requires
        0 <= pos <= j <= s.len(),
        drain_spec(s, pos).1 == s.len(),
        !drain_spec(s, pos).2,
    ensures
        !drain_spec(s.subrange(0, j), pos).2,
        drain_spec(s.subrange(0, j), pos).0.is_prefix_of(drain_spec(s, pos).0),
        pos <= drain_spec(s.subrange(0, j), pos).1 <= j,
        drain_spec(s, drain_spec(s.subrange(0, j), pos).1).1 == s.len(),
        !drain_spec(s, drain_spec(s.subrange(0, j), pos).1).2,
        drain_spec(s, pos).0 == drain_spec(s.subrange(0, j), pos).0 + drain_spec(
            s,
            drain_spec(s.subrange(0, j), pos).1,
        ).0,
    decreases j - pos,
{
    let u = s.subrange(0, j);
    let du = drain_spec(u, pos);
    if pos < j {
        let rest = s.subrange(pos, s.len() as int);
        let urest = u.subrange(pos, j);
        assert(urest =~= rest.subrange(0, j - pos));
        match parse_response_spec(rest) {
            Ok((n, resp)) => {
                lemma_response_length(rest);
                lemma_first_frame_any_split(rest, j - pos);
                match parse_response_spec(urest) {
                    Ok((m, r)) => {
                        assert(m == n && r == resp);
                        lemma_drain_stream_prefix(s, j, pos + n);
                        assert(u.subrange(pos, pos + n) =~= s.subrange(pos, pos + n));
                        let head = seq![(s.subrange(pos, pos + n), routing_spec(resp))];
                        let t = drain_spec(u, pos + n).0;
                        let t2 = drain_spec(s, pos + n).0;
                        assert(du.0 == head + t);
                        assert(drain_spec(s, pos).0 == head + t2);
                        assert(du.0 =~= (head + t2).subrange(0, du.0.len() as int)) by {
                            assert(t =~= t2.subrange(0, t.len() as int));
                        };
                        assert(du.1 == drain_spec(u, pos + n).1);
                        assert(head + t2 =~= head + t + drain_spec(s, du.1).0);
                    },
                    Err(_) => {
                        assert(du.0 =~= Seq::<(Seq<u8>, Option<SpecRouting>)>::empty());
                        assert(drain_spec(s, pos).0 =~= du.0 + drain_spec(s, pos).0);
                    },
                }
            },
            Err(_) => {
                assert(drain_spec(s, pos).1 == pos);
            },
        }
    } else {
        assert(du.0 =~= Seq::<(Seq<u8>, Option<SpecRouting>)>::empty());
        assert(drain_spec(s, pos).0 =~= du.0 + drain_spec(s, pos).0);
    }
}

proof fn lemma_drain_shift(t: Seq<u8>, c: int, pos: int)
    requires
        0 <= c <= t.len(),
        0 <= pos,
    ensures
        drain_spec(t.subrange(c, t.len() as int), pos) == (
            drain_spec(t, c + pos).0,
            drain_spec(t, c + pos).1 - c,
            drain_spec(t, c + pos).2,
        ),
    decreases t.len() - c - pos,
{
    let v = t.subrange(c, t.len() as int);
    if pos < v.len() {
        assert(v.subrange(pos, v.len() as int) =~= t.subrange(c + pos, t.len() as int));
        match parse_response_spec(t.subrange(c + pos, t.len() as int)) {
            Ok((n, resp)) => {
                lemma_response_length(t.subrange(c + pos, t.len() as int));
                lemma_drain_shift(t, c, pos + n);
                assert(v.subrange(pos, pos + n) =~= t.subrange(c + pos, c + pos + n));
                assert(c + (pos + n) == (c + pos) + n);
            },
            Err(_) => {},
        }
    }
}

proof fn lemma_drain_stop(b: Seq<u8>, pos: int)
    requires
        0 <= pos <= b.len(),
    ensures
        drain_spec(b, drain_spec(b, pos).1).0.len() == 0,
        drain_spec(b, drain_spec(b, pos).1).1 == drain_spec(b, pos).1,
    decreases b.len() - pos,
{
    if pos < b.len() {
        match parse_response_spec(b.subrange(pos, b.len() as int)) {
            Ok((n, resp)) => {
                lemma_response_length(b.subrange(pos, b.len() as int));
                lemma_drain_stop(b, pos + n);
            },
            Err(_) => {},
        }
    }
}

/// The read loop run over `reads` from buffer `buf`: after each read the
/// complete frames at the front of the buffer are split off and
/// dispatched, and only the unfinished rest stays buffered (all of it is
/// dropped when it is malformed). Returns what stays buffered at the end
/// and the frames dispatched, in order.
pub open spec fn read_fold(buf: Seq<u8>, reads: Seq<Seq<u8>>) -> (Seq<u8>, Seq<(Seq<u8>, Option<SpecRouting>)>)
    decreases reads.len(),
{
    if reads.len() == 0 {
        (buf, Seq::empty())
    } else {
        let b1 = buf + reads[0];
        let d = drain_spec(b1, 0);
        let b2 = if d.2 {
            Seq::empty()
        } else {
            b1.subrange(d.1, b1.len() as int)
        };
        let r = read_fold(b2, reads.drop_first());
        (r.0, d.0 + r.1)
    }
}

/// All the bytes of `reads`, one read after the other.
pub open spec fn reads_concat(reads: Seq<Seq<u8>>) -> Seq<u8>
    decreases reads.len(),
{
    if reads.len() == 0 {
        Seq::empty()
    } else {
        reads[0] + reads_concat(reads.drop_first())
    }
}

/// Frames split across reads are reassembled and none is dropped: when
/// the stream is made of complete responses, the read loop dispatches
/// exactly the stream's frames, in order, and leaves nothing buffered,
/// however the stream is split into reads.
pub proof fn lemma_read_loop_reassembles(buf: Seq<u8>, reads: Seq<Seq<u8>>)
    requires
        drain_spec(buf, 0).1 == 0,
        drain_spec(buf + reads_concat(reads), 0).1 == (buf + reads_concat(reads)).len(),
        !drain_spec(buf + reads_concat(reads), 0).2,
    ensures
        read_fold(buf, reads).0.len() == 0,
        read_fold(buf, reads).1 == drain_spec(buf + reads_concat(reads), 0).0,
    decreases reads.len(),
{
    let t = buf + reads_concat(reads);
    if reads.len() == 0 {
        assert(t =~= buf);
        if buf.len() > 0 {
            assert(drain_spec(buf, 0).1 == buf.len());
        }
    } else {
        let b1 = buf + reads[0];
        let rest = reads_concat(reads.drop_first());
        assert(t =~= b1 + rest);
        assert(t.subrange(0, b1.len() as int) =~= b1);
        lemma_drain_stream_prefix(t, b1.len() as int, 0);
        let d = drain_spec(b1, 0);
        let c = d.1;
        let b2 = b1.subrange(c, b1.len() as int);
        assert(b2 + rest =~= t.subrange(c, t.len() as int));
        lemma_drain_shift(t, c, 0);
        lemma_drain_shift(b1, c, 0);
        lemma_drain_stop(b1, 0);
        lemma_read_loop_reassembles(b2, reads.drop_first());
    }
}

/// The models of a list of frames.
pub open spec fn frames_view(v: Seq<Frame>) -> Seq<(Seq<u8>, Option<SpecRouting>)> {
    v.map_values(|f: Frame| frame_view(f))
}

proof fn lemma_frames_view_push(v: Seq<Frame>, f: Frame)
    ensures
        frames_view(v.push(f)) == frames_view(v).push(frame_view(f)),
{
    assert(frames_view(v.push(f)) =~= frames_view(v).push(frame_view(f)));
}

/// Split every complete response frame off the front of `buf`
/// (see [`drain_spec`]).
pub fn drain_frames(buf: &[u8]) -> (r: Drained)
    ensures
        frames_view(r.frames@) == drain_spec(buf@, 0).0,
        r.consumed == drain_spec(buf@, 0).1,
        r.malformed == drain_spec(buf@, 0).2,
{
    let mut frames: Vec<Frame> = Vec::new();
    let mut pos: usize = 0;
    let mut malformed = false;
    while pos < buf.len()
        invariant_except_break
            pos <= buf@.len(),
            !malformed,
            frames_view(frames@) + drain_spec(buf@, pos as int).0 == drain_spec(buf@, 0).0,
            drain_spec(buf@, pos as int).1 == drain_spec(buf@, 0).1,
            drain_spec(buf@, pos as int).2 == drain_spec(buf@, 0).2,
        ensures
            frames_view(frames@) == drain_spec(buf@, 0).0,
            pos == drain_spec(buf@, 0).1,
            malformed == drain_spec(buf@, 0).2,
        decreases buf@.len() - pos,
    {
        let rest = &buf[pos..buf.len()];
        match parse_response(rest) {
            Ok((remaining, response)) => {
                let consumed = rest.len() - remaining.len();
                proof {
                    lemma_response_length(rest@);
                }
                let routing = routing_of(&response);
                let bytes = vstd::slice::slice_to_vec(&buf[pos..pos + consumed]);
                let ghost before = frames@;
                let frame = Frame { bytes, routing };
                let ghost fv = frame_view(frame);
                frames.push(frame);
                proof {
                    lemma_drain_step(buf@, pos as int, consumed as int, response@);
                    lemma_frames_view_push(before, frames@.last());
                    let head = seq![fv];
                    let tail = drain_spec(buf@, pos + consumed).0;
                    assert(frames_view(frames@) + tail =~= frames_view(before) + (head + tail));
                }
                pos = pos + consumed;
            },
            Err(ParseError::Incomplete) => {
                break;
            },
            Err(_) => {
                malformed = true;
                break;
            },
        }
    }
    proof {
        if pos >= buf@.len() {
            assert(drain_spec(buf@, pos as int).0 =~= Seq::<(Seq<u8>, Option<SpecRouting>)>::empty());
            assert(frames_view(frames@) =~= frames_view(frames@) + drain_spec(buf@, pos as int).0);
        }
    }
    Drained { frames, consumed: pos, malformed }
}

/// The guard on what stays buffered after the complete frames have been
/// split off: more than `max` bytes of a single unfinished frame is
/// [`ClientError::FrameTooLarge`].
pub fn check_residue(buffered: usize, max: usize) -> (r: Result<(), ClientError>)
    ensures
        buffered <= max ==> r is Ok,
        buffered > max ==> (r matches Err(ClientError::FrameTooLarge { max: m }) && m == max),
{
    if buffered > max {
        Err(ClientError::FrameTooLarge { max })
    } else {
        Ok(())
    }
}

// ---------------------------------------------------------------------------
// Dispatch
// ---------------------------------------------------------------------------

/// The tag a frame answers, if it is a tagged status frame.
pub open spec fn answered_tag(f: (Seq<u8>, Option<SpecRouting>)) -> Option<Seq<char>> {
    match f.1 {
        Some((t, _, _)) => Some(t),
        None => None,
    }
}

/// Dispatching one frame while the tags in `pending` await their replies:
/// a frame that answers a pending tag goes to that command, whose tag
/// stops pending (`Some(tag)`); every other frame is broadcast (`None`).
pub open spec fn dispatch_step(pending: Set<Seq<char>>, f: (Seq<u8>, Option<SpecRouting>)) -> (Set<Seq<char>>, Option<Seq<char>>) {
    match answered_tag(f) {
        Some(t) => if pending.contains(t) {
            (pending.remove(t), Some(t))
        } else {
            (pending, None)
        },
        None => (pending, None),
    }
}

/// Dispatching `frames` in order, one [`dispatch_step`] each: the tags
/// still pending afterwards and where each frame went.
pub open spec fn dispatch_all(pending: Set<Seq<char>>, frames: Seq<(Seq<u8>, Option<SpecRouting>)>) -> (Set<Seq<char>>, Seq<Option<Seq<char>>>)
    decreases frames.len(),
{
    if frames.len() == 0 {
        (pending, Seq::empty())
    } else {
        let (p1, d) = dispatch_step(pending, frames[0]);
        let (p2, ds) = dispatch_all(p1, frames.drop_first());
        (p2, seq![d] + ds)
    }
}

/// No frame of `frames` before index `i` answers tag `t`.
pub open spec fn unanswered_before(frames: Seq<(Seq<u8>, Option<SpecRouting>)>, i: int, t: Seq<char>) -> bool {
    forall|j: int| 0 <= j < i ==> answered_tag(#[trigger] frames[j]) != Some(t)
}

/// Each command awaiting a reply receives exactly the first tagged status
/// frame that answers its tag, and nothing else; every other frame
/// (untagged, answering a tag nobody awaits, or answering one a second
/// time) is broadcast, in order; and a tag stops pending exactly when a
/// frame has answered it.
pub proof fn lemma_dispatch_all(pending: Set<Seq<char>>, frames: Seq<(Seq<u8>, Option<SpecRouting>)>)
    ensures
        dispatch_all(pending, frames).1.len() == frames.len(),
        forall|i: int| 0 <= i < frames.len() ==> #[trigger] dispatch_all(pending, frames).1[i] == (
            if answered_tag(frames[i]) matches Some(t) && pending.contains(t) && unanswered_before(frames, i, t) {
                answered_tag(frames[i])
            } else {
                None
            }),
        forall|t: Seq<char>| #[trigger] dispatch_all(pending, frames).0.contains(t) <==> (pending.contains(t)
            && unanswered_before(frames, frames.len() as int, t)),
    decreases frames.len(),
{
    if frames.len() > 0 {
        let f0 = frames[0];
        let tail = frames.drop_first();
        let (p1, d) = dispatch_step(pending, f0);
        lemma_dispatch_all(p1, tail);
        let ds = dispatch_all(pending, frames).1;
        assert(ds == seq![d] + dispatch_all(p1, tail).1);
        assert forall|t: Seq<char>| p1.contains(t) <==> (pending.contains(t) && answered_tag(f0) != Some(t)) by {}
        assert forall|i: int, t: Seq<char>| 0 < i <= frames.len() implies unanswered_before(frames, i, t) <==> (
            answered_tag(f0) != Some(t) && unanswered_before(tail, i - 1, t)) by {
            if unanswered_before(frames, i, t) {
                assert(answered_tag(frames[0]) != Some(t));
                assert forall|j: int| 0 <= j < i - 1 implies answered_tag(#[trigger] tail[j]) != Some(t) by {
                    assert(tail[j] == frames[j + 1]);
                }
            }
            if answered_tag(f0) != Some(t) && unanswered_before(tail, i - 1, t) {
                assert forall|j: int| 0 <= j < i implies answered_tag(#[trigger] frames[j]) != Some(t) by {
                    if j > 0 {
                        assert(tail[j - 1] == frames[j]);
                    }
                }
            }
        }
        assert forall|i: int| 0 <= i < frames.len() implies #[trigger] ds[i] == (
            if answered_tag(frames[i]) matches Some(t) && pending.contains(t) && unanswered_before(frames, i, t) {
                answered_tag(frames[i])
            } else {
                None
            }) by {
            if i > 0 {
                assert(ds[i] == dispatch_all(p1, tail).1[i - 1]);
                assert(tail[i - 1] == frames[i]);
            } else {
                assert(unanswered_before(frames, 0, Seq::<char>::empty()));
            }
        }
    }
}

/// Each of `fs` is one complete response: it parses, taking all its bytes.
pub open spec fn complete_responses(fs: Seq<Seq<u8>>) -> bool {
    forall|i: int| 0 <= i < fs.len() ==> (#[trigger] parse_response_spec(fs[i]) matches Ok((n, _)) && n == fs[i].len())
}

/// The frames `fs`, each with the routing its response calls for.
pub open spec fn routed_frames(fs: Seq<Seq<u8>>) -> Seq<(Seq<u8>, Option<SpecRouting>)> {
    fs.map_values(|f: Seq<u8>| (f, routing_spec(parse_response_spec(f)->Ok_0.1)))
}

proof fn lemma_drain_complete(fs: Seq<Seq<u8>>)
    requires
        complete_responses(fs),
    ensures
        drain_spec(reads_concat(fs), 0) == (routed_frames(fs), reads_concat(fs).len() as int, false),
    decreases fs.len(),
{
    let t = reads_concat(fs);
    if fs.len() == 0 {
        assert(routed_frames(fs) =~= Seq::<(Seq<u8>, Option<SpecRouting>)>::empty());
    } else {
        let f = fs[0];
        let tail = fs.drop_first();
        assert(parse_response_spec(fs[0]) matches Ok((n, _)) && n == fs[0].len());
        assert(complete_responses(tail)) by {
            assert forall|i: int| 0 <= i < tail.len() implies (#[trigger] parse_response_spec(tail[i]) matches Ok((n, _))
                && n == tail[i].len()) by {
                assert(tail[i] == fs[i + 1]);
            }
        }
        lemma_drain_complete(tail);
        let rest = reads_concat(tail);
        assert(t == f + rest);
        lemma_parse_response_extends(f, rest);
        lemma_response_length(f);
        assert(t.subrange(0, t.len() as int) =~= t);
        assert(t.subrange(0, f.len() as int) =~= f);
        assert(t.subrange(f.len() as int, t.len() as int) =~= rest);
        lemma_drain_shift(t, f.len() as int, 0);
        assert(routed_frames(fs) =~= seq![(f, routing_spec(parse_response_spec(f)->Ok_0.1))] + routed_frames(tail));
    }
}

/// Frames split across reads are reassembled and none is dropped: when the
/// stream is the complete responses `fs`, one after the other, however it
/// is split into reads, the read loop dispatches exactly `fs`, in order,
/// each with its routing, and leaves nothing buffered.
pub proof fn lemma_read_loop_dispatches_frames(fs: Seq<Seq<u8>>, reads: Seq<Seq<u8>>)
    requires
        complete_responses(fs),
        reads_concat(reads) == reads_concat(fs),
    ensures
        read_fold(Seq::empty(), reads) == (Seq::<u8>::empty(), routed_frames(fs)),
{
    lemma_drain_complete(fs);
    let e = Seq::<u8>::empty();
    assert(e + reads_concat(reads) =~= reads_concat(fs));
    lemma_read_loop_reassembles(e, reads);
}

} // verus!
