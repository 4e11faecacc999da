//! The library's laws, each on concrete values.

use imap_rs::capabilities::Capabilities;
use imap_rs::client::{drain_frames, format_tag};
use imap_rs::credentials::imap_quoted;
use imap_rs::ast::{DataResponse, Response};
use imap_rs::error::ParseError;
use imap_rs::parser::{parse_response, MAX_LITERAL_SIZE};

#[test]
fn test_parse_is_stable_under_more_bytes() {
    let frame: &[u8] = b"* 7 FETCH (UID 9 BODY[] {3}\r\nabc)\r\n";
    let (rest, short) = parse_response(frame).unwrap();
    assert!(rest.is_empty());
    let mut longer = frame.to_vec();
    longer.extend_from_slice(b"A0001 OK done\r\n* 8 EXI");
    let (rest2, long) = parse_response(&longer).unwrap();
    assert_eq!(short, long);
    assert_eq!(longer.len() - rest2.len(), frame.len());
}

#[test]
fn test_frames_are_not_revised_by_later_bytes() {
    let mut buf = b"* 1 EXISTS\r\n* 2 REC".to_vec();
    let first = drain_frames(&buf);
    assert_eq!(first.frames.len(), 1);
    buf.extend_from_slice(b"ENT\r\n");
    let second = drain_frames(&buf);
    assert_eq!(second.frames.len(), 2);
    assert_eq!(second.frames[0].bytes, first.frames[0].bytes);
    // The split frames put back together are the consumed bytes.
    let joined: Vec<u8> = second.frames.iter().flat_map(|f| f.bytes.clone()).collect();
    assert_eq!(joined, buf[..second.consumed].to_vec());
}

#[test]
fn test_quoted_form_reads_back_through_the_parser() {
    let q = imap_quoted("a\"b\\c").unwrap();
    let line = format!("* STATUS {} (MESSAGES 1)\r\n", q);
    let (_, r) = parse_response(line.as_bytes()).unwrap();
    match r {
        Response::Data(DataResponse::Status { mailbox, .. }) => {
            // The parser keeps the escapes: the raw contents of the quoted string.
            assert_eq!(mailbox, "a\\\"b\\\\c");
        }
        other => panic!("unexpected response {:?}", other),
    }
}

#[test]
fn test_distinct_counters_give_distinct_tags() {
    let tags: Vec<Vec<u8>> = [1u64, 10, 100, 1000, 9999, 10000, 99999].iter().map(|n| format_tag(*n)).collect();
    for i in 0..tags.len() {
        for j in 0..tags.len() {
            assert_eq!(i == j, tags[i] == tags[j]);
        }
    }
}

#[test]
fn test_literal_cap_refuses_before_data() {
    let header = format!("* 1 FETCH (BODY[] {{{}}}\r\n", MAX_LITERAL_SIZE + 1);
    assert_eq!(
        parse_response(header.as_bytes()),
        Err(ParseError::LiteralTooLarge { got: MAX_LITERAL_SIZE + 1, max: MAX_LITERAL_SIZE })
    );
}

#[test]
fn test_capability_field_set_iff_atom_names_it() {
    let caps = Capabilities::from_atoms(&["imap4rev2", "X-IDLE", "IDLEX"]);
    assert!(caps.imap4rev2);
    assert!(!caps.idle);
}

#[test]
fn test_every_strict_prefix_is_incomplete() {
    let frames: [&[u8]; 9] = [
        b"* OK [ALERT] x\r\n",
        b"* 1 FETCH (UID 7 FLAGS (\\Seen) BODY[HEADER]<0> {3}\r\nabc RFC822.SIZE 9)\r\n",
        b"* LIST (\\HasNoChildren) NIL \"INBOX\"\r\n",
        b"* LIST () \"/\" caf\xc3\xa9\r\n",
        b"A0001 NO [UIDNEXT 12] caf\xc3\xa9 denied\r\n",
        b"* STATUS \"a\\\"b\" (MESSAGES 3 UNSEEN 1)\r\n",
        b"+ [X-CODE some \xc3\xa9xtra] go on\r\n",
        b"* CAPABILITY IMAP4rev2 IDLE\r\n",
        b"* SEARCH 1 2 30\r\n",
    ];
    for f in frames {
        let (rest, _) = parse_response(f).unwrap();
        assert!(rest.is_empty());
        for j in 0..f.len() {
            assert_eq!(parse_response(&f[..j]), Err(ParseError::Incomplete), "prefix {:?}", &f[..j]);
        }
    }
}

#[test]
fn test_trailing_bytes_after_a_response_are_consumed() {
    let (rest, r) = parse_response(b"* 5 EXISTS trailing\r\nA1 OK x\r\n").unwrap();
    assert_eq!(r, Response::Data(DataResponse::Exists(5)));
    assert_eq!(rest, b"A1 OK x\r\n".as_ref());
    let (rest, r) = parse_response(b"A1 OK [READ-WRITE] done\r\n").unwrap();
    assert!(matches!(r, Response::Status(_)));
    assert!(rest.is_empty());
    let (rest, r) = parse_response(b"* 3 FETCH (UID 4) extra\r\n").unwrap();
    assert!(matches!(r, Response::Data(DataResponse::Fetch { seq: 3, .. })));
    assert!(rest.is_empty());
}

#[test]
fn test_only_quote_and_backslash_may_be_escaped() {
    assert_eq!(
        parse_response(b"* STATUS \"a\\\rb\" (MESSAGES 1)\r\n"),
        Err(ParseError::Malformed("invalid escape inside quoted string"))
    );
    assert_eq!(
        parse_response(b"* STATUS \"a\\xb\" (MESSAGES 1)\r\n"),
        Err(ParseError::Malformed("invalid escape inside quoted string"))
    );
}

#[test]
fn test_consumed_prefix_ends_in_crlf() {
    let input: &[u8] = b"* 5 EXISTS extra\r\n* 6 EXISTS\r\n";
    let (rest, _) = parse_response(input).unwrap();
    let k = input.len() - rest.len();
    assert!(k >= 2);
    assert_eq!(&input[k - 2..k], b"\r\n");
    assert_eq!(rest, &input[k..]);
}

#[test]
fn test_from_atoms_any_atom_matches() {
    let a = Capabilities::from_atoms(&["x-unknown", "idle", "Auth=Plain", "IDLE", "literal+"]);
    let b = Capabilities::from_atoms(&["LITERAL+", "auth=plain", "Idle"]);
    assert_eq!(format!("{:?}", a), format!("{:?}", b));
    assert!(a.idle && a.auth_plain && a.literal_plus);
    assert!(!a.literal_minus && !a.starttls && !a.auth_login);
    let none = Capabilities::from_atoms(&["IDLEX", "AUTH=PLAINX", "LITERAL"]);
    assert_eq!(format!("{:?}", none), format!("{:?}", Capabilities::default()));
}

#[test]
fn test_first_frame_whatever_the_split() {
    let stream: &[u8] = b"* OK [ALERT] x\r\nT0001 OK done\r\n";
    for j in 0..stream.len() {
        let buf = &stream[..j];
        match parse_response(buf) {
            Ok((rest, _)) => {
                assert_eq!(buf.len() - rest.len(), 16);
                assert!(j >= 16);
            }
            Err(e) => {
                assert_eq!(e, ParseError::Incomplete);
                assert!(j < 16);
            }
        }
    }
}

#[test]
fn test_read_loop_reassembles_any_split() {
    let stream: &[u8] = b"* OK [ALERT] x\r\n* 1 FETCH (UID 4 BODY[] {2}\r\nab)\r\nA0001 OK done\r\n";
    let whole: Vec<Vec<u8>> = drain_frames(stream).frames.into_iter().map(|f| f.bytes).collect();
    assert_eq!(whole.len(), 3);
    for a in 0..=stream.len() {
        for b in a..=stream.len() {
            let reads = [&stream[..a], &stream[a..b], &stream[b..]];
            let mut buffer: Vec<u8> = Vec::new();
            let mut got: Vec<Vec<u8>> = Vec::new();
            for r in reads {
                buffer.extend_from_slice(r);
                let drained = drain_frames(&buffer);
                assert!(!drained.malformed, "split at {} and {}", a, b);
                got.extend(drained.frames.into_iter().map(|f| f.bytes));
                buffer.drain(..drained.consumed);
            }
            assert!(buffer.is_empty());
            assert_eq!(got, whole);
        }
    }
}
