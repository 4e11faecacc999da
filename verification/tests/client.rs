//! Scenarios of the dispatcher decisions: tags, command lines, framing and
//! routing.

use imap_rs::ast::Status;
use imap_rs::client::{
    check_residue, command_line, drain_frames, format_tag, routing_of, tagged_reply, TagCounter,
    MAX_FRAME_SIZE,
};
use imap_rs::error::ClientError;
use imap_rs::parser::{parse_response, MAX_LITERAL_SIZE};

#[test]
fn test_format_tag_pads_to_four_digits() {
    assert_eq!(format_tag(0), b"A0000".to_vec());
    assert_eq!(format_tag(1), b"A0001".to_vec());
    assert_eq!(format_tag(42), b"A0042".to_vec());
    assert_eq!(format_tag(999), b"A0999".to_vec());
    assert_eq!(format_tag(9999), b"A9999".to_vec());
    assert_eq!(format_tag(10000), b"A10000".to_vec());
    assert_eq!(format_tag(u64::MAX), b"A18446744073709551615".to_vec());
}

#[test]
fn test_tag_counter_starts_at_one_and_increases() {
    let mut c = TagCounter::new();
    assert_eq!(c.next_tag(), b"A0001".to_vec());
    assert_eq!(c.next_tag(), b"A0002".to_vec());
    assert_eq!(c.next_tag(), b"A0003".to_vec());
}

#[test]
fn test_tags_read_back_through_the_parser() {
    // A tag made by the counter is what the parser reads back as the tag
    // of the server's reply.
    let mut line = format_tag(123);
    line.extend_from_slice(b" OK done\r\n");
    let (_, resp) = parse_response(&line).unwrap();
    let routing = routing_of(&resp).unwrap();
    assert_eq!(routing.tag, "A0123");
}

#[test]
fn test_command_line() {
    assert_eq!(command_line(b"A0001", "NOOP"), b"A0001 NOOP\r\n".to_vec());
    assert_eq!(
        command_line(b"A0002", "SELECT \"INBOX\""),
        b"A0002 SELECT \"INBOX\"\r\n".to_vec()
    );
}

#[test]
fn test_routing_of_tagged_and_untagged() {
    let (_, r) = parse_response(b"A0007 NO [TRYCREATE] no such mailbox\r\n").unwrap();
    let routing = routing_of(&r).unwrap();
    assert_eq!(routing.tag, "A0007");
    assert_eq!(routing.status, Status::No);
    assert_eq!(routing.text, "no such mailbox");

    let (_, r) = parse_response(b"* OK still here\r\n").unwrap();
    assert!(routing_of(&r).is_none());
    let (_, r) = parse_response(b"* 4 EXISTS\r\n").unwrap();
    assert!(routing_of(&r).is_none());
    let (_, r) = parse_response(b"+ go ahead\r\n").unwrap();
    assert!(routing_of(&r).is_none());
}

#[test]
fn test_tagged_reply_by_status() {
    let frame = b"A1 OK done\r\n".to_vec();
    assert_eq!(tagged_reply(Status::Okay, frame.clone(), "done".into()).unwrap(), frame);
    for st in [Status::No, Status::Bad, Status::PreAuth] {
        match tagged_reply(st, frame.clone(), "why".into()) {
            Err(ClientError::CommandFailed(t)) => assert_eq!(t, "why"),
            _ => panic!("unexpected reply"),
        }
    }
    assert!(matches!(
        tagged_reply(Status::Bye, frame, "bye".into()),
        Err(ClientError::ConnectionClosed)
    ));
}

#[test]
fn test_drain_frames_splits_complete_frames() {
    let buf = b"* 1 EXISTS\r\nA0001 OK done\r\n* 2 EXI";
    let d = drain_frames(buf);
    assert_eq!(d.frames.len(), 2);
    assert_eq!(d.frames[0].bytes, b"* 1 EXISTS\r\n".to_vec());
    assert!(d.frames[0].routing.is_none());
    assert_eq!(d.frames[1].bytes, b"A0001 OK done\r\n".to_vec());
    let r = d.frames[1].routing.as_ref().unwrap();
    assert_eq!(r.tag, "A0001");
    assert_eq!(r.status, Status::Okay);
    assert_eq!(r.text, "done");
    assert_eq!(d.consumed, 27);
    assert!(!d.malformed);
}

#[test]
fn test_drain_frames_reassembles_split_frames() {
    // The same bytes, delivered in two reads, give the same frames.
    let whole = b"* 3 EXISTS\r\n* 1 RECENT\r\n".to_vec();
    let first = drain_frames(&whole[..7]);
    assert_eq!(first.frames.len(), 0);
    assert_eq!(first.consumed, 0);
    let second = drain_frames(&whole);
    assert_eq!(second.frames.len(), 2);
    assert_eq!(second.consumed, whole.len());
}

#[test]
fn test_drain_frames_stops_at_malformed() {
    let d = drain_frames(b"* 1 EXISTS\r\ngarbage\r\n");
    assert_eq!(d.frames.len(), 1);
    assert_eq!(d.consumed, 12);
    assert!(d.malformed);
}

#[test]
fn test_drain_frames_empty_buffer() {
    let d = drain_frames(b"");
    assert!(d.frames.is_empty());
    assert_eq!(d.consumed, 0);
    assert!(!d.malformed);
}

#[test]
fn test_drain_frames_waits_for_literal_data() {
    let d = drain_frames(b"* 1 FETCH (BODY[] {5}\r\nab");
    assert!(d.frames.is_empty());
    assert!(!d.malformed);
    let d = drain_frames(b"* 1 FETCH (BODY[] {5}\r\nabcde)\r\n");
    assert_eq!(d.frames.len(), 1);
}

#[test]
fn test_check_residue() {
    assert!(check_residue(0, 10).is_ok());
    assert!(check_residue(10, 10).is_ok());
    match check_residue(11, 10) {
        Err(ClientError::FrameTooLarge { max }) => assert_eq!(max, 10),
        _ => panic!("expected FrameTooLarge"),
    }
    assert_eq!(MAX_FRAME_SIZE, MAX_LITERAL_SIZE + 64 * 1024);
}
