//! Scenarios of the session decisions: command text, capability gates,
//! SASL PLAIN, continuation waits, and FETCH / SEARCH results.

use imap_rs::capabilities::Capabilities;
use imap_rs::credentials::Password;
use imap_rs::error::ClientError;
use imap_rs::flags::{Flag, StoreAction};
use imap_rs::search::SearchQuery;
use imap_rs::session::{
    authenticate_plain_payload, continuation_line, continuation_step, examine_command,
    fetch_command, fetch_result_of, fetch_results_from_frames, first_body_text, is_continuation,
    list_command, login_command, logout_outcome, move_command, require_idle, require_unselect,
    sasl_plain, search_command, search_ids_from_frames, select_command, store_command,
    uid_search_command, uid_store_command, FetchResult, WaitEvent,
};

#[test]
fn test_login_command() {
    let cmd = login_command("user", &Password::new("pass")).unwrap();
    assert_eq!(cmd, "LOGIN \"user\" \"pass\"");
    let cmd = login_command("user\"with\\specials", &Password::new("p@ss\"\\")).unwrap();
    assert_eq!(cmd, r#"LOGIN "user\"with\\specials" "p@ss\"\\""#);
}

#[test]
fn test_login_command_rejects_unquotable() {
    assert!(matches!(
        login_command("user", &Password::new("café")),
        Err(ClientError::CommandFailed(_))
    ));
    assert!(matches!(
        login_command("us\ner", &Password::new("pass")),
        Err(ClientError::CommandFailed(_))
    ));
}

#[test]
fn test_mailbox_commands() {
    assert_eq!(select_command("INBOX").unwrap(), "SELECT \"INBOX\"");
    assert_eq!(examine_command("INBOX").unwrap(), "EXAMINE \"INBOX\"");
    assert_eq!(list_command("", "*").unwrap(), "LIST \"\" \"*\"");
    assert!(select_command("bad\rbox").is_err());
    assert!(list_command("", "a\0").is_err());
}

#[test]
fn test_fetch_and_store_commands() {
    assert_eq!(fetch_command("1:*", "BODY[]"), "FETCH 1:* BODY[]");
    assert_eq!(
        store_command("1", StoreAction::Add, &[Flag::Seen, Flag::Flagged]),
        "STORE 1 +FLAGS (\\Seen \\Flagged)"
    );
    assert_eq!(
        uid_store_command("42", StoreAction::Remove, &[Flag::Deleted]),
        "UID STORE 42 -FLAGS (\\Deleted)"
    );
    assert_eq!(store_command("2:3", StoreAction::Replace, &[]), "STORE 2:3 FLAGS ()");
}

#[test]
fn test_search_commands() {
    assert_eq!(search_command(SearchQuery::subject("hi")), "SEARCH SUBJECT \"hi\"");
    assert_eq!(uid_search_command(SearchQuery::from("a@b")), "UID SEARCH FROM \"a@b\"");
}

#[test]
fn test_capability_gates() {
    let none = Capabilities::default();
    assert!(matches!(
        move_command(&none, "1", "Archive"),
        Err(ClientError::UnsupportedCapability("MOVE"))
    ));
    assert!(matches!(require_unselect(&none), Err(ClientError::UnsupportedCapability("UNSELECT"))));
    assert!(matches!(require_idle(&none), Err(ClientError::UnsupportedCapability("IDLE"))));

    let caps = Capabilities::from_atoms(&["MOVE", "UNSELECT", "IDLE"]);
    assert_eq!(move_command(&caps, "1:2", "Archive").unwrap(), "MOVE 1:2 \"Archive\"");
    assert!(require_unselect(&caps).is_ok());
    assert!(require_idle(&caps).is_ok());
}

#[test]
fn test_logout_outcome() {
    assert!(logout_outcome(Ok(b"A1 OK bye\r\n".to_vec())).is_ok());
    assert!(logout_outcome(Err(ClientError::ConnectionClosed)).is_ok());
    assert!(matches!(logout_outcome(Err(ClientError::Timeout)), Err(ClientError::Timeout)));
}

#[test]
fn test_sasl_plain_message() {
    assert_eq!(sasl_plain("user", "pass"), b"\0user\0pass".to_vec());
}

#[test]
fn test_authenticate_plain_payload() {
    let payload = authenticate_plain_payload("user", &Password::new("pass")).unwrap();
    // base64("\0user\0pass") followed by CRLF.
    assert_eq!(payload, b"AHVzZXIAcGFzcw==\r\n".to_vec());
}

#[test]
fn test_authenticate_plain_payload_is_8bit_safe() {
    let payload = authenticate_plain_payload("u", &Password::new("café")).unwrap();
    assert_eq!(payload, b"AHUAY2Fmw6k=\r\n".to_vec());
}

#[test]
fn test_authenticate_plain_rejects_nul() {
    match authenticate_plain_payload("us\0er", &Password::new("pass")) {
        Err(ClientError::CommandFailed(m)) => assert_eq!(m, "username must not contain NUL"),
        _ => panic!("expected an error"),
    }
    match authenticate_plain_payload("user", &Password::new("pa\0ss")) {
        Err(ClientError::CommandFailed(m)) => assert_eq!(m, "password must not contain NUL"),
        _ => panic!("expected an error"),
    }
}

#[test]
fn test_continuation_line() {
    assert_eq!(continuation_line(b"DONE".to_vec()), b"DONE\r\n".to_vec());
}

#[test]
fn test_continuation_wait_steps() {
    assert!(is_continuation(b"+ idling\r\n"));
    assert!(!is_continuation(b"* 1 EXISTS\r\n"));
    assert!(!is_continuation(b""));
    assert!(continuation_step(&WaitEvent::Frame(b"+ \r\n".to_vec())).unwrap());
    assert!(!continuation_step(&WaitEvent::Frame(b"* OK x\r\n".to_vec())).unwrap());
    assert!(matches!(continuation_step(&WaitEvent::Closed), Err(ClientError::ConnectionClosed)));
    assert!(matches!(continuation_step(&WaitEvent::TimedOut), Err(ClientError::Timeout)));
    match continuation_step(&WaitEvent::Lagged) {
        Err(ClientError::CommandFailed(m)) => {
            assert_eq!(m, "broadcast lagged; continuation may have been missed")
        }
        _ => panic!("expected an error"),
    }
}

#[test]
fn test_fetch_result_of() {
    let (_, r) = imap_rs::parser::parse_response(
        b"* 12 FETCH (FLAGS (\\Seen) UID 4827 BODY[] {5}\r\nhello)\r\n",
    )
    .unwrap();
    let f = fetch_result_of(&r).unwrap();
    assert_eq!(f.seq, 12);
    assert_eq!(f.uid, Some(4827));
    assert_eq!(f.body, Some(b"hello".to_vec()));

    let (_, r) = imap_rs::parser::parse_response(b"* 3 EXISTS\r\n").unwrap();
    assert!(fetch_result_of(&r).is_none());
}

#[test]
fn test_fetch_results_from_frames() {
    let frames = vec![
        b"* 1 FETCH (UID 10 RFC822 {2}\r\nhi)\r\n".to_vec(),
        b"* 5 EXISTS\r\n".to_vec(),
        b"not a frame".to_vec(),
        b"* 2 FETCH (FLAGS ())\r\n".to_vec(),
    ];
    let results = fetch_results_from_frames(&frames);
    assert_eq!(results.len(), 2);
    assert_eq!(results[0].seq, 1);
    assert_eq!(results[0].uid, Some(10));
    assert_eq!(results[0].body, Some(b"hi".to_vec()));
    assert_eq!(results[1].seq, 2);
    assert_eq!(results[1].uid, None);
    assert_eq!(results[1].body, None);
}

#[test]
fn test_search_ids_from_frames() {
    let frames = vec![
        b"* SEARCH 2 3 5\r\n".to_vec(),
        b"* 9 EXISTS\r\n".to_vec(),
        b"* SEARCH 7\r\n".to_vec(),
        b"* SEARCH\r\n".to_vec(),
    ];
    assert_eq!(search_ids_from_frames(&frames), vec![2, 3, 5, 7]);
    assert!(search_ids_from_frames(&[]).is_empty());
}

#[test]
fn test_first_body_text() {
    let results = vec![
        FetchResult { seq: 1, uid: None, body: Some(b"Hello, world".to_vec()) },
        FetchResult { seq: 2, uid: None, body: Some(b"other".to_vec()) },
    ];
    assert_eq!(first_body_text(&results), Some("Hello, world".to_string()));
    let lossy = vec![FetchResult { seq: 1, uid: None, body: Some(vec![b'a', 0xff, b'b']) }];
    assert_eq!(first_body_text(&lossy), Some("a\u{FFFD}b".to_string()));
    let nobody = vec![FetchResult { seq: 1, uid: None, body: None }];
    assert_eq!(first_body_text(&nobody), None);
    assert_eq!(first_body_text(&[]), None);
}

#[test]
fn test_wait_ends_at_first_deciding_event() {
    let events = vec![
        WaitEvent::Frame(b"* 3 EXISTS\r\n".to_vec()),
        WaitEvent::Frame(b"* OK x\r\n".to_vec()),
        WaitEvent::Frame(b"+ go\r\n".to_vec()),
        WaitEvent::Closed,
    ];
    let mut outcome = None;
    for e in &events {
        match continuation_step(e) {
            Ok(false) => continue,
            other => {
                outcome = Some(other);
                break;
            }
        }
    }
    assert!(matches!(outcome, Some(Ok(true))));
    let events = vec![WaitEvent::Frame(b"* 1 RECENT\r\n".to_vec()), WaitEvent::Closed, WaitEvent::Frame(b"+ \r\n".to_vec())];
    let mut outcome = None;
    for e in &events {
        match continuation_step(e) {
            Ok(false) => continue,
            other => {
                outcome = Some(other);
                break;
            }
        }
    }
    assert!(matches!(outcome, Some(Err(ClientError::ConnectionClosed))));
}
