//! Scenarios of the pre-TLS STARTTLS exchange decisions.

use imap_rs::capabilities::Capabilities;
use imap_rs::error::ClientError;
use imap_rs::tls::{capability_reply_step, pre_tls_frame, require_starttls, starttls_reply_step};

#[test]
fn test_pre_tls_frame() {
    assert_eq!(pre_tls_frame(b"").unwrap(), None);
    assert_eq!(pre_tls_frame(b"* OK IMAP service ready\r\n").unwrap(), Some(25));
    assert_eq!(pre_tls_frame(b"* OK IMAP serv").unwrap(), None);
    assert_eq!(pre_tls_frame(b"* OK a\r\n* OK b\r\n").unwrap(), Some(8));
    match pre_tls_frame(b"garbage\r\n") {
        Err(ClientError::CommandFailed(m)) => assert_eq!(m, "malformed pre-TLS response"),
        _ => panic!("expected an error"),
    }
}

#[test]
fn test_capability_round_trip() {
    let mut caps = Capabilities::default();
    assert!(!capability_reply_step(&mut caps, b"* CAPABILITY IMAP4rev2 STARTTLS\r\n").unwrap());
    assert!(caps.starttls && caps.imap4rev2);
    assert!(capability_reply_step(&mut caps, b"T0001 OK done\r\n").unwrap());
    assert!(caps.starttls);
    assert!(require_starttls(&caps).is_ok());
}

#[test]
fn test_capability_round_trip_failure() {
    let mut caps = Capabilities::default();
    match capability_reply_step(&mut caps, b"T0001 BAD no way\r\n") {
        Err(ClientError::CommandFailed(m)) => assert_eq!(m, "CAPABILITY failed: no way"),
        _ => panic!("expected an error"),
    }
    // A reply under another tag is not the one awaited.
    assert!(!capability_reply_step(&mut caps, b"T0002 OK x\r\n").unwrap());
}

#[test]
fn test_starttls_required() {
    let caps = Capabilities::from_atoms(&["IMAP4rev2"]);
    match require_starttls(&caps) {
        Err(ClientError::CommandFailed(m)) => assert_eq!(m, "server does not advertise STARTTLS"),
        _ => panic!("expected an error"),
    }
}

#[test]
fn test_starttls_reply() {
    assert!(!starttls_reply_step(b"* OK still cleartext\r\n").unwrap());
    assert!(!starttls_reply_step(b"T0001 OK old\r\n").unwrap());
    assert!(starttls_reply_step(b"T0002 OK begin TLS\r\n").unwrap());
    match starttls_reply_step(b"T0002 NO not now\r\n") {
        Err(ClientError::CommandFailed(m)) => assert_eq!(m, "STARTTLS rejected: not now"),
        _ => panic!("expected an error"),
    }
}

/// Runs the cleartext exchange over the frames read after each command,
/// one step per frame, as the transport's loop does.
fn run_exchange(cap_frames: &[&[u8]], tls_frames: &[&[u8]]) -> Result<bool, ClientError> {
    let mut caps = Capabilities::default();
    let mut done = false;
    for f in cap_frames {
        if capability_reply_step(&mut caps, f)? {
            done = true;
            break;
        }
    }
    if !done {
        return Ok(false);
    }
    require_starttls(&caps)?;
    for f in tls_frames {
        if starttls_reply_step(f)? {
            return Ok(true);
        }
    }
    Ok(false)
}

#[test]
fn test_starttls_exchange_law() {
    let ok = run_exchange(
        &[b"* CAPABILITY IMAP4rev1\r\n", b"* OK note\r\n", b"* CAPABILITY IMAP4rev1 STARTTLS\r\n", b"T0001 OK done\r\n"],
        &[b"* OK wait\r\n", b"T0002 OK begin\r\n"],
    );
    assert!(ok.unwrap());
    // Only the last capability list before the reply counts.
    match run_exchange(
        &[b"* CAPABILITY STARTTLS\r\n", b"* CAPABILITY IMAP4rev1\r\n", b"T0001 OK done\r\n"],
        &[b"T0002 OK begin\r\n"],
    ) {
        Err(ClientError::CommandFailed(m)) => assert_eq!(m, "server does not advertise STARTTLS"),
        _ => panic!("expected an error"),
    }
    match run_exchange(&[b"* CAPABILITY STARTTLS\r\n", b"T0001 NO busy\r\n"], &[]) {
        Err(ClientError::CommandFailed(m)) => assert_eq!(m, "CAPABILITY failed: busy"),
        _ => panic!("expected an error"),
    }
    match run_exchange(&[b"* CAPABILITY STARTTLS\r\n", b"T0001 OK\r\n"], &[b"T0002 BAD no\r\n"]) {
        Err(ClientError::CommandFailed(m)) => assert_eq!(m, "STARTTLS rejected: no"),
        _ => panic!("expected an error"),
    }
}

#[test]
fn test_session_caps_only_from_tls_frames() {
    let greeting: &[u8] = b"* OK [CAPABILITY IMAP4rev2 IDLE] ready\r\n";
    let caps = Capabilities::after_handshake(Some(greeting), None, &[]);
    assert!(caps.imap4rev2 && caps.idle && !caps.starttls);
    let plain: &[u8] = b"* OK ready\r\n";
    let reply: &[u8] = b"A0001 OK [CAPABILITY IMAP4rev1] done\r\n";
    let untagged = vec![b"* CAPABILITY IMAP4rev2 MOVE\r\n".to_vec()];
    let caps = Capabilities::after_handshake(Some(plain), Some(reply), &untagged);
    assert!(caps.imap4rev2 && caps.move_ext && !caps.imap4rev1);
    let caps = Capabilities::after_handshake(Some(plain), Some(reply), &[]);
    assert!(caps.imap4rev1 && !caps.imap4rev2);
    // Nothing carries a list: the set is empty, whatever came before TLS.
    let caps = Capabilities::after_handshake(None, Some(b"A0001 OK done\r\n"), &[]);
    assert_eq!(format!("{:?}", caps), format!("{:?}", Capabilities::default()));
}

#[test]
fn test_read_one_frame_any_split() {
    let stream: &[u8] = b"* OK [CAPABILITY IMAP4rev1 STARTTLS] hi\r\nT0001 OK done\r\n";
    let first = 41;
    for a in 0..=stream.len() {
        let reads = [&stream[..a], &stream[a..]];
        let mut buf: Vec<u8> = Vec::new();
        let mut frame = None;
        for r in reads {
            if let Some(n) = pre_tls_frame(&buf).unwrap() {
                frame = Some(buf.drain(..n).collect::<Vec<u8>>());
                break;
            }
            buf.extend_from_slice(r);
        }
        if frame.is_none() {
            let n = pre_tls_frame(&buf).unwrap().expect("the whole stream holds a frame");
            frame = Some(buf.drain(..n).collect());
        }
        assert_eq!(frame.unwrap(), &stream[..first]);
        assert_eq!(buf, &stream[first..buf.len() + first]);
    }
}
