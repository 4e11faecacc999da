//! Scenarios of the capability set.

use imap_rs::capabilities::Capabilities;

#[test]
fn test_parse_gmail_caps() {
    let cap_str = "* CAPABILITY IMAP4rev1 UNSELECT IDLE NAMESPACE QUOTA ID XLIST MOVE CONDSTORE ENABLE UTF8=ACCEPT\r\n";
    let caps = Capabilities::parse(cap_str);
    assert!(caps.imap4rev1);
    assert!(!caps.imap4rev2);
    assert!(caps.move_ext);
    assert!(caps.condstore);
    assert!(caps.idle);
    assert!(caps.unselect);
    assert!(caps.enable);
}

#[test]
fn test_parse_rev2_caps() {
    let cap_str = "* CAPABILITY IMAP4rev2 MOVE UIDPLUS LITERAL+\r\n";
    let caps = Capabilities::parse(cap_str);
    assert!(caps.imap4rev2);
    assert!(caps.move_ext);
    assert!(caps.uidplus);
    assert!(caps.literal_plus);
}

#[test]
fn test_capabilities_from_atoms() {
    let caps = Capabilities::from_atoms(&["IMAP4REV2", "STARTTLS", "AUTH=PLAIN"]);
    assert!(caps.imap4rev2);
    assert!(caps.starttls);
    assert!(caps.auth_plain);
}

#[test]
fn test_capabilities_from_response_code() {
    // OK response carrying [CAPABILITY ...] response code.
    let frame = b"A1 OK [CAPABILITY IMAP4rev2 STARTTLS] welcome\r\n";
    let caps = Capabilities::from_frame(frame).unwrap();
    assert!(caps.imap4rev2);
    assert!(caps.starttls);
    assert!(!caps.imap4rev1);
}

#[test]
fn test_no_false_prefix_match() {
    // Hypothetical extension that would have tripped the substring matcher.
    let caps = Capabilities::from_atoms(&["IMAP4REV2X"]);
    assert!(!caps.imap4rev2);
}

#[test]
fn test_parse_legacy_string_falls_back() {
    // No CAPABILITY response wrapper — the substring fallback still works.
    let caps = Capabilities::parse("IMAP4rev2 IDLE STARTTLS");
    assert!(caps.imap4rev2);
    assert!(caps.idle);
    assert!(caps.starttls);
}

// --- Further scenarios ---------------------------------------------------

#[test]
fn test_from_atoms_is_case_insensitive_and_covers_every_field() {
    let caps = Capabilities::from_atoms(&[
        "imap4rev1", "Imap4Rev2", "starttls", "LOGINDISABLED", "idle", "unselect", "condstore",
        "qresync", "move", "uidplus", "literal+", "LITERAL-", "enable", "auth=plain", "AUTH=LOGIN",
        "auth=xoauth2", "AUTH=OAUTHBEARER",
    ]);
    assert!(caps.imap4rev1 && caps.imap4rev2 && caps.starttls && caps.login_disabled);
    assert!(caps.idle && caps.unselect && caps.condstore && caps.qresync && caps.move_ext);
    assert!(caps.uidplus && caps.literal_plus && caps.literal_minus && caps.enable);
    assert!(caps.auth_plain && caps.auth_login && caps.auth_xoauth2 && caps.auth_oauthbearer);
}

#[test]
fn test_from_atoms_ignores_unknown_atoms() {
    let caps = Capabilities::from_atoms(&["NAMESPACE", "AUTH=PLAINX", "XMOVE", ""]);
    let none = Capabilities::default();
    assert_eq!(format!("{:?}", caps), format!("{:?}", none));
}

#[test]
fn test_default_has_no_capability() {
    let caps = Capabilities::default();
    assert!(!caps.imap4rev1 && !caps.imap4rev2 && !caps.starttls && !caps.idle && !caps.move_ext);
}

#[test]
fn test_from_frame_without_capabilities_is_none() {
    assert!(Capabilities::from_frame(b"* OK ready\r\n").is_none());
    assert!(Capabilities::from_frame(b"* OK ready").is_none());
    assert!(Capabilities::from_frame(b"garbage\r\n").is_none());
}

#[test]
fn test_update_from_frame_keeps_the_set_on_other_frames() {
    let mut caps = Capabilities::from_atoms(&["IDLE"]);
    assert!(!caps.update_from_frame(b"* 3 EXISTS\r\n"));
    assert!(caps.idle);
    assert!(caps.update_from_frame(b"* CAPABILITY IMAP4rev2\r\n"));
    assert!(caps.imap4rev2);
    assert!(!caps.idle);
}

#[test]
fn test_update_from_first_takes_the_first_capability_frame() {
    let frames = vec![
        b"* 1 EXISTS\r\n".to_vec(),
        b"* CAPABILITY IMAP4rev2 STARTTLS UNSELECT\r\n".to_vec(),
        b"* CAPABILITY IMAP4rev1\r\n".to_vec(),
    ];
    let mut caps = Capabilities::default();
    assert!(caps.update_from_first(&frames));
    assert!(caps.imap4rev2 && caps.starttls && caps.unselect);
    assert!(!caps.imap4rev1);

    let mut caps = Capabilities::from_atoms(&["MOVE"]);
    assert!(!caps.update_from_first(&[b"* OK hi\r\n".to_vec()]));
    assert!(caps.move_ext);
}

#[test]
fn test_try_update_from_response_code() {
    let (_, resp) = imap_rs::parser::parse_response(b"* OK [CAPABILITY IDLE MOVE] hi\r\n").unwrap();
    let mut caps = Capabilities::default();
    assert!(caps.try_update_from(&resp));
    assert!(caps.idle && caps.move_ext);
}
