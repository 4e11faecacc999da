//! Scenarios of the response parser.

use imap_rs::ast::{
    ContinueReq, DataResponse, FetchAttribute, Response, ResponseCode, Status, StatusItem,
    StatusResponse,
};
use imap_rs::error::ParseError;
use imap_rs::parser::{parse_response, MAX_LITERAL_SIZE};
fn ok<'a>(input: &'a [u8]) -> Response<'a> {
    let (rem, r) = parse_response(input).unwrap();
    assert_eq!(rem.len(), 0, "non-empty remainder for input {:?}", input);
    r
}

// --- Continue ----------------------------------------------------

#[test]
fn test_parse_continue() {
    let r = ok(b"+ ready for data\r\n");
    assert_eq!(
        r,
        Response::Continue(ContinueReq {
            code: None,
            text: "ready for data",
        })
    );
}

#[test]
fn test_parse_continue_with_code() {
    let r = ok(b"+ [ALERT] keep going\r\n");
    if let Response::Continue(c) = r {
        assert_eq!(c.code, Some(ResponseCode::Alert));
        assert_eq!(c.text, "keep going");
    } else {
        panic!("expected continue");
    }
}

#[test]
fn test_parse_continue_invalid_utf8() {
    let res = parse_response(b"+ \xFF\r\n");
    assert!(matches!(res, Err(ParseError::Other("Invalid UTF-8"))));
}

#[test]
fn test_parse_continue_expected_crlf() {
    let res = parse_response(b"+ text\rX");
    assert!(matches!(res, Err(ParseError::Malformed(_))));
}

// --- Untagged Status --------------------------------------------

#[test]
fn test_parse_untagged_ok() {
    let r = ok(b"* OK IMAP4rev1 Service Ready\r\n");
    assert_eq!(
        r,
        Response::Status(StatusResponse {
            tag: None,
            status: Status::Okay,
            code: None,
            text: "IMAP4rev1 Service Ready",
        })
    );
}

#[test]
fn test_parse_untagged_preauth() {
    let r = ok(b"* PREAUTH already authenticated\r\n");
    if let Response::Status(s) = r {
        assert_eq!(s.status, Status::PreAuth);
        assert_eq!(s.text, "already authenticated");
    } else {
        panic!("expected status");
    }
}

#[test]
fn test_parse_bye() {
    let r = ok(b"* BYE Logging out\r\n");
    if let Response::Status(s) = r {
        assert_eq!(s.status, Status::Bye);
    } else {
        panic!("expected status");
    }
}

#[test]
fn test_parse_untagged_invalid_utf8() {
    let res = parse_response(b"* OK \xFF\r\n");
    assert!(matches!(res, Err(ParseError::Other("Invalid UTF-8"))));
}

// --- Response codes ---------------------------------------------

#[test]
fn test_parse_resp_code_uidvalidity() {
    let r = ok(b"* OK [UIDVALIDITY 12345] mailbox open\r\n");
    if let Response::Status(s) = r {
        assert_eq!(s.code, Some(ResponseCode::UidValidity(12345)));
        assert_eq!(s.text, "mailbox open");
    } else {
        panic!();
    }
}

#[test]
fn test_parse_resp_code_uidnext_unseen() {
    let r = ok(b"A1 OK [UIDNEXT 7] done\r\n");
    if let Response::Status(s) = r {
        assert_eq!(s.code, Some(ResponseCode::UidNext(7)));
        assert_eq!(s.tag, Some("A1"));
        assert_eq!(s.status, Status::Okay);
    } else {
        panic!();
    }
    let r = ok(b"A1 OK [UNSEEN 4] done\r\n");
    if let Response::Status(s) = r {
        assert_eq!(s.code, Some(ResponseCode::Unseen(4)));
    } else {
        panic!();
    }
}

#[test]
fn test_parse_resp_code_alert() {
    let r = ok(b"* OK [ALERT] System down at midnight\r\n");
    if let Response::Status(s) = r {
        assert_eq!(s.code, Some(ResponseCode::Alert));
        assert_eq!(s.text, "System down at midnight");
    } else {
        panic!();
    }
}

#[test]
fn test_parse_resp_code_capability() {
    let r = ok(b"* OK [CAPABILITY IMAP4rev2 STARTTLS LOGIN] hello\r\n");
    if let Response::Status(s) = r {
        assert_eq!(
            s.code,
            Some(ResponseCode::Capability(vec![
                "IMAP4rev2",
                "STARTTLS",
                "LOGIN"
            ]))
        );
    } else {
        panic!();
    }
}

#[test]
fn test_parse_resp_code_permanentflags() {
    let r = ok(b"* OK [PERMANENTFLAGS (\\Seen \\Draft \\*)] limited\r\n");
    if let Response::Status(s) = r {
        if let Some(ResponseCode::PermanentFlags(flags)) = s.code {
            assert_eq!(flags, vec!["\\Seen", "\\Draft", "\\*"]);
        } else {
            panic!("wrong code");
        }
    } else {
        panic!();
    }
}

#[test]
fn test_parse_resp_code_read_states() {
    let r = ok(b"A2 OK [READ-WRITE] selected\r\n");
    if let Response::Status(s) = r {
        assert_eq!(s.code, Some(ResponseCode::ReadWrite));
    } else {
        panic!();
    }
    let r = ok(b"A3 OK [READ-ONLY] selected\r\n");
    if let Response::Status(s) = r {
        assert_eq!(s.code, Some(ResponseCode::ReadOnly));
    } else {
        panic!();
    }
}

#[test]
fn test_parse_resp_code_other() {
    let r = ok(b"* OK [APPENDUID 12345 6] appended\r\n");
    if let Response::Status(s) = r {
        if let Some(ResponseCode::Other(name, extra)) = s.code {
            assert_eq!(name, "APPENDUID");
            assert_eq!(extra, Some("12345 6"));
        } else {
            panic!();
        }
    } else {
        panic!();
    }
}

// --- Tagged status ----------------------------------------------

#[test]
fn test_parse_tagged_ok() {
    let r = ok(b"A1 OK LOGIN completed\r\n");
    assert_eq!(
        r,
        Response::Status(StatusResponse {
            tag: Some("A1"),
            status: Status::Okay,
            code: None,
            text: "LOGIN completed",
        })
    );
}

#[test]
fn test_parse_tagged_no() {
    let r = ok(b"A1 NO LOGIN failed\r\n");
    if let Response::Status(s) = r {
        assert_eq!(s.status, Status::No);
        assert_eq!(s.text, "LOGIN failed");
    } else {
        panic!();
    }
}

#[test]
fn test_parse_tagged_bad() {
    let r = ok(b"A1 BAD bad command\r\n");
    if let Response::Status(s) = r {
        assert_eq!(s.status, Status::Bad);
    } else {
        panic!();
    }
}

// --- Data responses ---------------------------------------------

#[test]
fn test_parse_capability_data() {
    let r = ok(b"* CAPABILITY IMAP4rev2 STARTTLS AUTH=PLAIN\r\n");
    if let Response::Data(DataResponse::Capability(caps)) = r {
        assert_eq!(caps, vec!["IMAP4rev2", "STARTTLS", "AUTH=PLAIN"]);
    } else {
        panic!();
    }
}

#[test]
fn test_parse_list() {
    let r = ok(b"* LIST (\\HasNoChildren) \".\" \"INBOX\"\r\n");
    if let Response::Data(DataResponse::List {
        flags,
        delimiter,
        name,
    }) = r
    {
        assert_eq!(flags, vec!["\\HasNoChildren"]);
        assert_eq!(delimiter, Some("."));
        assert_eq!(name, "INBOX");
    } else {
        panic!();
    }
}

#[test]
fn test_parse_list_nil_delimiter() {
    let r = ok(b"* LIST () NIL \"INBOX\"\r\n");
    if let Response::Data(DataResponse::List {
        flags,
        delimiter,
        name,
    }) = r
    {
        assert!(flags.is_empty());
        assert_eq!(delimiter, None);
        assert_eq!(name, "INBOX");
    } else {
        panic!();
    }
}

#[test]
fn test_parse_lsub() {
    let r = ok(b"* LSUB (\\Noselect) \"/\" \"foo\"\r\n");
    if let Response::Data(DataResponse::Lsub { flags, .. }) = r {
        assert_eq!(flags, vec!["\\Noselect"]);
    } else {
        panic!();
    }
}

#[test]
fn test_parse_status_response() {
    let r = ok(b"* STATUS \"INBOX\" (MESSAGES 10 RECENT 1 UNSEEN 3)\r\n");
    if let Response::Data(DataResponse::Status { mailbox, items }) = r {
        assert_eq!(mailbox, "INBOX");
        assert_eq!(
            items,
            vec![
                StatusItem::Messages(10),
                StatusItem::Recent(1),
                StatusItem::Unseen(3)
            ]
        );
    } else {
        panic!();
    }
}

#[test]
fn test_parse_search_empty() {
    let r = ok(b"* SEARCH\r\n");
    if let Response::Data(DataResponse::Search(ids)) = r {
        assert!(ids.is_empty());
    } else {
        panic!();
    }
}

#[test]
fn test_parse_search_results() {
    let r = ok(b"* SEARCH 1 2 3 42\r\n");
    if let Response::Data(DataResponse::Search(ids)) = r {
        assert_eq!(ids, vec![1, 2, 3, 42]);
    } else {
        panic!();
    }
}

#[test]
fn test_parse_flags() {
    let r = ok(b"* FLAGS (\\Seen \\Draft)\r\n");
    if let Response::Data(DataResponse::Flags(flags)) = r {
        assert_eq!(flags, vec!["\\Seen", "\\Draft"]);
    } else {
        panic!();
    }
}

#[test]
fn test_parse_exists_recent_expunge() {
    if let Response::Data(DataResponse::Exists(n)) = ok(b"* 5 EXISTS\r\n") {
        assert_eq!(n, 5);
    } else {
        panic!();
    }
    if let Response::Data(DataResponse::Recent(n)) = ok(b"* 1 RECENT\r\n") {
        assert_eq!(n, 1);
    } else {
        panic!();
    }
    if let Response::Data(DataResponse::Expunge(n)) = ok(b"* 10 EXPUNGE\r\n") {
        assert_eq!(n, 10);
    } else {
        panic!();
    }
}

// --- FETCH attributes -------------------------------------------

#[test]
fn test_parse_fetch_flags() {
    let r = ok(b"* 1 FETCH (FLAGS (\\Seen))\r\n");
    if let Response::Data(DataResponse::Fetch { seq, attributes }) = r {
        assert_eq!(seq, 1);
        assert_eq!(attributes, vec![FetchAttribute::Flags(vec!["\\Seen"])]);
    } else {
        panic!();
    }
}

#[test]
fn test_parse_fetch_uid() {
    let r = ok(b"* 1 FETCH (UID 42)\r\n");
    if let Response::Data(DataResponse::Fetch { attributes, .. }) = r {
        assert_eq!(attributes, vec![FetchAttribute::Uid(42)]);
    } else {
        panic!();
    }
}

#[test]
fn test_parse_fetch_internaldate() {
    let r = ok(b"* 1 FETCH (INTERNALDATE \"17-Jul-1996 02:44:25 -0700\")\r\n");
    if let Response::Data(DataResponse::Fetch { attributes, .. }) = r {
        assert_eq!(
            attributes,
            vec![FetchAttribute::InternalDate("17-Jul-1996 02:44:25 -0700")]
        );
    } else {
        panic!();
    }
}

#[test]
fn test_parse_fetch_rfc822_size() {
    let r = ok(b"* 2 FETCH (RFC822.SIZE 4242)\r\n");
    if let Response::Data(DataResponse::Fetch { attributes, .. }) = r {
        assert_eq!(attributes, vec![FetchAttribute::Rfc822Size(4242)]);
    } else {
        panic!();
    }
}

#[test]
fn test_parse_fetch_body_section_with_literal() {
    let r = ok(b"* 1 FETCH (BODY[] {10}\r\n0123456789)\r\n");
    if let Response::Data(DataResponse::Fetch { attributes, .. }) = r {
        assert_eq!(
            attributes,
            vec![FetchAttribute::BodySection {
                section: None,
                origin: None,
                data: Some(b"0123456789".as_ref()),
            }]
        );
    } else {
        panic!();
    }
}

#[test]
fn test_parse_fetch_body_section_with_section_and_origin() {
    let r = ok(b"* 1 FETCH (BODY[HEADER.FIELDS (FROM TO)]<0> {7}\r\nFrom: a)\r\n");
    if let Response::Data(DataResponse::Fetch { attributes, .. }) = r {
        assert_eq!(
            attributes,
            vec![FetchAttribute::BodySection {
                section: Some("HEADER.FIELDS (FROM TO)"),
                origin: Some(0),
                data: Some(b"From: a".as_ref()),
            }]
        );
    } else {
        panic!();
    }
}

#[test]
fn test_parse_fetch_body_section_nil() {
    let r = ok(b"* 1 FETCH (BODY[] NIL)\r\n");
    if let Response::Data(DataResponse::Fetch { attributes, .. }) = r {
        assert_eq!(
            attributes,
            vec![FetchAttribute::BodySection {
                section: None,
                origin: None,
                data: None,
            }]
        );
    } else {
        panic!();
    }
}

#[test]
fn test_parse_fetch_multi_attrs_with_literal() {
    let r = ok(b"* 1 FETCH (UID 5 BODY[] {3}\r\nabc FLAGS (\\Seen))\r\n");
    if let Response::Data(DataResponse::Fetch { attributes, .. }) = r {
        assert_eq!(
            attributes,
            vec![
                FetchAttribute::Uid(5),
                FetchAttribute::BodySection {
                    section: None,
                    origin: None,
                    data: Some(b"abc".as_ref()),
                },
                FetchAttribute::Flags(vec!["\\Seen"]),
            ]
        );
    } else {
        panic!();
    }
}

#[test]
fn test_parse_fetch_envelope_raw() {
    let r = ok(
        b"* 1 FETCH (ENVELOPE (\"Date\" \"Subject\" NIL NIL NIL NIL NIL NIL NIL \"<id>\"))\r\n",
    );
    if let Response::Data(DataResponse::Fetch { attributes, .. }) = r {
        if let FetchAttribute::Envelope(bytes) = &attributes[0] {
            assert!(bytes.starts_with(b"("));
            assert!(bytes.ends_with(b")"));
        } else {
            panic!("expected envelope");
        }
    } else {
        panic!();
    }
}

#[test]
fn test_parse_fetch_bodystructure_raw() {
    let r = ok(b"* 1 FETCH (BODYSTRUCTURE (\"text\" \"plain\" NIL NIL NIL \"7BIT\" 12))\r\n");
    if let Response::Data(DataResponse::Fetch { attributes, .. }) = r {
        assert!(matches!(attributes[0], FetchAttribute::BodyStructure(_)));
    } else {
        panic!();
    }
}

// --- Incomplete & error paths -----------------------------------

#[test]
fn test_parse_empty_input_incomplete() {
    let res = parse_response(b"");
    assert!(matches!(res, Err(ParseError::Incomplete)));
}

#[test]
fn test_parse_incomplete_no_crlf() {
    let res = parse_response(b"* OK ");
    assert!(matches!(res, Err(ParseError::Incomplete)));
}

#[test]
fn test_parse_incomplete_only_cr() {
    let res = parse_response(b"* OK text\r");
    assert!(matches!(res, Err(ParseError::Incomplete)));
}

#[test]
fn test_parse_literal_incomplete() {
    let res = parse_response(b"* 1 FETCH (BODY[] {10}\r\nabc");
    assert!(matches!(res, Err(ParseError::Incomplete)));
}

#[test]
fn test_parse_literal_too_large() {
    // Use a literal length one byte over the cap.
    let s = format!("* 1 FETCH (BODY[] {{{}}}\r\n", MAX_LITERAL_SIZE + 1);
    let res = parse_response(s.as_bytes());
    assert!(matches!(res, Err(ParseError::LiteralTooLarge { .. })));
}

#[test]
fn test_parse_incomplete_tagged_no_space() {
    let res = parse_response(b"A1");
    assert!(matches!(res, Err(ParseError::Incomplete)));
}

#[test]
fn test_parse_incomplete_tagged_no_crlf() {
    let res = parse_response(b"A1 OK\r");
    assert!(matches!(res, Err(ParseError::Incomplete)));
}

#[test]
fn test_parse_missing_lf_after_cr() {
    let res = parse_response(b"* OK text\rX");
    assert!(matches!(res, Err(ParseError::Malformed(_))));
}

#[test]
fn test_parse_unknown_data_falls_back_to_other() {
    let r = ok(b"* WIBBLE foo bar\r\n");
    if let Response::Data(DataResponse::Other(line)) = r {
        assert_eq!(line, b"WIBBLE foo bar");
    } else {
        panic!();
    }
}

// --- Trailing remainder -----------------------------------------

#[test]
fn test_parse_returns_remainder() {
    let input = b"* OK first\r\n* OK second\r\n";
    let (rem, _) = parse_response(input).unwrap();
    assert_eq!(rem, b"* OK second\r\n");
}

// --- Keyword boundary handling ----------------------------------

#[test]
fn test_parse_keyword_prefix_not_status() {
    // "OKAY" must NOT be treated as the "OK" status keyword; it falls
    // through to a named data response captured verbatim.
    let r = ok(b"* OKAY all good\r\n");
    if let Response::Data(DataResponse::Other(line)) = r {
        assert_eq!(line, b"OKAY all good");
    } else {
        panic!("expected Other data, got {r:?}");
    }
}

// --- CRLF framing errors ----------------------------------------

#[test]
fn test_parse_lf_without_cr_is_malformed() {
    // Bare LF (no preceding CR) trips the "expected CR" guard.
    let res = parse_response(b"* OK text\n");
    assert!(matches!(res, Err(ParseError::Malformed("expected CR"))));
}

// --- Number parsing edge cases ----------------------------------

#[test]
fn test_parse_number_incomplete_at_eof() {
    let res = parse_response(b"* OK [UIDNEXT ");
    assert!(matches!(res, Err(ParseError::Incomplete)));
}

#[test]
fn test_parse_number_invalid_non_digit() {
    let res = parse_response(b"* OK [UIDNEXT x]\r\n");
    assert!(matches!(res, Err(ParseError::InvalidNumber)));
}

// --- Atom parsing edge cases ------------------------------------

#[test]
fn test_parse_atom_incomplete_at_eof() {
    // Numeric data response truncated right after the SP.
    let res = parse_response(b"* 5 ");
    assert!(matches!(res, Err(ParseError::Incomplete)));
}

#[test]
fn test_parse_atom_malformed_non_atom_char() {
    let res = parse_response(b"* 5 (\r\n");
    assert!(matches!(res, Err(ParseError::Malformed("expected atom"))));
}

// --- Tag parsing edge cases -------------------------------------

#[test]
fn test_parse_tag_malformed_empty() {
    // First byte is CR: not '+'/'*' so dispatched as tagged, but the tag
    // is empty.
    let res = parse_response(b"\r\n");
    assert!(matches!(res, Err(ParseError::Malformed("expected tag"))));
}

// --- Quoted string escapes & control chars ----------------------

#[test]
fn test_parse_quoted_with_escape_sequence() {
    // Escaped quote inside the quoted string is passed through raw.
    let r = ok(b"* 1 FETCH (INTERNALDATE \"a\\\"b\")\r\n");
    if let Response::Data(DataResponse::Fetch { attributes, .. }) = r {
        assert_eq!(attributes, vec![FetchAttribute::InternalDate("a\\\"b")]);
    } else {
        panic!("expected fetch, got {r:?}");
    }
}

#[test]
fn test_parse_quoted_with_cr_is_malformed() {
    let res = parse_response(b"* 1 FETCH (INTERNALDATE \"a\rb\")\r\n");
    assert!(matches!(
        res,
        Err(ParseError::Malformed("CR/LF inside quoted string"))
    ));
}

// --- astring / nstring forms ------------------------------------

#[test]
fn test_parse_status_mailbox_as_atom() {
    // Unquoted (atom) mailbox name exercises the astring atom path.
    let r = ok(b"* STATUS INBOX (MESSAGES 1)\r\n");
    if let Response::Data(DataResponse::Status { mailbox, .. }) = r {
        assert_eq!(mailbox, "INBOX");
    } else {
        panic!("expected status, got {r:?}");
    }
}

#[test]
fn test_parse_status_mailbox_as_literal() {
    let r = ok(b"* STATUS {5}\r\nINBOX (MESSAGES 1)\r\n");
    if let Response::Data(DataResponse::Status { mailbox, .. }) = r {
        assert_eq!(mailbox, "INBOX");
    } else {
        panic!("expected status, got {r:?}");
    }
}

#[test]
fn test_parse_list_delimiter_as_literal() {
    let r = ok(b"* LIST () {1}\r\n. \"INBOX\"\r\n");
    if let Response::Data(DataResponse::List {
        delimiter, name, ..
    }) = r
    {
        assert_eq!(delimiter, Some("."));
        assert_eq!(name, "INBOX");
    } else {
        panic!("expected list, got {r:?}");
    }
}

#[test]
fn test_parse_list_delimiter_malformed() {
    let res = parse_response(b"* LIST () X \"INBOX\"\r\n");
    assert!(matches!(
        res,
        Err(ParseError::Malformed("expected nstring"))
    ));
}

// --- Paren atom list edge cases ---------------------------------

#[test]
fn test_parse_flag_list_malformed_no_separator() {
    // No SP between flags after the first one is consumed.
    let res = parse_response(b"* FLAGS (\\Seen\\Draft)\r\n");
    assert!(matches!(
        res,
        Err(ParseError::Malformed("expected SP or ) in list"))
    ));
}

#[test]
fn test_parse_flag_list_empty_item_malformed() {
    let res = parse_response(b"* FLAGS (()\r\n");
    assert!(matches!(
        res,
        Err(ParseError::Malformed("expected flag/atom"))
    ));
}

// --- Balanced parens: nesting & literals ------------------------

#[test]
fn test_parse_envelope_with_nested_parens_and_literal() {
    let r = ok(b"* 1 FETCH (ENVELOPE ((\"a\") {2}\r\nbc))\r\n");
    if let Response::Data(DataResponse::Fetch { attributes, .. }) = r {
        if let FetchAttribute::Envelope(bytes) = &attributes[0] {
            assert_eq!(*bytes, b"((\"a\") {2}\r\nbc)".as_ref());
        } else {
            panic!("expected envelope, got {attributes:?}");
        }
    } else {
        panic!("expected fetch, got {r:?}");
    }
}

// --- Tagged status keyword disambiguation -----------------------

#[test]
fn test_parse_tagged_partial_keyword_incomplete() {
    let res = parse_response(b"A1 O");
    assert!(matches!(res, Err(ParseError::Incomplete)));
}

#[test]
fn test_parse_tagged_unknown_keyword_malformed() {
    let res = parse_response(b"A1 ZZ done\r\n");
    assert!(matches!(
        res,
        Err(ParseError::Malformed("expected tagged status keyword"))
    ));
}

// --- Response code edge cases -----------------------------------

#[test]
fn test_parse_resp_code_empty_malformed() {
    let res = parse_response(b"* OK [] text\r\n");
    assert!(matches!(
        res,
        Err(ParseError::Malformed("empty response code"))
    ));
}

#[test]
fn test_parse_resp_code_badcharset_with_list() {
    let r = ok(b"* NO [BADCHARSET (UTF-8 KOI8-R)] bad charset\r\n");
    if let Response::Status(s) = r {
        assert_eq!(
            s.code,
            Some(ResponseCode::BadCharset(vec!["UTF-8", "KOI8-R"]))
        );
    } else {
        panic!("expected status, got {r:?}");
    }
}

#[test]
fn test_parse_resp_code_badcharset_without_list() {
    let r = ok(b"* NO [BADCHARSET] bad charset\r\n");
    if let Response::Status(s) = r {
        assert_eq!(s.code, Some(ResponseCode::BadCharset(vec![])));
    } else {
        panic!("expected status, got {r:?}");
    }
}

#[test]
fn test_parse_resp_code_other_without_extra() {
    let r = ok(b"* NO [NONEXISTENT] gone\r\n");
    if let Response::Status(s) = r {
        assert_eq!(s.code, Some(ResponseCode::Other("NONEXISTENT", None)));
    } else {
        panic!("expected status, got {r:?}");
    }
}

// --- Unknown numeric data salvage -------------------------------

#[test]
fn test_parse_unknown_numeric_data_falls_back_to_other() {
    let r = ok(b"* 5 WIBBLE foo bar\r\n");
    if let Response::Data(DataResponse::Other(line)) = r {
        assert_eq!(line, b"* 5 WIBBLE foo bar");
    } else {
        panic!("expected Other data, got {r:?}");
    }
}

// --- STATUS items -----------------------------------------------

#[test]
fn test_parse_status_empty_items() {
    let r = ok(b"* STATUS \"INBOX\" ()\r\n");
    if let Response::Data(DataResponse::Status { items, .. }) = r {
        assert!(items.is_empty());
    } else {
        panic!("expected status, got {r:?}");
    }
}

#[test]
fn test_parse_status_items_uid_and_other() {
    let r = ok(b"* STATUS \"X\" (UIDNEXT 5 UIDVALIDITY 9 HIGHESTMODSEQ 100)\r\n");
    if let Response::Data(DataResponse::Status { items, .. }) = r {
        assert_eq!(
            items,
            vec![
                StatusItem::UidNext(5),
                StatusItem::UidValidity(9),
                StatusItem::Other(100),
            ]
        );
    } else {
        panic!("expected status, got {r:?}");
    }
}

#[test]
fn test_parse_status_items_malformed_separator() {
    let res = parse_response(b"* STATUS \"X\" (MESSAGES 1Z)\r\n");
    assert!(matches!(
        res,
        Err(ParseError::Malformed("expected SP or ) in STATUS items"))
    ));
}

#[test]
fn test_parse_status_items_missing_open_paren() {
    // consume_byte('(') fails with InvalidChar.
    let res = parse_response(b"* STATUS \"X\" MESSAGES 1\r\n");
    assert!(matches!(res, Err(ParseError::InvalidChar(_))));
}

// --- FETCH attribute list edge cases ----------------------------

#[test]
fn test_parse_fetch_empty_attrs() {
    let r = ok(b"* 1 FETCH ()\r\n");
    if let Response::Data(DataResponse::Fetch { attributes, .. }) = r {
        assert!(attributes.is_empty());
    } else {
        panic!("expected fetch, got {r:?}");
    }
}

#[test]
fn test_parse_fetch_attrs_malformed_separator() {
    let res = parse_response(b"* 1 FETCH (UID 5Z)\r\n");
    assert!(matches!(
        res,
        Err(ParseError::Malformed("expected SP or ) in FETCH atts"))
    ));
}

#[test]
fn test_parse_fetch_unknown_attribute_malformed() {
    let res = parse_response(b"* 1 FETCH (FOOBAR 1)\r\n");
    assert!(matches!(
        res,
        Err(ParseError::Malformed("unknown FETCH attribute"))
    ));
}

#[test]
fn test_parse_fetch_empty_att_name_malformed() {
    let res = parse_response(b"* 1 FETCH ( )\r\n");
    assert!(matches!(
        res,
        Err(ParseError::Malformed("expected FETCH att name"))
    ));
}

// --- RFC822 family ----------------------------------------------

#[test]
fn test_parse_fetch_rfc822_literal() {
    let r = ok(b"* 1 FETCH (RFC822 {3}\r\nabc)\r\n");
    if let Response::Data(DataResponse::Fetch { attributes, .. }) = r {
        assert_eq!(attributes, vec![FetchAttribute::Rfc822(b"abc")]);
    } else {
        panic!("expected fetch, got {r:?}");
    }
}

#[test]
fn test_parse_fetch_rfc822_header_and_text() {
    let r = ok(b"* 1 FETCH (RFC822.HEADER {2}\r\nhi RFC822.TEXT {2}\r\nyo)\r\n");
    if let Response::Data(DataResponse::Fetch { attributes, .. }) = r {
        assert_eq!(
            attributes,
            vec![
                FetchAttribute::Rfc822Header(b"hi"),
                FetchAttribute::Rfc822Text(b"yo"),
            ]
        );
    } else {
        panic!("expected fetch, got {r:?}");
    }
}

#[test]
fn test_parse_fetch_rfc822_quoted() {
    let r = ok(b"* 1 FETCH (RFC822 \"hi\")\r\n");
    if let Response::Data(DataResponse::Fetch { attributes, .. }) = r {
        assert_eq!(attributes, vec![FetchAttribute::Rfc822(b"hi")]);
    } else {
        panic!("expected fetch, got {r:?}");
    }
}

#[test]
fn test_parse_fetch_rfc822_nil() {
    let r = ok(b"* 1 FETCH (RFC822 NIL)\r\n");
    if let Response::Data(DataResponse::Fetch { attributes, .. }) = r {
        assert_eq!(attributes, vec![FetchAttribute::Rfc822(b"")]);
    } else {
        panic!("expected fetch, got {r:?}");
    }
}

#[test]
fn test_parse_fetch_rfc822_malformed() {
    let res = parse_response(b"* 1 FETCH (RFC822 Z)\r\n");
    assert!(matches!(
        res,
        Err(ParseError::Malformed("expected nstring"))
    ));
}

// --- BODY structure (no section) --------------------------------

#[test]
fn test_parse_fetch_body_no_section() {
    let r = ok(b"* 1 FETCH (BODY (\"text\" \"plain\" NIL))\r\n");
    if let Response::Data(DataResponse::Fetch { attributes, .. }) = r {
        assert!(matches!(attributes[0], FetchAttribute::Body(_)));
    } else {
        panic!("expected fetch, got {r:?}");
    }
}

#[test]
fn test_parse_fetch_body_section_quoted_data() {
    let r = ok(b"* 1 FETCH (BODY[] \"hi\")\r\n");
    if let Response::Data(DataResponse::Fetch { attributes, .. }) = r {
        assert_eq!(
            attributes,
            vec![FetchAttribute::BodySection {
                section: None,
                origin: None,
                data: Some(b"hi".as_ref()),
            }]
        );
    } else {
        panic!("expected fetch, got {r:?}");
    }
}

#[test]
fn test_parse_fetch_body_section_malformed_data() {
    let res = parse_response(b"* 1 FETCH (BODY[] Z)\r\n");
    assert!(matches!(
        res,
        Err(ParseError::Malformed("expected nstring"))
    ));
}

#[test]
fn test_parse_fetch_body_section_crlf_in_section() {
    let res = parse_response(b"* 1 FETCH (BODY[HE\r\n");
    assert!(matches!(
        res,
        Err(ParseError::Malformed("CR/LF before terminator"))
    ));
}
