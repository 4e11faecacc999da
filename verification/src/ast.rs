//! Borrowed AST for IMAP4rev1 / IMAP4rev2 server responses, and its
//! mathematical model.
//!
//! All `&'a` references point into the input buffer to preserve
//! the parser's zero-copy contract. Quoted-string escape sequences (`\\`,
//! `\"`) are NOT processed — the raw bytes are returned.
//!
//! Every borrowed type has a view (`@`) into a `Spec*` type of the same
//! shape in which strings are character sequences and byte slices are byte
//! sequences; the grammar in [`crate::grammar`] is stated over those views.

use vstd::prelude::*;

verus! {

/// A single parsed server response line.
#[derive(Debug, PartialEq, Eq)]
pub enum Response<'a> {
    /// A status response (`OK`, `NO`, `BAD`, `PREAUTH`, `BYE`), tagged or untagged.
    Status(StatusResponse<'a>),
    /// An untagged data response (`CAPABILITY`, `LIST`, `FETCH`, …).
    Data(DataResponse<'a>),
    /// A command-continuation request (`+ …`).
    Continue(ContinueReq<'a>),
}

/// A status response: `<tag|*> <status> [code] text`.
#[derive(Debug, PartialEq, Eq)]
pub struct StatusResponse<'a> {
    /// The command tag this response answers, or `None` for an untagged (`*`) response.
    pub tag: Option<&'a str>,
    /// The status condition (`OK`, `NO`, `BAD`, `PREAUTH`, `BYE`).
    pub status: Status,
    /// Optional machine-readable response code in `[...]`, if present.
    pub code: Option<ResponseCode<'a>>,
    /// Human-readable response text following the status (and code).
    pub text: &'a str,
}

/// The status condition of a [`StatusResponse`].
#[derive(Debug, PartialEq, Eq, Clone, Copy)]
pub enum Status {
    /// `OK` — success or informational. (Named `Okay` because `Ok` is a
    /// reserved word of the verification prelude.)
    Okay,
    /// `NO` — operational error; the command failed.
    No,
    /// `BAD` — protocol error; the command was malformed or unexpected.
    Bad,
    /// `PREAUTH` — the connection is already authenticated (greeting only).
    PreAuth,
    /// `BYE` — the server is closing the connection.
    Bye,
}

/// A machine-readable response code carried in `[...]` (RFC 9051 §7.1).
#[derive(Debug, PartialEq, Eq)]
pub enum ResponseCode<'a> {
    /// `ALERT` — text that must be shown to the user.
    Alert,
    /// `BADCHARSET` — the list of charsets the server does support.
    BadCharset(Vec<&'a str>),
    /// `CAPABILITY` — the server's capability list.
    Capability(Vec<&'a str>),
    /// `PARSE` — the server failed to parse a message's header/MIME structure.
    Parse,
    /// `PERMANENTFLAGS` — flags the client can change permanently in the mailbox.
    PermanentFlags(Vec<&'a str>),
    /// `READ-ONLY` — the mailbox was selected read-only.
    ReadOnly,
    /// `READ-WRITE` — the mailbox was selected read-write.
    ReadWrite,
    /// `TRYCREATE` — the target mailbox does not exist; create it and retry.
    TryCreate,
    /// `UIDNEXT` — the predicted next UID value for the mailbox.
    UidNext(u32),
    /// `UIDVALIDITY` — the mailbox's UID validity value.
    UidValidity(u32),
    /// `UNSEEN` — the sequence number of the first unseen message.
    Unseen(u32),
    /// Unrecognized response code: `[ATOM]` or `[ATOM SP rest]`.
    Other(&'a str, Option<&'a str>),
}

/// An untagged data response (`* …`).
#[derive(Debug, PartialEq, Eq)]
pub enum DataResponse<'a> {
    /// `CAPABILITY` — the server's advertised capabilities.
    Capability(Vec<&'a str>),
    /// `LIST` — a mailbox returned by the `LIST` command.
    List {
        /// Mailbox attribute flags (e.g. `\Noselect`, `\HasChildren`).
        flags: Vec<&'a str>,
        /// Hierarchy delimiter, or `None` for a flat namespace (`NIL`).
        delimiter: Option<&'a str>,
        /// The mailbox name.
        name: &'a str,
    },
    /// `LSUB` — a subscribed mailbox returned by the `LSUB` command.
    Lsub {
        /// Mailbox attribute flags.
        flags: Vec<&'a str>,
        /// Hierarchy delimiter, or `None` (`NIL`).
        delimiter: Option<&'a str>,
        /// The mailbox name.
        name: &'a str,
    },
    /// `STATUS` — requested status attributes for a mailbox.
    Status {
        /// The mailbox the status items describe.
        mailbox: &'a str,
        /// The returned status items.
        items: Vec<StatusItem>,
    },
    /// `SEARCH` — message numbers (or UIDs) matching a search.
    Search(Vec<u32>),
    /// `FLAGS` — the flags defined in the selected mailbox.
    Flags(Vec<&'a str>),
    /// `EXISTS` — the number of messages in the mailbox.
    Exists(u32),
    /// `RECENT` — the number of messages with the `\Recent` flag.
    Recent(u32),
    /// `EXPUNGE` — the sequence number of a message that was expunged.
    Expunge(u32),
    /// `FETCH` — message data for a single message.
    Fetch {
        /// The message sequence number.
        seq: u32,
        /// The fetched attributes for this message.
        attributes: Vec<FetchAttribute<'a>>,
    },
    /// Unrecognized untagged data response — the raw line bytes (without CRLF).
    Other(&'a [u8]),
}

/// A single item in a `STATUS` data response.
#[derive(Debug, PartialEq, Eq, Clone, Copy)]
pub enum StatusItem {
    /// `MESSAGES` — total message count.
    Messages(u32),
    /// `RECENT` — count of `\Recent` messages.
    Recent(u32),
    /// `UIDNEXT` — predicted next UID.
    UidNext(u32),
    /// `UIDVALIDITY` — UID validity value.
    UidValidity(u32),
    /// `UNSEEN` — count of unseen messages.
    Unseen(u32),
    /// RFC 7889 / RFC 9051 — newer attributes surfaced but not decoded further.
    Other(u32),
}

/// A single attribute returned in a `FETCH` data response.
#[derive(Debug, PartialEq, Eq)]
pub enum FetchAttribute<'a> {
    /// `FLAGS` — the flags set on the message.
    Flags(Vec<&'a str>),
    /// `INTERNALDATE` — the server-side receipt timestamp (raw quoted string).
    InternalDate(&'a str),
    /// `RFC822.SIZE` — the message size in octets.
    Rfc822Size(u32),
    /// Full RFC822 message (legacy alias for `BODY[]`).
    Rfc822(&'a [u8]),
    /// `RFC822.HEADER` — the message header (legacy alias for `BODY[HEADER]`).
    Rfc822Header(&'a [u8]),
    /// `RFC822.TEXT` — the message body text (legacy alias for `BODY[TEXT]`).
    Rfc822Text(&'a [u8]),
    /// Parsed-form ENVELOPE bytes (raw, including outer parens).
    Envelope(&'a [u8]),
    /// `BODY` (no section) — non-extensible body structure as raw bytes.
    Body(&'a [u8]),
    /// `BODYSTRUCTURE` — extensible body structure as raw bytes.
    BodyStructure(&'a [u8]),
    /// `BODY[<section>]<<origin>>` with the data as raw bytes.
    BodySection {
        /// The section specifier (e.g. `HEADER`, `1.2.TEXT`), or `None` for `BODY[]`.
        section: Option<&'a str>,
        /// The starting octet offset for a partial (`<origin>`) fetch, if any.
        origin: Option<u32>,
        /// The section data, or `None` if the server returned `NIL`.
        data: Option<&'a [u8]>,
    },
    /// `UID` — the unique identifier of the message.
    Uid(u32),
}

/// A command-continuation request (`+ [code] text`).
#[derive(Debug, PartialEq, Eq)]
pub struct ContinueReq<'a> {
    /// Optional machine-readable response code in `[...]`, if present.
    pub code: Option<ResponseCode<'a>>,
    /// Human-readable continuation text.
    pub text: &'a str,
}

// ---------------------------------------------------------------------------
// Mathematical model
// ---------------------------------------------------------------------------

/// Model of [`Response`].
pub enum SpecResponse {
    Status(SpecStatusResponse),
    Data(SpecDataResponse),
    Continue(SpecContinueReq),
}

/// Model of [`StatusResponse`].
pub struct SpecStatusResponse {
    pub tag: Option<Seq<char>>,
    pub status: Status,
    pub code: Option<SpecResponseCode>,
    pub text: Seq<char>,
}

/// Model of [`ResponseCode`].
pub enum SpecResponseCode {
    Alert,
    BadCharset(Seq<Seq<char>>),
    Capability(Seq<Seq<char>>),
    Parse,
    PermanentFlags(Seq<Seq<char>>),
    ReadOnly,
    ReadWrite,
    TryCreate,
    UidNext(u32),
    UidValidity(u32),
    Unseen(u32),
    Other(Seq<char>, Option<Seq<char>>),
}

/// Model of [`DataResponse`].
pub enum SpecDataResponse {
    Capability(Seq<Seq<char>>),
    List { flags: Seq<Seq<char>>, delimiter: Option<Seq<char>>, name: Seq<char> },
    Lsub { flags: Seq<Seq<char>>, delimiter: Option<Seq<char>>, name: Seq<char> },
    Status { mailbox: Seq<char>, items: Seq<StatusItem> },
    Search(Seq<u32>),
    Flags(Seq<Seq<char>>),
    Exists(u32),
    Recent(u32),
    Expunge(u32),
    Fetch { seq: u32, attributes: Seq<SpecFetchAttribute> },
    Other(Seq<u8>),
}

/// Model of [`FetchAttribute`].
pub enum SpecFetchAttribute {
    Flags(Seq<Seq<char>>),
    InternalDate(Seq<char>),
    Rfc822Size(u32),
    Rfc822(Seq<u8>),
    Rfc822Header(Seq<u8>),
    Rfc822Text(Seq<u8>),
    Envelope(Seq<u8>),
    Body(Seq<u8>),
    BodyStructure(Seq<u8>),
    BodySection { section: Option<Seq<char>>, origin: Option<u32>, data: Option<Seq<u8>> },
    Uid(u32),
}

/// Model of [`ContinueReq`].
pub struct SpecContinueReq {
    pub code: Option<SpecResponseCode>,
    pub text: Seq<char>,
}

/// The character sequences of a list of borrowed strings.
pub open spec fn strs_view<'a>(v: Seq<&'a str>) -> Seq<Seq<char>> {
    v.map_values(|x: &'a str| x@)
}

/// The character sequence of an optional borrowed string.
pub open spec fn opt_str_view<'a>(o: Option<&'a str>) -> Option<Seq<char>> {
    match o {
        Some(x) => Some(x@),
        None => None,
    }
}

/// The byte sequence of an optional borrowed byte slice.
pub open spec fn opt_bytes_view<'a>(o: Option<&'a [u8]>) -> Option<Seq<u8>> {
    match o {
        Some(x) => Some(x@),
        None => None,
    }
}

impl<'a> View for ResponseCode<'a> {
    type V = SpecResponseCode;

    open spec fn view(&self) -> SpecResponseCode {
        match self {
            ResponseCode::Alert => SpecResponseCode::Alert,
            ResponseCode::BadCharset(v) => SpecResponseCode::BadCharset(strs_view(v@)),
            ResponseCode::Capability(v) => SpecResponseCode::Capability(strs_view(v@)),
            ResponseCode::Parse => SpecResponseCode::Parse,
            ResponseCode::PermanentFlags(v) => SpecResponseCode::PermanentFlags(strs_view(v@)),
            ResponseCode::ReadOnly => SpecResponseCode::ReadOnly,
            ResponseCode::ReadWrite => SpecResponseCode::ReadWrite,
            ResponseCode::TryCreate => SpecResponseCode::TryCreate,
            ResponseCode::UidNext(n) => SpecResponseCode::UidNext(*n),
            ResponseCode::UidValidity(n) => SpecResponseCode::UidValidity(*n),
            ResponseCode::Unseen(n) => SpecResponseCode::Unseen(*n),
            ResponseCode::Other(a, e) => SpecResponseCode::Other(a@, opt_str_view(*e)),
        }
    }
}

/// The model of an optional response code.
pub open spec fn opt_code_view<'a>(o: Option<ResponseCode<'a>>) -> Option<SpecResponseCode> {
    match o {
        Some(c) => Some(c@),
        None => None,
    }
}

impl<'a> View for FetchAttribute<'a> {
    type V = SpecFetchAttribute;

    open spec fn view(&self) -> SpecFetchAttribute {
        match self {
            FetchAttribute::Flags(v) => SpecFetchAttribute::Flags(strs_view(v@)),
            FetchAttribute::InternalDate(s) => SpecFetchAttribute::InternalDate(s@),
            FetchAttribute::Rfc822Size(n) => SpecFetchAttribute::Rfc822Size(*n),
            FetchAttribute::Rfc822(b) => SpecFetchAttribute::Rfc822(b@),
            FetchAttribute::Rfc822Header(b) => SpecFetchAttribute::Rfc822Header(b@),
            FetchAttribute::Rfc822Text(b) => SpecFetchAttribute::Rfc822Text(b@),
            FetchAttribute::Envelope(b) => SpecFetchAttribute::Envelope(b@),
            FetchAttribute::Body(b) => SpecFetchAttribute::Body(b@),
            FetchAttribute::BodyStructure(b) => SpecFetchAttribute::BodyStructure(b@),
            FetchAttribute::BodySection { section, origin, data } => SpecFetchAttribute::BodySection {
                section: opt_str_view(*section),
                origin: *origin,
                data: opt_bytes_view(*data),
            },
            FetchAttribute::Uid(n) => SpecFetchAttribute::Uid(*n),
        }
    }
}

/// The models of a list of fetch attributes.
pub open spec fn atts_view<'a>(v: Seq<FetchAttribute<'a>>) -> Seq<SpecFetchAttribute> {
    v.map_values(|a: FetchAttribute<'a>| a@)
}

impl<'a> View for DataResponse<'a> {
    type V = SpecDataResponse;

    open spec fn view(&self) -> SpecDataResponse {
        match self {
            DataResponse::Capability(v) => SpecDataResponse::Capability(strs_view(v@)),
            DataResponse::List { flags, delimiter, name } => SpecDataResponse::List {
                flags: strs_view(flags@),
                delimiter: opt_str_view(*delimiter),
                name: name@,
            },
            DataResponse::Lsub { flags, delimiter, name } => SpecDataResponse::Lsub {
                flags: strs_view(flags@),
                delimiter: opt_str_view(*delimiter),
                name: name@,
            },
            DataResponse::Status { mailbox, items } => SpecDataResponse::Status {
                mailbox: mailbox@,
                items: items@,
            },
            DataResponse::Search(v) => SpecDataResponse::Search(v@),
            DataResponse::Flags(v) => SpecDataResponse::Flags(strs_view(v@)),
            DataResponse::Exists(n) => SpecDataResponse::Exists(*n),
            DataResponse::Recent(n) => SpecDataResponse::Recent(*n),
            DataResponse::Expunge(n) => SpecDataResponse::Expunge(*n),
            DataResponse::Fetch { seq, attributes } => SpecDataResponse::Fetch {
                seq: *seq,
                attributes: atts_view(attributes@),
            },
            DataResponse::Other(b) => SpecDataResponse::Other(b@),
        }
    }
}

impl<'a> View for StatusResponse<'a> {
    type V = SpecStatusResponse;

    open spec fn view(&self) -> SpecStatusResponse {
        SpecStatusResponse {
            tag: opt_str_view(self.tag),
            status: self.status,
            code: opt_code_view(self.code),
            text: self.text@,
        }
    }
}

impl<'a> View for ContinueReq<'a> {
    type V = SpecContinueReq;

    open spec fn view(&self) -> SpecContinueReq {
        SpecContinueReq { code: opt_code_view(self.code), text: self.text@ }
    }
}

impl<'a> View for Response<'a> {
    type V = SpecResponse;

    open spec fn view(&self) -> SpecResponse {
        match self {
            Response::Status(s) => SpecResponse::Status(s@),
            Response::Data(d) => SpecResponse::Data(d@),
            Response::Continue(c) => SpecResponse::Continue(c@),
        }
    }
}

} // verus!
