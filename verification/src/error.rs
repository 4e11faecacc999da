//! Error types of the library: [`ParseError`] for the response parser and
//! [`ClientError`] for session-level operations.

use vstd::prelude::*;

verus! {

/// Errors produced by the IMAP response parser.
#[derive(Debug, PartialEq, Eq)]
pub enum ParseError {
    /// Input ended before a complete response could be parsed.
    /// The caller should accumulate more bytes and retry.
    Incomplete,
    /// A byte that is invalid at the current grammar position was found.
    /// The value is the byte offset into the input where it occurred.
    InvalidChar(usize),
    /// An expected literal token was not present at the given offset.
    ExpectedLiteral {
        /// The literal token the parser expected to find.
        expected: String,
        /// Byte offset into the input where the literal was expected.
        offset: usize,
    },
    /// Input ended unexpectedly in the middle of a token.
    UnexpectedEof,
    /// A numeric field could not be parsed as a valid integer.
    InvalidNumber,
    /// A literal whose declared length exceeds the parser's hard cap.
    /// Used as an explicit DoS guard against hostile servers.
    LiteralTooLarge {
        /// Literal length declared by the server, in octets.
        got: usize,
        /// Maximum literal length the parser accepts, in octets.
        max: usize,
    },
    /// Well-formed bytes that nonetheless violate the response grammar.
    /// The value is a human-readable description of the violation.
    Malformed(&'static str),
    /// A parsing error that does not fit any of the more specific variants.
    Other(&'static str),
}

/// Errors returned by session-level operations.
#[derive(Debug)]
pub enum ClientError {
    /// An underlying socket I/O error.
    Io(std::io::Error),
    /// A server response could not be parsed.
    Parse(ParseError),
    /// The connection was closed before the operation completed.
    ConnectionClosed,
    /// A single response frame exceeded the client's in-flight size cap — a
    /// denial-of-service guard against a server that never terminates a frame.
    FrameTooLarge {
        /// The maximum frame size, in bytes, that the client will buffer.
        max: usize,
    },
    /// The server returned a tagged `NO` / `BAD`; the string is its resp-text.
    CommandFailed(String),
    /// A command required a capability the server did not advertise.
    UnsupportedCapability(&'static str),
    /// The command did not receive its tagged response within the timeout.
    Timeout,
}

/// `std::io::Error` is carried opaquely by [`ClientError::Io`].
#[verifier::external_type_specification]
#[verifier::external_body]
pub struct ExIoError(std::io::Error);

} // verus!
