//! A verified IMAP4rev2 client library.
//!
//! - [`grammar`] states the server-response grammar (RFC 9051) as spec
//!   functions over bytes; [`parser`] is a zero-copy recursive-descent
//!   parser proved to compute exactly that grammar, and [`incremental`]
//!   proves that a response parsed from a partial buffer is parsed the same
//!   way once more bytes arrive.
//! - [`capabilities`], [`credentials`], [`flags`] and [`search`] hold the
//!   capability set, secret wrappers with IMAP quoting, message flags and
//!   search criteria.
//! - [`client`], [`session`] and [`tls`] hold the decisions of the command
//!   dispatcher, the type-state session and the STARTTLS exchange: tags,
//!   command text, frame splitting, reply routing, capability checks, the
//!   SASL `PLAIN` payload and the results of `FETCH` and `SEARCH`.

pub mod error;
pub mod ast;
pub mod grammar;
pub mod grammar_lemmas;
pub mod parser;
pub mod incremental;
pub mod capabilities;
pub mod credentials;
pub mod flags;
pub mod search;
pub mod client;
pub mod session;
pub mod tls;
