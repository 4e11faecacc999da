# imap_rs

A security-first IMAP4rev2 (RFC 9051) client whose protocol logic is
verified with Verus.

## Layout

- `src/` — the verified library.
  - `grammar.rs` states the server-response grammar as spec functions over
    bytes; `parser.rs` is a zero-copy recursive-descent parser proved to
    compute exactly that grammar (no panics, remainder always a suffix of the
    input, literals capped at `MAX_LITERAL_SIZE`); `incremental.rs` proves
    that a response parsed from a partial buffer is parsed the same way once
    more bytes arrive, and that every strict prefix of a response is
    reported `Incomplete`, never malformed.
  - `capabilities.rs`, `credentials.rs`, `flags.rs`, `search.rs` — the
    capability set, secrets with RFC 9051 quoting (and the proof that the
    quoted form reads back through the parser), flags, search criteria.
  - `client.rs`, `session.rs`, `tls.rs` — the decisions of the dispatcher,
    the session and the STARTTLS exchange: tags, command text, frame
    splitting, reply routing, capability checks, the SASL `PLAIN` payload,
    and what `FETCH` / `SEARCH` make of their untagged frames. Their loops
    are stated as folds of those decisions, with laws over the whole run:
    frames reassembled across any split into reads, each waiting command
    answered once, the STARTTLS exchange, the wait for a continuation, and
    session capabilities taken only from frames read inside TLS.
- `app/` — the `tokio` / `rustls` I/O around the library: the dispatcher's
  read and write loops, the type-state `Session`, `IDLE`, TLS connection
  set-up, error types with `Display`, and credentials zeroized on drop.
- `tests/` — scenarios for every module and each law on concrete values.
