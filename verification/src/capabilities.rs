//! IMAP server capability set.
//!
//! [`Capabilities::from_atoms`] is fed already-tokenised capability atoms
//! (as produced by the parser), so `IMAP4REV2X` never matches `IMAP4REV2`.
//! [`Capabilities::parse`] accepts a raw response string: it uses the real
//! parser first and falls back to whitespace tokenisation.

use vstd::prelude::*;
use vstd::string::StringSliceAdditionalSpecFns;
use vstd::utf8::encode_utf8;

use crate::ast::{Response, DataResponse, ResponseCode, SpecResponse, SpecDataResponse, SpecResponseCode};
use crate::grammar::{ci_eq, kw, lower, parse_response_spec, scan, Stop, is_ascii_ws};
use crate::grammar_lemmas::lemma_scan;
use crate::parser::{eq_ci, parse_response, scan_bytes};
use crate::ast::strs_view;

verus! {

/// Parsed view of a server's advertised IMAP capabilities.
///
/// Each field is `true` when the corresponding capability atom was present
/// in the server's `CAPABILITY` list. Unknown atoms are ignored.
#[derive(Debug, Clone, Copy)]
pub struct Capabilities {
    /// `IMAP4rev1` (RFC 3501) base protocol.
    pub imap4rev1: bool,
    /// `IMAP4rev2` (RFC 9051) base protocol.
    pub imap4rev2: bool,
    /// `STARTTLS` — cleartext-to-TLS upgrade is supported.
    pub starttls: bool,
    /// `LOGINDISABLED` — the `LOGIN` command is refused (typically pre-TLS).
    pub login_disabled: bool,
    /// `IDLE` (RFC 2177) — server-pushed mailbox updates.
    pub idle: bool,
    /// `UNSELECT` (RFC 3691) — leave the selected mailbox without expunging.
    pub unselect: bool,
    /// `CONDSTORE` (RFC 7162) — conditional store / mod-sequences.
    pub condstore: bool,
    /// `QRESYNC` (RFC 7162) — quick mailbox resynchronization.
    pub qresync: bool,
    /// `MOVE` (RFC 6851) — atomic message move.
    pub move_ext: bool,
    /// `UIDPLUS` (RFC 4315) — `UID EXPUNGE` and assigned-UID responses.
    pub uidplus: bool,
    /// `LITERAL+` (RFC 7888) — non-synchronizing literals.
    pub literal_plus: bool,
    /// `LITERAL-` (RFC 7888) — non-synchronizing literals capped at 4096 octets.
    pub literal_minus: bool,
    /// `ENABLE` (RFC 5161) — opt into extensions for the session.
    pub enable: bool,
    /// `AUTH=PLAIN` SASL mechanism.
    pub auth_plain: bool,
    /// `AUTH=LOGIN` SASL mechanism.
    pub auth_login: bool,
    /// `AUTH=XOAUTH2` SASL mechanism.
    pub auth_xoauth2: bool,
    /// `AUTH=OAUTHBEARER` (RFC 7628) SASL mechanism.
    pub auth_oauthbearer: bool,
}

/// The capabilities that [`Capabilities`] records, one per field.
pub enum CapKind {
    Imap4rev1,
    Imap4rev2,
    Starttls,
    LoginDisabled,
    Idle,
    Unselect,
    Condstore,
    Qresync,
    Move,
    Uidplus,
    LiteralPlus,
    LiteralMinus,
    Enable,
    AuthPlain,
    AuthLogin,
    AuthXoauth2,
    AuthOauthbearer,
}

/// The capability that `atom` names (ASCII case-insensitively), if any.
pub open spec fn cap_kind(atom: Seq<u8>) -> Option<CapKind> {
    if ci_eq(atom, kw("IMAP4REV1")) {
        Some(CapKind::Imap4rev1)
    } else if ci_eq(atom, kw("IMAP4REV2")) {
        Some(CapKind::Imap4rev2)
    } else if ci_eq(atom, kw("STARTTLS")) {
        Some(CapKind::Starttls)
    } else if ci_eq(atom, kw("LOGINDISABLED")) {
        Some(CapKind::LoginDisabled)
    } else if ci_eq(atom, kw("IDLE")) {
        Some(CapKind::Idle)
    } else if ci_eq(atom, kw("UNSELECT")) {
        Some(CapKind::Unselect)
    } else if ci_eq(atom, kw("CONDSTORE")) {
        Some(CapKind::Condstore)
    } else if ci_eq(atom, kw("QRESYNC")) {
        Some(CapKind::Qresync)
    } else if ci_eq(atom, kw("MOVE")) {
        Some(CapKind::Move)
    } else if ci_eq(atom, kw("UIDPLUS")) {
        Some(CapKind::Uidplus)
    } else if ci_eq(atom, kw("LITERAL+")) {
        Some(CapKind::LiteralPlus)
    } else if ci_eq(atom, kw("LITERAL-")) {
        Some(CapKind::LiteralMinus)
    } else if ci_eq(atom, kw("ENABLE")) {
        Some(CapKind::Enable)
    } else if ci_eq(atom, kw("AUTH=PLAIN")) {
        Some(CapKind::AuthPlain)
    } else if ci_eq(atom, kw("AUTH=LOGIN")) {
        Some(CapKind::AuthLogin)
    } else if ci_eq(atom, kw("AUTH=XOAUTH2")) {
        Some(CapKind::AuthXoauth2)
    } else if ci_eq(atom, kw("AUTH=OAUTHBEARER")) {
        Some(CapKind::AuthOauthbearer)
    } else {
        None
    }
}

/// The field of `c` that records capability `k`.
pub open spec fn field(c: Capabilities, k: CapKind) -> bool {
    match k {
        CapKind::Imap4rev1 => c.imap4rev1,
        CapKind::Imap4rev2 => c.imap4rev2,
        CapKind::Starttls => c.starttls,
        CapKind::LoginDisabled => c.login_disabled,
        CapKind::Idle => c.idle,
        CapKind::Unselect => c.unselect,
        CapKind::Condstore => c.condstore,
        CapKind::Qresync => c.qresync,
        CapKind::Move => c.move_ext,
        CapKind::Uidplus => c.uidplus,
        CapKind::LiteralPlus => c.literal_plus,
        CapKind::LiteralMinus => c.literal_minus,
        CapKind::Enable => c.enable,
        CapKind::AuthPlain => c.auth_plain,
        CapKind::AuthLogin => c.auth_login,
        CapKind::AuthXoauth2 => c.auth_xoauth2,
        CapKind::AuthOauthbearer => c.auth_oauthbearer,
    }
}

/// `c` with the field of `k` set.
pub open spec fn set_field(c: Capabilities, k: CapKind) -> Capabilities {
    match k {
        CapKind::Imap4rev1 => Capabilities { imap4rev1: true, ..c },
        CapKind::Imap4rev2 => Capabilities { imap4rev2: true, ..c },
        CapKind::Starttls => Capabilities { starttls: true, ..c },
        CapKind::LoginDisabled => Capabilities { login_disabled: true, ..c },
        CapKind::Idle => Capabilities { idle: true, ..c },
        CapKind::Unselect => Capabilities { unselect: true, ..c },
        CapKind::Condstore => Capabilities { condstore: true, ..c },
        CapKind::Qresync => Capabilities { qresync: true, ..c },
        CapKind::Move => Capabilities { move_ext: true, ..c },
        CapKind::Uidplus => Capabilities { uidplus: true, ..c },
        CapKind::LiteralPlus => Capabilities { literal_plus: true, ..c },
        CapKind::LiteralMinus => Capabilities { literal_minus: true, ..c },
        CapKind::Enable => Capabilities { enable: true, ..c },
        CapKind::AuthPlain => Capabilities { auth_plain: true, ..c },
        CapKind::AuthLogin => Capabilities { auth_login: true, ..c },
        CapKind::AuthXoauth2 => Capabilities { auth_xoauth2: true, ..c },
        CapKind::AuthOauthbearer => Capabilities { auth_oauthbearer: true, ..c },
    }
}

/// The empty capability set.
pub open spec fn no_caps() -> Capabilities {
    Capabilities {
        imap4rev1: false,
        imap4rev2: false,
        starttls: false,
        login_disabled: false,
        idle: false,
        unselect: false,
        condstore: false,
        qresync: false,
        move_ext: false,
        uidplus: false,
        literal_plus: false,
        literal_minus: false,
        enable: false,
        auth_plain: false,
        auth_login: false,
        auth_xoauth2: false,
        auth_oauthbearer: false,
    }
}

/// `c` updated by one atom.
pub open spec fn with_atom(c: Capabilities, atom: Seq<u8>) -> Capabilities {
    match cap_kind(atom) {
        Some(k) => set_field(c, k),
        None => c,
    }
}

/// `c` updated by each atom in turn.
pub open spec fn with_atoms(c: Capabilities, atoms: Seq<Seq<u8>>) -> Capabilities
    decreases atoms.len(),
{
    if atoms.len() == 0 {
        c
    } else {
        with_atoms(with_atom(c, atoms[0]), atoms.drop_first())
    }
}

/// The capability set advertised by a list of atoms (as bytes).
pub open spec fn caps_from(atoms: Seq<Seq<u8>>) -> Capabilities {
    with_atoms(no_caps(), atoms)
}

/// The UTF-8 bytes of each text.
pub open spec fn texts_bytes(v: Seq<Seq<char>>) -> Seq<Seq<u8>> {
    v.map_values(|t: Seq<char>| encode_utf8(t))
}

/// The capability list a response carries: a `* CAPABILITY …` data
/// response, or a `[CAPABILITY …]` code on a status response.
pub open spec fn capability_list(r: SpecResponse) -> Option<Seq<Seq<char>>> {
    match r {
        SpecResponse::Data(SpecDataResponse::Capability(v)) => Some(v),
        SpecResponse::Status(s) => match s.code {
            Some(SpecResponseCode::Capability(v)) => Some(v),
            _ => None,
        },
        _ => None,
    }
}

/// The capability set that a frame carries, if it parses to a response
/// that carries one.
pub open spec fn caps_of_frame(frame: Seq<u8>) -> Option<Capabilities> {
    match parse_response_spec(frame) {
        Ok((_, r)) => match capability_list(r) {
            Some(v) => Some(caps_from(texts_bytes(v))),
            None => None,
        },
        Err(_) => None,
    }
}

/// The byte sequences of a list of frames.
pub open spec fn frames_bytes(v: Seq<Vec<u8>>) -> Seq<Seq<u8>> {
    v.map_values(|f: Vec<u8>| f@)
}

/// The capability set of the first frame of `frames` that carries one.
pub open spec fn first_caps(frames: Seq<Seq<u8>>) -> Option<Capabilities>
    decreases frames.len(),
{
    if frames.len() == 0 {
        None
    } else {
        match caps_of_frame(frames[0]) {
            Some(c) => Some(c),
            None => first_caps(frames.drop_first()),
        }
    }
}

/// The maximal runs of non-whitespace bytes of `s` from `i` on, in order
/// (what `str::split_ascii_whitespace` yields).
pub open spec fn ws_tokens(s: Seq<u8>, i: int) -> Seq<Seq<u8>>
    decreases s.len() - i,
{
    if i < 0 || i >= s.len() {
        Seq::empty()
    } else if is_ascii_ws(s[i]) {
        ws_tokens(s, i + 1)
    } else {
        let e = scan(s, i, Stop::AsciiWhitespace);
        proof {
            lemma_scan(s, i + 1, Stop::AsciiWhitespace);
        }
        seq![s.subrange(i, e)] + ws_tokens(s, e)
    }
}

/// What [`Capabilities::parse`] makes of a raw response: the capabilities
/// of the frame when it parses to one that carries them, else those named
/// by its whitespace-separated tokens.
pub open spec fn caps_of_text(b: Seq<u8>) -> Capabilities {
    match caps_of_frame(b) {
        Some(c) => c,
        None => caps_from(ws_tokens(b, 0)),
    }
}

impl Default for Capabilities {
    fn default() -> (r: Self)
        ensures
            r == no_caps(),
    {
        Capabilities {
            imap4rev1: false,
            imap4rev2: false,
            starttls: false,
            login_disabled: false,
            idle: false,
            unselect: false,
            condstore: false,
            qresync: false,
            move_ext: false,
            uidplus: false,
            literal_plus: false,
            literal_minus: false,
            enable: false,
            auth_plain: false,
            auth_login: false,
            auth_xoauth2: false,
            auth_oauthbearer: false,
        }
    }
}

proof fn lemma_with_atoms_push(c: Capabilities, atoms: Seq<Seq<u8>>, a: Seq<u8>)
    ensures
        with_atoms(c, atoms.push(a)) == with_atom(with_atoms(c, atoms), a),
    decreases atoms.len(),
{
    if atoms.len() == 0 {
        assert(atoms.push(a).drop_first() =~= Seq::<Seq<u8>>::empty());
        reveal_with_fuel(with_atoms, 2);
    } else {
        assert(atoms.push(a).drop_first() =~= atoms.drop_first().push(a));
        assert(atoms.push(a)[0] == atoms[0]);
        lemma_with_atoms_push(with_atom(c, atoms[0]), atoms.drop_first(), a);
    }
}

proof fn lemma_set_field(c: Capabilities, j: CapKind, k: CapKind)
    ensures
        field(set_field(c, j), k) == (j == k || field(c, k)),
{
}

proof fn lemma_with_atoms_field(c: Capabilities, atoms: Seq<Seq<u8>>, k: CapKind)
    ensures
        field(with_atoms(c, atoms), k) <==> (field(c, k) || exists|i: int|
            0 <= i < atoms.len() && #[trigger] cap_kind(atoms[i]) == Some(k)),
    decreases atoms.len(),
{
    if atoms.len() > 0 {
        let c1 = with_atom(c, atoms[0]);
        lemma_with_atoms_field(c1, atoms.drop_first(), k);
        match cap_kind(atoms[0]) {
            Some(j) => lemma_set_field(c, j, k),
            None => {},
        }
        if exists|i: int| 0 <= i < atoms.len() && #[trigger] cap_kind(atoms[i]) == Some(k) {
            let i = choose|i: int| 0 <= i < atoms.len() && #[trigger] cap_kind(atoms[i]) == Some(k);
            if i > 0 {
                assert(cap_kind(atoms.drop_first()[i - 1]) == Some(k));
            }
        }
        if exists|i: int|
            0 <= i < atoms.drop_first().len() && #[trigger] cap_kind(atoms.drop_first()[i]) == Some(
                k,
            ) {
            let i = choose|i: int|
                0 <= i < atoms.drop_first().len() && #[trigger] cap_kind(atoms.drop_first()[i])
                    == Some(k);
            assert(cap_kind(atoms[i + 1]) == Some(k));
        }
    }
}

/// A field of the capability set built from a list of atoms is set exactly
/// when one of the atoms names that capability (ASCII case-insensitively),
/// so neither the order of the atoms nor repetitions matter, and unknown
/// atoms are ignored.
pub proof fn lemma_caps_from_field(atoms: Seq<Seq<u8>>, k: CapKind)
    ensures
        field(caps_from(atoms), k) <==> exists|i: int|
            0 <= i < atoms.len() && #[trigger] cap_kind(atoms[i]) == Some(k),
{
    lemma_with_atoms_field(no_caps(), atoms, k);
}

/// The atom that names capability `k`.
pub open spec fn cap_name(k: CapKind) -> Seq<u8> {
    match k {
        CapKind::Imap4rev1 => kw("IMAP4REV1"),
        CapKind::Imap4rev2 => kw("IMAP4REV2"),
        CapKind::Starttls => kw("STARTTLS"),
        CapKind::LoginDisabled => kw("LOGINDISABLED"),
        CapKind::Idle => kw("IDLE"),
        CapKind::Unselect => kw("UNSELECT"),
        CapKind::Condstore => kw("CONDSTORE"),
        CapKind::Qresync => kw("QRESYNC"),
        CapKind::Move => kw("MOVE"),
        CapKind::Uidplus => kw("UIDPLUS"),
        CapKind::LiteralPlus => kw("LITERAL+"),
        CapKind::LiteralMinus => kw("LITERAL-"),
        CapKind::Enable => kw("ENABLE"),
        CapKind::AuthPlain => kw("AUTH=PLAIN"),
        CapKind::AuthLogin => kw("AUTH=LOGIN"),
        CapKind::AuthXoauth2 => kw("AUTH=XOAUTH2"),
        CapKind::AuthOauthbearer => kw("AUTH=OAUTHBEARER"),
    }
}

proof fn lemma_cap_kind_some(a: Seq<u8>)
    ensures
        cap_kind(a) matches Some(j) ==> ci_eq(a, cap_name(j)),
        cap_kind(a) is None ==> forall|k: CapKind| !ci_eq(a, #[trigger] cap_name(k)),
{
}

proof fn lemma_ascii_name(k: &str)
    requires
        vstd::utf8::is_ascii_chars(k@),
    ensures
        kw(k).len() == k@.len(),
        forall|i: int| 0 <= i < k@.len() ==> #[trigger] kw(k)[i] == k@[i] as u8,
{
    vstd::utf8::is_ascii_chars_encode_utf8(k@);
}

/// No atom equals the names of two different capabilities.
#[verifier::rlimit(40)]
proof fn lemma_cap_names_distinct(a: Seq<u8>, j: CapKind, k: CapKind)
    requires
        ci_eq(a, cap_name(j)),
        ci_eq(a, cap_name(k)),
    ensures
        j == k,
{
    reveal_strlit("IMAP4REV1");
    lemma_ascii_name("IMAP4REV1");
    reveal_strlit("IMAP4REV2");
    lemma_ascii_name("IMAP4REV2");
    reveal_strlit("STARTTLS");
    lemma_ascii_name("STARTTLS");
    reveal_strlit("LOGINDISABLED");
    lemma_ascii_name("LOGINDISABLED");
    reveal_strlit("IDLE");
    lemma_ascii_name("IDLE");
    reveal_strlit("UNSELECT");
    lemma_ascii_name("UNSELECT");
    reveal_strlit("CONDSTORE");
    lemma_ascii_name("CONDSTORE");
    reveal_strlit("QRESYNC");
    lemma_ascii_name("QRESYNC");
    reveal_strlit("MOVE");
    lemma_ascii_name("MOVE");
    reveal_strlit("UIDPLUS");
    lemma_ascii_name("UIDPLUS");
    reveal_strlit("LITERAL+");
    lemma_ascii_name("LITERAL+");
    reveal_strlit("LITERAL-");
    lemma_ascii_name("LITERAL-");
    reveal_strlit("ENABLE");
    lemma_ascii_name("ENABLE");
    reveal_strlit("AUTH=PLAIN");
    lemma_ascii_name("AUTH=PLAIN");
    reveal_strlit("AUTH=LOGIN");
    lemma_ascii_name("AUTH=LOGIN");
    reveal_strlit("AUTH=XOAUTH2");
    lemma_ascii_name("AUTH=XOAUTH2");
    reveal_strlit("AUTH=OAUTHBEARER");
    lemma_ascii_name("AUTH=OAUTHBEARER");
    if a.len() > 0 {
        assert(lower(a[0]) == lower(cap_name(j)[0]));
        assert(lower(a[0]) == lower(cap_name(k)[0]));
    }
    if a.len() > 5 {
        assert(lower(a[5]) == lower(cap_name(j)[5]));
        assert(lower(a[5]) == lower(cap_name(k)[5]));
    }
    if a.len() > 7 {
        assert(lower(a[7]) == lower(cap_name(j)[7]));
        assert(lower(a[7]) == lower(cap_name(k)[7]));
    }
    if a.len() > 8 {
        assert(lower(a[8]) == lower(cap_name(j)[8]));
        assert(lower(a[8]) == lower(cap_name(k)[8]));
    }
}

/// An atom stands for capability `k` exactly when it equals `k`'s name,
/// ASCII case-insensitively.
pub proof fn lemma_cap_kind_name(a: Seq<u8>, k: CapKind)
    ensures
        cap_kind(a) == Some(k) <==> ci_eq(a, cap_name(k)),
{
    lemma_cap_kind_some(a);
    if ci_eq(a, cap_name(k)) {
        if let Some(j) = cap_kind(a) {
            lemma_cap_names_distinct(a, j, k);
        }
    }
}

/// A field of the set that [`Capabilities::from_atoms`] builds is set
/// exactly when some atom of its input equals that capability's name, ASCII
/// case-insensitively; other atoms are ignored, and neither order nor
/// repetition matters.
pub proof fn lemma_from_atoms_field(atoms: Seq<&str>, k: CapKind)
    ensures
        field(caps_from(atoms.map_values(|a: &str| a.spec_bytes())), k) <==> exists|i: int|
            0 <= i < atoms.len() && ci_eq(#[trigger] atoms[i].spec_bytes(), cap_name(k)),
{
    let bytes = atoms.map_values(|a: &str| a.spec_bytes());
    lemma_caps_from_field(bytes, k);
    if exists|i: int| 0 <= i < bytes.len() && #[trigger] cap_kind(bytes[i]) == Some(k) {
        let i = choose|i: int| 0 <= i < bytes.len() && #[trigger] cap_kind(bytes[i]) == Some(k);
        lemma_cap_kind_name(bytes[i], k);
        assert(ci_eq(atoms[i].spec_bytes(), cap_name(k)));
    }
    if exists|i: int| 0 <= i < atoms.len() && ci_eq(#[trigger] atoms[i].spec_bytes(), cap_name(k)) {
        let i = choose|i: int| 0 <= i < atoms.len() && ci_eq(#[trigger] atoms[i].spec_bytes(), cap_name(k));
        lemma_cap_kind_name(bytes[i], k);
        assert(cap_kind(bytes[i]) == Some(k));
    }
}

/// The capability set of `frame`, when there is one and it carries one.
pub open spec fn caps_of_opt(frame: Option<Seq<u8>>) -> Option<Capabilities> {
    match frame {
        Some(f) => caps_of_frame(f),
        None => None,
    }
}

/// The capabilities a session starts with after the TLS handshake, from
/// frames read inside TLS only: those of the greeting when it carries a
/// list; otherwise those of the first untagged frame that carries one
/// after the `CAPABILITY` command, else those of its tagged reply, else
/// none.
pub open spec fn session_caps(greeting: Option<Seq<u8>>, reply: Option<Seq<u8>>, untagged: Seq<Seq<u8>>) -> Capabilities {
    match caps_of_opt(greeting) {
        Some(c) => c,
        None => match first_caps(untagged) {
            Some(c) => c,
            None => match caps_of_opt(reply) {
                Some(c) => c,
                None => no_caps(),
            },
        },
    }
}

proof fn lemma_first_caps_from(frames: Seq<Seq<u8>>)
    ensures
        first_caps(frames) matches Some(c) ==> exists|i: int|
            0 <= i < frames.len() && #[trigger] caps_of_frame(frames[i]) == Some(c),
    decreases frames.len(),
{
    if frames.len() > 0 && caps_of_frame(frames[0]) is None {
        let t = frames.drop_first();
        lemma_first_caps_from(t);
        if let Some(c) = first_caps(t) {
            let i = choose|i: int| 0 <= i < t.len() && #[trigger] caps_of_frame(t[i]) == Some(c);
            assert(frames[i + 1] == t[i]);
        }
    }
}

/// A session's capabilities come only from frames read inside TLS: they
/// are those that one of the greeting, the `CAPABILITY` reply or an
/// untagged frame after it carries, or the empty set when none carries
/// any. Nothing the server asserted before the handshake can reach them.
pub proof fn lemma_session_caps_from_tls(greeting: Option<Seq<u8>>, reply: Option<Seq<u8>>, untagged: Seq<Seq<u8>>)
    ensures
        ({
            let c = session_caps(greeting, reply, untagged);
            ||| caps_of_opt(greeting) == Some(c)
            ||| caps_of_opt(reply) == Some(c)
            ||| exists|i: int| 0 <= i < untagged.len() && #[trigger] caps_of_frame(untagged[i]) == Some(c)
            ||| (c == no_caps() && caps_of_opt(greeting) is None && caps_of_opt(reply) is None
                && first_caps(untagged) is None)
        }),
{
    lemma_first_caps_from(untagged);
}

/// Raw capability text that the parser reads as a response carrying a
/// capability list (a `CAPABILITY` data response, or a status response with
/// a `[CAPABILITY ...]` code) gives exactly the set built from that list;
/// only text that does not parse so falls back to whitespace tokens.
pub proof fn lemma_text_reads_capability_list(b: Seq<u8>)
    ensures
        match parse_response_spec(b) {
            Ok((_, resp)) => match capability_list(resp) {
                Some(v) => caps_of_text(b) == caps_from(texts_bytes(v)),
                None => true,
            },
            Err(_) => true,
        },
{
}

impl Capabilities {
    /// The capabilities a session starts with after the TLS handshake
    /// (see [`session_caps`]): built from the greeting, or else from the
    /// `CAPABILITY` reply and the untagged frames read with it.
    pub fn after_handshake(greeting: Option<&[u8]>, reply: Option<&[u8]>, untagged: &[Vec<u8>]) -> (r: Self)
        ensures
            r == session_caps(
                match greeting {
                    Some(g) => Some(g@),
                    None => None,
                },
                match reply {
                    Some(f) => Some(f@),
                    None => None,
                },
                frames_bytes(untagged@),
            ),
    {
        let mut caps = Capabilities::default();
        let got = match greeting {
            Some(g) => caps.update_from_frame(g),
            None => false,
        };
        if !got {
            if let Some(f) = reply {
                caps.update_from_frame(f);
            }
            caps.update_from_first(untagged);
        }
        caps
    }

    /// Build from a list of capability atoms (e.g. as produced by the
    /// parser's `* CAPABILITY …` data response). Unknown atoms are
    /// ignored.
    pub fn from_atoms(atoms: &[&str]) -> (r: Self)
        ensures
            r == caps_from(atoms@.map_values(|a: &str| a.spec_bytes())),
    {
        let ghost bytes = atoms@.map_values(|a: &str| a.spec_bytes());
        let mut caps = Capabilities::default();
        let mut i: usize = 0;
        while i < atoms.len()
            invariant
                i <= atoms@.len(),
                bytes == atoms@.map_values(|a: &str| a.spec_bytes()),
                caps == with_atoms(no_caps(), bytes.take(i as int)),
            decreases atoms@.len() - i,
        {
            caps.set_from_atom(atoms[i]);
            proof {
                lemma_with_atoms_push(no_caps(), bytes.take(i as int), bytes[i as int]);
                assert(bytes.take(i as int).push(bytes[i as int]) =~= bytes.take(i + 1));
            }
            i += 1;
        }
        proof {
            assert(bytes.take(i as int) =~= bytes);
        }
        caps
    }

    fn set_from_atom(&mut self, atom: &str)
        ensures
            *final(self) == with_atom(*old(self), atom.spec_bytes()),
    {
        self.set_from_atom_bytes(atom.as_bytes());
    }

    fn set_from_atom_bytes(&mut self, atom: &[u8])
        ensures
            *final(self) == with_atom(*old(self), atom@),
    {
        match cap_kind_of(atom) {
            Some(k) => self.set_cap(k),
            None => {},
        }
    }

    /// Update from a parsed [`Response`] if it carries capabilities — either
    /// a `* CAPABILITY …` data response or a `[CAPABILITY …]` response code
    /// on a status response. Returns `true` if anything was updated; the
    /// set is then exactly the one the response advertises.
    pub fn try_update_from(&mut self, response: &Response<'_>) -> (r: bool)
        ensures
            match capability_list(response@) {
                Some(v) => r && *final(self) == caps_from(texts_bytes(v)),
                None => !r && *final(self) == *old(self),
            },
    {
        match response {
            Response::Data(DataResponse::Capability(caps)) => {
                proof {
                    assert(caps@.map_values(|a: &str| a.spec_bytes()) =~= texts_bytes(strs_view(caps@)));
                }
                *self = Capabilities::from_atoms(caps.as_slice());
                true
            },
            Response::Status(s) => match &s.code {
                Some(ResponseCode::Capability(caps)) => {
                    proof {
                        assert(caps@.map_values(|a: &str| a.spec_bytes()) =~= texts_bytes(strs_view(caps@)));
                    }
                    *self = Capabilities::from_atoms(caps.as_slice());
                    true
                },
                _ => false,
            },
            _ => false,
        }
    }

    /// Best-effort parse of a raw frame. Returns `Some(caps)` if the bytes
    /// parse to a CAPABILITY response (data or response-code); else `None`.
    pub fn from_frame(frame: &[u8]) -> (r: Option<Self>)
        ensures
            r == caps_of_frame(frame@),
    {
        let response = match parse_response(frame) {
            Ok((_, response)) => response,
            Err(_) => return None,
        };
        let mut caps = Capabilities::default();
        if caps.try_update_from(&response) {
            Some(caps)
        } else {
            None
        }
    }

    /// Replace the set with the one `frame` carries, if it parses to a
    /// CAPABILITY response; report whether it did.
    pub fn update_from_frame(&mut self, frame: &[u8]) -> (r: bool)
        ensures
            match caps_of_frame(frame@) {
                Some(c) => r && *final(self) == c,
                None => !r && *final(self) == *old(self),
            },
    {
        match parse_response(frame) {
            Ok((_, response)) => self.try_update_from(&response),
            Err(_) => false,
        }
    }

    /// Replace the set with the one the first capability-carrying frame of
    /// `frames` holds; report whether there was one.
    pub fn update_from_first(&mut self, frames: &[Vec<u8>]) -> (r: bool)
        ensures
            match first_caps(frames_bytes(frames@)) {
                Some(c) => r && *final(self) == c,
                None => !r && *final(self) == *old(self),
            },
    {
        let mut i: usize = 0;
        proof {
            assert(frames_bytes(frames@).skip(0) =~= frames_bytes(frames@));
        }
        while i < frames.len()
            invariant
                i <= frames@.len(),
                *self == *old(self),
                first_caps(frames_bytes(frames@)) == first_caps(frames_bytes(frames@).skip(i as int)),
            decreases frames@.len() - i,
        {
            proof {
                let fs = frames_bytes(frames@).skip(i as int);
                assert(fs[0] == frames@[i as int]@);
                assert(fs.drop_first() =~= frames_bytes(frames@).skip(i + 1));
            }
            if self.update_from_frame(frames[i].as_slice()) {
                return true;
            }
            i += 1;
        }
        proof {
            assert(frames_bytes(frames@).skip(i as int) =~= Seq::<Seq<u8>>::empty());
        }
        false
    }

    /// Parse a raw response string: the real parser first; when it does
    /// not yield a CAPABILITY response, every whitespace-separated token is
    /// taken as an atom.
    pub fn parse(response: &str) -> (r: Self)
        ensures
            r == caps_of_text(response.spec_bytes()),
            match parse_response_spec(response.spec_bytes()) {
                Ok((_, resp)) => match capability_list(resp) {
                    Some(v) => r == caps_from(texts_bytes(v)),
                    None => true,
                },
                Err(_) => true,
            },
    {
        let bytes = response.as_bytes();
        proof {
            lemma_text_reads_capability_list(response.spec_bytes());
        }
        // Try the real parser first.
        if let Some(caps) = Capabilities::from_frame(bytes) {
            return caps;
        }
        // Fallback: tokenise on whitespace and feed atoms.
        let ghost s = bytes@;
        let mut caps = Capabilities::default();
        let mut i: usize = 0;
        while i < bytes.len()
            invariant
                bytes@ == s,
                i <= s.len(),
                with_atoms(caps, ws_tokens(s, i as int)) == caps_from(ws_tokens(s, 0)),
            decreases s.len() - i,
        {
            if is_ascii_whitespace(bytes[i]) {
                i += 1;
            } else {
                let e = scan_bytes(bytes, i, &Stop::AsciiWhitespace);
                proof {
                    lemma_scan(s, i + 1, Stop::AsciiWhitespace);
                    let t = s.subrange(i as int, e as int);
                    let rest = ws_tokens(s, e as int);
                    assert((seq![t] + rest)[0] == t);
                    assert((seq![t] + rest).drop_first() =~= rest);
                }
                caps.set_from_atom_bytes(&bytes[i..e]);
                i = e;
            }
        }
        caps
    }

    /// Set the field of `k`.
    fn set_cap(&mut self, k: CapKind)
        ensures
            *final(self) == set_field(*old(self), k),
    {
        match k {
            CapKind::Imap4rev1 => *self = Capabilities { imap4rev1: true, ..*self },
            CapKind::Imap4rev2 => *self = Capabilities { imap4rev2: true, ..*self },
            CapKind::Starttls => *self = Capabilities { starttls: true, ..*self },
            CapKind::LoginDisabled => *self = Capabilities { login_disabled: true, ..*self },
            CapKind::Idle => *self = Capabilities { idle: true, ..*self },
            CapKind::Unselect => *self = Capabilities { unselect: true, ..*self },
            CapKind::Condstore => *self = Capabilities { condstore: true, ..*self },
            CapKind::Qresync => *self = Capabilities { qresync: true, ..*self },
            CapKind::Move => *self = Capabilities { move_ext: true, ..*self },
            CapKind::Uidplus => *self = Capabilities { uidplus: true, ..*self },
            CapKind::LiteralPlus => *self = Capabilities { literal_plus: true, ..*self },
            CapKind::LiteralMinus => *self = Capabilities { literal_minus: true, ..*self },
            CapKind::Enable => *self = Capabilities { enable: true, ..*self },
            CapKind::AuthPlain => *self = Capabilities { auth_plain: true, ..*self },
            CapKind::AuthLogin => *self = Capabilities { auth_login: true, ..*self },
            CapKind::AuthXoauth2 => *self = Capabilities { auth_xoauth2: true, ..*self },
            CapKind::AuthOauthbearer => *self = Capabilities { auth_oauthbearer: true, ..*self },
        }
    }
}

/// ASCII whitespace as `u8::is_ascii_whitespace` defines it.
fn is_ascii_whitespace(c: u8) -> (r: bool)
    ensures
        r == is_ascii_ws(c),
{
    c == 32 || c == 9 || c == 10 || c == 12 || c == 13
}

/// The capability that `a` names, ASCII case-insensitively.
fn cap_kind_of(a: &[u8]) -> (r: Option<CapKind>)
    ensures
        r == cap_kind(a@),
{
    if eq_ci(a, "IMAP4REV1".as_bytes()) {
        Some(CapKind::Imap4rev1)
    } else if eq_ci(a, "IMAP4REV2".as_bytes()) {
        Some(CapKind::Imap4rev2)
    } else if eq_ci(a, "STARTTLS".as_bytes()) {
        Some(CapKind::Starttls)
    } else if eq_ci(a, "LOGINDISABLED".as_bytes()) {
        Some(CapKind::LoginDisabled)
    } else if eq_ci(a, "IDLE".as_bytes()) {
        Some(CapKind::Idle)
    } else if eq_ci(a, "UNSELECT".as_bytes()) {
        Some(CapKind::Unselect)
    } else if eq_ci(a, "CONDSTORE".as_bytes()) {
        Some(CapKind::Condstore)
    } else if eq_ci(a, "QRESYNC".as_bytes()) {
        Some(CapKind::Qresync)
    } else if eq_ci(a, "MOVE".as_bytes()) {
        Some(CapKind::Move)
    } else if eq_ci(a, "UIDPLUS".as_bytes()) {
        Some(CapKind::Uidplus)
    } else if eq_ci(a, "LITERAL+".as_bytes()) {
        Some(CapKind::LiteralPlus)
    } else if eq_ci(a, "LITERAL-".as_bytes()) {
        Some(CapKind::LiteralMinus)
    } else if eq_ci(a, "ENABLE".as_bytes()) {
        Some(CapKind::Enable)
    } else if eq_ci(a, "AUTH=PLAIN".as_bytes()) {
        Some(CapKind::AuthPlain)
    } else if eq_ci(a, "AUTH=LOGIN".as_bytes()) {
        Some(CapKind::AuthLogin)
    } else if eq_ci(a, "AUTH=XOAUTH2".as_bytes()) {
        Some(CapKind::AuthXoauth2)
    } else if eq_ci(a, "AUTH=OAUTHBEARER".as_bytes()) {
        Some(CapKind::AuthOauthbearer)
    } else {
        None
    }
}

} // verus!
