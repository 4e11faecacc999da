//! IMAP message flags and `STORE` actions.

use vstd::prelude::*;
use vstd::string::StringExecFns;

verus! {

/// An IMAP message flag. The system flags render with their leading `\`;
/// [`Flag::Custom`] renders verbatim. Use [`Flag::to_imap_string`] to
/// produce the wire form.
#[derive(Debug, Clone, PartialEq, Eq)]
pub enum Flag {
    /// `\Seen` — the message has been read.
    Seen,
    /// `\Answered` — the message has been answered.
    Answered,
    /// `\Flagged` — the message is flagged for urgent/special attention.
    Flagged,
    /// `\Deleted` — the message is marked for deletion (removed on `EXPUNGE`).
    Deleted,
    /// `\Draft` — the message is a draft.
    Draft,
    /// `\Recent` — the message arrived recently (session-scoped, IMAP4rev1).
    Recent,
    /// A server- or client-defined keyword, rendered as-is.
    Custom(String),
}

/// The wire form of a flag.
pub open spec fn flag_text(f: Flag) -> Seq<char> {
    match f {
        Flag::Seen => "\\Seen"@,
        Flag::Answered => "\\Answered"@,
        Flag::Flagged => "\\Flagged"@,
        Flag::Deleted => "\\Deleted"@,
        Flag::Draft => "\\Draft"@,
        Flag::Recent => "\\Recent"@,
        Flag::Custom(s) => s@,
    }
}

/// The wire forms of `flags`, separated by single spaces.
pub open spec fn flags_text(flags: Seq<Flag>) -> Seq<char>
    decreases flags.len(),
{
    if flags.len() == 0 {
        Seq::empty()
    } else if flags.len() == 1 {
        flag_text(flags[0])
    } else {
        flags_text(flags.drop_last()) + seq![' '] + flag_text(flags.last())
    }
}

impl Flag {
    /// Render the flag in wire form (`\Seen`, …, or the custom keyword).
    pub fn to_imap_string(&self) -> (r: String)
        ensures
            r@ == flag_text(*self),
    {
        match self {
            Flag::Seen => String::from_str("\\Seen"),
            Flag::Answered => String::from_str("\\Answered"),
            Flag::Flagged => String::from_str("\\Flagged"),
            Flag::Deleted => String::from_str("\\Deleted"),
            Flag::Draft => String::from_str("\\Draft"),
            Flag::Recent => String::from_str("\\Recent"),
            Flag::Custom(s) => s.clone(),
        }
    }
}

/// Render `flags` in wire form, separated by single spaces.
pub fn join_flags(flags: &[Flag]) -> (r: String)
    ensures
        r@ == flags_text(flags@),
{
    let mut out = String::new();
    let mut i: usize = 0;
    while i < flags.len()
        invariant
            i <= flags@.len(),
            out@ == flags_text(flags@.subrange(0, i as int)),
        decreases flags@.len() - i,
    {
        let ghost before = out@;
        if i > 0 {
            out.append(" ");
            proof {
                reveal_strlit(" ");
            }
        }
        let t = flags[i].to_imap_string();
        out.append(t.as_str());
        proof {
            let s = flags@.subrange(0, i + 1);
            assert(s.drop_last() =~= flags@.subrange(0, i as int));
            assert(s.last() == flags@[i as int]);
            if i == 0 {
                assert(s.len() == 1);
                assert(out@ =~= flags_text(s));
            } else {
                assert(out@ =~= flags_text(s));
            }
        }
        i += 1;
    }
    assert(flags@.subrange(0, flags@.len() as int) =~= flags@);
    out
}

/// How a `STORE` / `UID STORE` command should modify a message's flags.
#[derive(Debug, Clone, Copy, PartialEq, Eq, Structural)]
pub enum StoreAction {
    /// Add the given flags to the existing set (`+FLAGS`).
    Add,
    /// Remove the given flags from the existing set (`-FLAGS`).
    Remove,
    /// Replace the existing set with the given flags (`FLAGS`).
    Replace,
}

/// The IMAP item name for a `STORE` action.
pub open spec fn store_prefix(action: StoreAction, silent: bool) -> Seq<char> {
    match action {
        StoreAction::Add => if silent { "+FLAGS.SILENT"@ } else { "+FLAGS"@ },
        StoreAction::Remove => if silent { "-FLAGS.SILENT"@ } else { "-FLAGS"@ },
        StoreAction::Replace => if silent { "FLAGS.SILENT"@ } else { "FLAGS"@ },
    }
}

impl StoreAction {
    /// Return the IMAP item name for this action, e.g. `+FLAGS` or, when
    /// `silent` is `true`, the `.SILENT` form that suppresses the untagged
    /// `FETCH` response.
    pub fn to_imap_prefix(&self, silent: bool) -> (r: &'static str)
        ensures
            r@ == store_prefix(*self, silent),
    {
        match self {
            StoreAction::Add => {
                if silent {
                    "+FLAGS.SILENT"
                } else {
                    "+FLAGS"
                }
            },
            StoreAction::Remove => {
                if silent {
                    "-FLAGS.SILENT"
                } else {
                    "-FLAGS"
                }
            },
            StoreAction::Replace => {
                if silent {
                    "FLAGS.SILENT"
                } else {
                    "FLAGS"
                }
            },
        }
    }
}

} // verus!
