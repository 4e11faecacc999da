//! Scenarios of message flags and STORE actions.

use imap_rs::flags::{join_flags, Flag, StoreAction};

#[test]
fn test_flag_display() {
    assert_eq!(Flag::Seen.to_imap_string(), "\\Seen");
    assert_eq!(Flag::Answered.to_imap_string(), "\\Answered");
    assert_eq!(Flag::Flagged.to_imap_string(), "\\Flagged");
    assert_eq!(Flag::Deleted.to_imap_string(), "\\Deleted");
    assert_eq!(Flag::Draft.to_imap_string(), "\\Draft");
    assert_eq!(Flag::Recent.to_imap_string(), "\\Recent");
    assert_eq!(Flag::Custom("MyFlag".into()).to_imap_string(), "MyFlag");
}

#[test]
fn test_store_action_prefix() {
    assert_eq!(StoreAction::Add.to_imap_prefix(false), "+FLAGS");
    assert_eq!(StoreAction::Add.to_imap_prefix(true), "+FLAGS.SILENT");
    assert_eq!(StoreAction::Remove.to_imap_prefix(false), "-FLAGS");
    assert_eq!(StoreAction::Remove.to_imap_prefix(true), "-FLAGS.SILENT");
    assert_eq!(StoreAction::Replace.to_imap_prefix(false), "FLAGS");
    assert_eq!(StoreAction::Replace.to_imap_prefix(true), "FLAGS.SILENT");
}

#[test]
fn test_join_flags() {
    assert_eq!(join_flags(&[]), "");
    assert_eq!(join_flags(&[Flag::Seen]), "\\Seen");
    assert_eq!(
        join_flags(&[Flag::Seen, Flag::Deleted, Flag::Custom("$Label".into())]),
        "\\Seen \\Deleted $Label"
    );
}
