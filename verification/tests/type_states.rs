//! The session type-state markers.

use imap_rs::session::{Authenticated, PlainText, Selected, Tls, Unauthenticated};

#[test]
fn test_type_states() {
    // The state and transport markers are plain unit types; the compile-time
    // enforcement that uses them lives with the session.
    let _states = (Unauthenticated, Authenticated, Selected);
    let _transports = (PlainText, Tls);
}
