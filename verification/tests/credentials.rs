//! Scenarios of the credential wrappers and quoted-string rendering.

use imap_rs::credentials::{imap_quoted, OAuthToken, Password};
use imap_rs::error::ClientError;

#[test]
fn test_password_obfuscation() {
    let pass = Password::new("secret_pass");
    let debug_str = pass.redacted();
    assert_eq!(debug_str, "\"***\"");
    assert!(!debug_str.contains("secret_pass"));
    assert_eq!(pass.as_str(), "secret_pass");
}

#[test]
fn test_oauth_obfuscation() {
    let token = OAuthToken::new("ya29.token");
    let debug_str = token.redacted();
    assert_eq!(debug_str, "\"***\"");
    assert!(!debug_str.contains("ya29.token"));
    assert_eq!(token.as_str(), "ya29.token");
}

#[test]
fn test_imap_quoted_basic() {
    assert_eq!(imap_quoted("hello").unwrap(), "\"hello\"");
    assert_eq!(imap_quoted("").unwrap(), "\"\"");
}

#[test]
fn test_imap_quoted_escapes() {
    assert_eq!(imap_quoted("a\"b").unwrap(), "\"a\\\"b\"");
    assert_eq!(imap_quoted("a\\b").unwrap(), "\"a\\\\b\"");
    assert_eq!(imap_quoted("a\\\"b").unwrap(), "\"a\\\\\\\"b\"");
}

#[test]
fn test_imap_quoted_rejects_cr_lf() {
    assert!(imap_quoted("with\rCR").is_err());
    assert!(imap_quoted("with\nLF").is_err());
}

#[test]
fn test_imap_quoted_rejects_nul_and_8bit() {
    assert!(imap_quoted("a\0b").is_err());
    assert!(imap_quoted("café").is_err());
}

#[test]
fn test_password_as_imap_quoted_roundtrip() {
    let p = Password::new("p@ss\"with\\specials");
    assert_eq!(p.as_imap_quoted().unwrap(), "\"p@ss\\\"with\\\\specials\"");
}

// --- Further scenarios ---------------------------------------------------

#[test]
fn test_imap_quoted_error_message() {
    match imap_quoted("x\ry") {
        Err(ClientError::CommandFailed(m)) => assert_eq!(
            m,
            "value contains characters disallowed in IMAP quoted string; use AUTHENTICATE for 8-bit or control-byte values"
        ),
        _ => panic!("unexpected result"),
    }
}

#[test]
fn test_password_as_imap_quoted_rejects_8bit() {
    let p = Password::new("café");
    assert!(matches!(p.as_imap_quoted(), Err(ClientError::CommandFailed(_))));
}

#[test]
fn test_zeroize_empties_the_secret() {
    let mut p = Password::new("hunter2");
    p.zeroize();
    assert_eq!(p.as_str(), "");
    let mut t = OAuthToken::new("ya29.token");
    t.zeroize();
    assert_eq!(t.as_str(), "");
}

#[test]
fn test_redacted_form_does_not_depend_on_the_secret() {
    assert_eq!(Password::new("").redacted(), Password::new("a long secret").redacted());
    assert_eq!(OAuthToken::new("x").redacted(), "\"***\"");
}
