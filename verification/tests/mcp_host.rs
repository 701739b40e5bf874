//! The port the MCP endpoint listens on, and the token the relay uses.

use sshboard::desktop::{choose_token, resolve_port, DEFAULT_MCP_PORT};

#[test]
fn with_nothing_set_the_port_is_the_fixed_one() {
    assert_eq!(resolve_port(None), Ok(DEFAULT_MCP_PORT));
}

#[test]
fn an_empty_value_is_treated_as_unset() {
    assert_eq!(resolve_port(Some("")), Ok(DEFAULT_MCP_PORT));
    assert_eq!(resolve_port(Some("   ")), Ok(DEFAULT_MCP_PORT));
}

#[test]
fn a_number_the_person_set_is_used_as_given() {
    assert_eq!(resolve_port(Some("31000")), Ok(31000));
    assert_eq!(resolve_port(Some(" 31000 ")), Ok(31000));
}

#[test]
fn zero_stays_allowed_because_someone_may_have_to_let_the_os_pick() {
    assert_eq!(resolve_port(Some("0")), Ok(0));
}

#[test]
fn a_value_that_is_not_a_port_is_refused_rather_than_silently_ignored() {
    assert!(resolve_port(Some("あいうえお")).is_err());
    assert!(resolve_port(Some("70000")).is_err(), "beyond u16");
    assert!(resolve_port(Some("-1")).is_err());
}

#[test]
fn the_fixed_port_and_the_largest_one_are_read_exactly() {
    assert_eq!(DEFAULT_MCP_PORT, 22022);
    assert_eq!(resolve_port(Some("65535")), Ok(65535));
    assert!(resolve_port(Some("65536")).is_err());
    assert!(resolve_port(Some("3 1")).is_err());
    assert_eq!(resolve_port(Some("+1")), Ok(1), "u16 parsing takes a leading plus");
}

#[test]
fn a_pinned_token_wins_and_a_kept_one_is_trimmed() {
    assert_eq!(choose_token(Some(" pinned "), Some("kept")), Some(" pinned ".to_string()));
    assert_eq!(choose_token(Some("   "), Some("  kept\n")), Some("kept".to_string()));
    assert_eq!(choose_token(None, Some("kept")), Some("kept".to_string()));
    assert_eq!(choose_token(None, Some(" \n")), None);
    assert_eq!(choose_token(None, None), None);
}
