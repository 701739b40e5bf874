//! Reading the ssh-agent's answer. No agent is started: only bytes are read.

use sshboard::agent::{
    fingerprint, identities_in, parse_identities, read_string, reply_length, request_identities,
    AgentConnectError, AgentError, AgentIdentity,
};

const SSH_AGENT_IDENTITIES_ANSWER: u8 = 12;

fn ssh_string(bytes: &[u8]) -> Vec<u8> {
    let mut out = (bytes.len() as u32).to_be_bytes().to_vec();
    out.extend_from_slice(bytes);
    out
}

fn answer_with(keys: &[(&[u8], &str)]) -> Vec<u8> {
    let mut out = vec![SSH_AGENT_IDENTITIES_ANSWER];
    out.extend_from_slice(&(keys.len() as u32).to_be_bytes());
    for (blob, comment) in keys {
        out.extend_from_slice(&ssh_string(blob));
        out.extend_from_slice(&ssh_string(comment.as_bytes()));
    }
    out
}

#[test]
fn the_request_is_a_five_byte_frame() {
    let request = request_identities();

    assert_eq!(request, vec![0, 0, 0, 1, 11]);
}

#[test]
fn every_identity_the_agent_reports_is_parsed() {
    let payload = answer_with(&[(b"blob-one", "work laptop"), (b"blob-two", "backup key")]);

    let identities = parse_identities(&payload).expect("unreadable");

    assert_eq!(identities.len(), 2);
    assert_eq!(identities[0].comment, "work laptop");
    assert_eq!(identities[1].comment, "backup key");
    assert!(identities[0].fingerprint.starts_with("SHA256:"), "{:?}", identities[0]);
}

#[test]
fn an_agent_with_no_keys_yields_an_empty_list_not_an_error() {
    let identities = parse_identities(&answer_with(&[])).expect("unreadable");

    assert!(identities.is_empty());
}

#[test]
fn a_reply_of_the_wrong_kind_is_rejected() {
    let mut payload = answer_with(&[(b"blob", "x")]);
    payload[0] = 5;

    assert_eq!(parse_identities(&payload), Err(AgentError::UnexpectedMessage { kind: 5 }));
}

#[test]
fn a_truncated_reply_is_reported_instead_of_panicking() {
    let payload = answer_with(&[(b"blob-one", "work laptop")]);
    let cut = &payload[..8];

    let result = parse_identities(cut);

    assert!(matches!(result, Err(AgentError::Truncated { .. })), "actual: {result:?}");
}

#[test]
fn a_reply_claiming_more_keys_than_it_carries_is_rejected() {
    let mut payload = vec![SSH_AGENT_IDENTITIES_ANSWER];
    payload.extend_from_slice(&1_000_000u32.to_be_bytes());

    let result = parse_identities(&payload);

    assert!(matches!(result, Err(AgentError::Truncated { .. })), "actual: {result:?}");
}

#[test]
fn the_fingerprint_matches_the_form_ssh_add_prints() {
    let printed = fingerprint(b"");

    assert_eq!(printed, "SHA256:47DEQpj8HBSa+/TImW+5JCeuQeRkm5NMpJWZG3hSuFU");
}

#[test]
fn an_identity_never_carries_key_material() {
    let identities = parse_identities(&answer_with(&[(b"SECRETBLOB", "c")])).expect("unreadable");

    let rendered = format!("{:?}", identities[0]);

    assert!(!rendered.contains("SECRETBLOB"), "raw key bytes present: {rendered}");
}

#[test]
fn a_comment_that_is_not_utf8_is_reported_not_silently_replaced() {
    let mut payload = vec![SSH_AGENT_IDENTITIES_ANSWER];
    payload.extend_from_slice(&1u32.to_be_bytes());
    payload.extend_from_slice(&ssh_string(b"blob"));
    payload.extend_from_slice(&ssh_string(&[0xFF, 0xFE]));

    assert_eq!(parse_identities(&payload), Err(AgentError::CommentNotUtf8 { index: 0 }));
}

#[test]
fn identities_are_values_that_can_be_compared() {
    let first = AgentIdentity { fingerprint: "SHA256:a".into(), comment: "x".into() };
    let second = first.clone();

    assert_eq!(first, second);
}

#[test]
fn an_empty_reply_is_truncated_at_its_first_byte() {
    assert_eq!(parse_identities(&[]), Err(AgentError::Truncated { at: 0 }));
    assert_eq!(parse_identities(&[12, 0, 0]), Err(AgentError::Truncated { at: 1 }));
}

#[test]
fn the_same_blob_always_gives_the_same_fingerprint_and_different_blobs_differ() {
    let identities = parse_identities(&answer_with(&[(b"one", "a"), (b"one", "b"), (b"two", "c")]))
        .expect("unreadable");
    assert_eq!(identities[0].fingerprint, identities[1].fingerprint);
    assert_ne!(identities[0].fingerprint, identities[2].fingerprint);
    assert_eq!(identities[0].fingerprint, fingerprint(b"one"));
    // "abc" is the usual SHA-256 check value.
    assert_eq!(fingerprint(b"abc"), "SHA256:ungWv48Bz+pBQUDeXa4iI7ADYaOWF3qctBD/YfIAFa0");
}

#[test]
fn a_string_is_read_by_its_length_prefix() {
    let bytes = [0, 0, 0, 3, b'a', b'b', b'c', 9];
    let (text, next) = read_string(&bytes, 0).expect("unreadable");
    assert_eq!(text, b"abc");
    assert_eq!(next, 7);
    assert_eq!(read_string(&bytes, 5), Err(AgentError::Truncated { at: 5 }));
    assert_eq!(read_string(&[0, 0, 0, 9, 1], 0), Err(AgentError::Truncated { at: 4 }));
}

#[test]
fn a_reply_length_outside_what_is_sane_is_refused() {
    assert!(matches!(reply_length(0), Err(AgentConnectError::Io(_))));
    assert!(matches!(reply_length(262_145), Err(AgentConnectError::Io(_))));
    assert_eq!(reply_length(262_144).ok(), Some(262_144));
    match reply_length(0) {
        Err(error) => assert_eq!(error.message(), "ssh-agent と話せません: 返事の長さが異常です: 0"),
        Ok(_) => panic!("a zero length was accepted"),
    }
}

#[test]
fn a_protocol_error_is_reported_with_what_went_wrong() {
    let result = identities_in(&[5]);
    match result {
        Err(error) => assert_eq!(error.message(), "ssh-agent の返事を読めません: 想定外の返事です（種類 5）"),
        Ok(_) => panic!("a wrong kind was accepted"),
    }
    let listed = identities_in(&answer_with(&[(b"k", "laptop")])).expect("unreadable");
    assert_eq!(listed[0].comment, "laptop");
    let not_running = AgentConnectError::NotRunning { detail: "SSH_AUTH_SOCK が設定されていません".into() };
    assert!(!not_running.message().contains("PRIVATE KEY"));
}
