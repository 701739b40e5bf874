//! A bundle comes back only with the same passphrase; a wrong one is told
//! apart from a broken file, and nothing goes out in the clear.

use sshboard::bundle::{
    check_version, open, seal, validate_passphrase, BundleError, BundlePayload, SecretMap,
    BUNDLE_VERSION, MIN_PASSPHRASE_LEN,
};
use sshboard::connections::{ConnectionEntry, Connections};

const PASS: &str = "sshboard-test-pass";

fn sample() -> BundlePayload {
    let entry = ConnectionEntry {
        id: "prod".into(),
        name: "本番".into(),
        host: "192.0.2.10".into(),
        port: 22,
        user: "deploy".into(),
        key_path: Some("/home/me/.ssh/id_ed25519".into()),
        keyring_passphrase_ref: Some("prod-key".into()),
        keyring_password_ref: None,
        fingerprint: Some("SHA256:xxxx".into()),
        known_hosts: None,
        color: Some("red".into()),
        tag: Some("本番".into()),
        write_roots: vec!["/srv/app".into()],
    };
    let mut secrets = SecretMap::new();
    secrets.insert("prod-key".to_string(), "鍵のパスフレーズ".to_string());
    BundlePayload::new(Connections { version: 1, connections: vec![entry] }, secrets)
}

/// The contents of the sample as they are written before sealing.
fn sample_plaintext() -> Vec<u8> {
    let mut text = String::new();
    text.push_str(r#"{"version":1,"connections":{"version":1,"connections":[{"id":"prod","name":"本番","#);
    text.push_str(r#""host":"192.0.2.10","port":22,"user":"deploy","key_path":"/home/me/.ssh/id_ed25519","#);
    text.push_str(r#""keyring_passphrase_ref":"prod-key","fingerprint":"SHA256:xxxx","color":"red","#);
    text.push_str(r#""tag":"本番","write_roots":["/srv/app"]}]},"secrets":{"prod-key":"鍵のパスフレーズ"}}"#);
    text.into_bytes()
}

#[test]
fn what_goes_in_comes_back_out() {
    let mut plaintext = sample_plaintext();
    let blob = seal(&mut plaintext, PASS).expect("cannot write");
    let back = open(&blob, PASS).expect("cannot read back");
    assert_eq!(back, sample_plaintext());
    let text = String::from_utf8(back).expect("not text");
    assert!(text.contains("192.0.2.10"));
    assert!(text.contains("鍵のパスフレーズ"));
}

#[test]
fn the_blob_does_not_carry_the_host_or_the_secret_in_the_clear() {
    let mut plaintext = sample_plaintext();
    let blob = seal(&mut plaintext, PASS).expect("cannot write");
    let text = String::from_utf8_lossy(&blob);
    for forbidden in ["192.0.2.10", "deploy", "鍵のパスフレーズ", "id_ed25519", "本番"] {
        assert!(!text.contains(forbidden), "in the clear: {forbidden}");
    }
}

#[test]
fn a_wrong_passphrase_is_told_apart_from_a_broken_file() {
    let mut plaintext = sample_plaintext();
    let blob = seal(&mut plaintext, PASS).expect("cannot write");
    assert!(matches!(open(&blob, "まちがったパスフレーズ"), Err(BundleError::IncorrectPassphrase)));
}

#[test]
fn a_file_that_is_not_a_bundle_is_refused_as_corrupt_not_as_a_wrong_passphrase() {
    let junk = b"this is not an age file at all";
    assert!(matches!(open(junk, PASS), Err(BundleError::Corrupt)));
}

#[test]
fn a_tampered_body_is_refused() {
    let mut plaintext = sample_plaintext();
    let mut blob = seal(&mut plaintext, PASS).expect("cannot write");
    let last = blob.len() - 1;
    blob[last] ^= 0xFF;
    assert!(open(&blob, PASS).is_err(), "an altered body was let through");
}

#[test]
fn a_short_passphrase_is_refused_before_anything_is_written() {
    let short = "a".repeat(MIN_PASSPHRASE_LEN - 1);
    let mut plaintext = sample_plaintext();
    assert!(matches!(seal(&mut plaintext, &short), Err(BundleError::WeakPassphrase)));
    assert_eq!(plaintext, sample_plaintext(), "the contents were touched before the refusal");
    assert!(matches!(seal(&mut plaintext, ""), Err(BundleError::WeakPassphrase)));
}

#[test]
fn the_same_content_does_not_produce_the_same_file() {
    let a = seal(&mut sample_plaintext(), PASS).expect("cannot write");
    let b = seal(&mut sample_plaintext(), PASS).expect("cannot write");
    assert_ne!(a, b, "two writes gave the same file");
}

#[test]
fn the_debug_output_never_shows_a_secret() {
    let shown = sample().describe();
    assert!(!shown.contains("鍵のパスフレーズ"), "a secret in the description");
    let p = sample();
    assert_eq!(
        shown,
        format!("BundlePayload {{ version: 1, connections: {:?}, secrets: <1 件・伏せています> }}", p.connections)
    );
    assert!(shown.starts_with("BundlePayload { version: 1, connections: Connections { version: "), "{shown}");
}

#[test]
fn the_plaintext_is_wiped_once_sealed() {
    let mut plaintext = sample_plaintext();
    seal(&mut plaintext, PASS).expect("cannot write");
    assert!(plaintext.is_empty(), "the plaintext is still there");
}

#[test]
fn a_passphrase_is_measured_in_characters() {
    assert!(validate_passphrase("一二三四五六七八").is_ok());
    assert!(matches!(validate_passphrase("一二三四五六七"), Err(BundleError::WeakPassphrase)));
}

#[test]
fn only_the_current_version_is_read() {
    assert!(check_version(BUNDLE_VERSION).is_ok());
    assert!(matches!(check_version(2), Err(BundleError::UnsupportedVersion(2))));
}

#[test]
fn bytes_that_stop_inside_the_age_header_line_are_corrupt() {
    assert!(matches!(open(b"", PASS), Err(BundleError::Corrupt)));
    assert!(matches!(open(b"age-encryption.org", PASS), Err(BundleError::Corrupt)));
    assert!(matches!(open(b"age-encryption.org/", PASS), Err(BundleError::Corrupt)));
}
