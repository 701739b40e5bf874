//! The OS credential store. Each read goes through a new handle, so an
//! in-memory stand-in that only keeps what one handle wrote cannot pass.

use sshboard::secrets::{SecretError, SecretStore};

const TEST_SERVICE: &str = "sshboard-test-suite";

#[test]
fn a_secret_written_through_one_handle_is_readable_through_a_new_one() {
    let reference = "phase0-roundtrip";
    let mut writer = SecretStore::new(TEST_SERVICE);
    let _ = writer.delete(reference);

    writer.put(reference, "not-a-real-secret").expect("cannot write");
    let mut reader = SecretStore::new(TEST_SERVICE);
    let read_back = reader.get(reference);

    let _ = reader.delete(reference);

    assert_eq!(
        read_back.expect("unreadable: the store may have fallen back to a stand-in"),
        "not-a-real-secret"
    );
}

#[test]
fn asking_for_something_that_was_never_stored_says_so() {
    let mut store = SecretStore::new(TEST_SERVICE);
    let reference = "phase0-never-stored";
    let _ = store.delete(reference);

    let result = store.get(reference);

    assert!(matches!(result, Err(SecretError::NotFound { .. })), "actual: {result:?}");
}

#[test]
fn a_deleted_secret_is_gone() {
    let mut store = SecretStore::new(TEST_SERVICE);
    let reference = "phase0-delete";
    // A login session already has a session keyring; a bare process gets one
    // the first time the store is asked, so ask once before writing.
    let _ = store.get(reference);
    store.put(reference, "temporary").expect("cannot write");

    store.delete(reference).expect("cannot delete");
    let after = SecretStore::new(TEST_SERVICE).get(reference);

    assert!(after.is_err(), "still readable after deletion");
}

#[test]
fn an_error_never_carries_the_secret_itself() {
    let mut store = SecretStore::new(TEST_SERVICE);

    let error = store.get("phase0-absent").expect_err("cannot be there");
    let rendered = error.message();

    assert!(rendered.contains("phase0-absent"), "names the reference: {rendered}");
    assert!(!rendered.contains("password"), "actual: {rendered}");
}

#[test]
fn a_store_keeps_the_service_it_was_made_for() {
    assert_eq!(SecretStore::new("sshboard").service(), "sshboard");
}

#[test]
fn store_errors_read_as_what_went_wrong() {
    assert_eq!(
        SecretError::NotFound { reference: "r".into() }.message(),
        "`r` に対応する保存がありません"
    );
    assert_eq!(
        SecretError::Store("locked".into()).message(),
        "OS の資格情報ストアが使えません: locked"
    );
}
