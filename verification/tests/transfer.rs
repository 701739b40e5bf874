//! Handing connections over: which secrets go in, where they go back, and
//! what is undone when putting them back fails. No real store is touched.

use std::cell::RefCell;
use std::collections::BTreeMap;

use sshboard::bundle::{apply_payload, build_payload, BundlePayload, LoggedVault, SecretMap, SecretVault, TransferError};
use sshboard::connections::{ConnectionEntry, Connections};

#[derive(Default)]
struct FakeVault {
    items: RefCell<BTreeMap<String, String>>,
    fail_put_on: Option<String>,
}

impl FakeVault {
    fn with(items: &[(&str, &str)]) -> Self {
        Self {
            items: RefCell::new(items.iter().map(|(k, v)| ((*k).to_string(), (*v).to_string())).collect()),
            fail_put_on: None,
        }
    }
    fn failing_on(reference: &str) -> Self {
        Self { items: RefCell::new(BTreeMap::new()), fail_put_on: Some(reference.to_string()) }
    }
    fn names(&self) -> Vec<String> {
        self.items.borrow().keys().cloned().collect()
    }
}

impl SecretVault for FakeVault {
    fn get(&self, reference: &str) -> Result<String, String> {
        self.items.borrow().get(reference).cloned().ok_or_else(|| format!("missing: {reference}"))
    }
    fn put(&self, reference: &str, secret: &str) -> Result<(), String> {
        if self.fail_put_on.as_deref() == Some(reference) {
            return Err("failing on purpose".into());
        }
        self.items.borrow_mut().insert(reference.to_string(), secret.to_string());
        Ok(())
    }
    fn delete(&self, reference: &str) -> Result<(), String> {
        self.items.borrow_mut().remove(reference);
        Ok(())
    }
}

fn entry(id: &str, keyring_ref: Option<&str>) -> ConnectionEntry {
    ConnectionEntry {
        id: id.into(),
        name: id.into(),
        host: format!("{id}.example.com"),
        port: 22,
        user: "someone".into(),
        key_path: Some("/home/me/.ssh/id_ed25519".into()),
        keyring_passphrase_ref: keyring_ref.map(str::to_string),
        keyring_password_ref: None,
        fingerprint: None,
        known_hosts: None,
        color: None,
        tag: None,
        write_roots: vec![],
    }
}

fn store(entries: Vec<ConnectionEntry>) -> Connections {
    Connections { version: 1, connections: entries }
}

#[test]
fn only_the_ones_that_were_ticked_go_in() {
    let all = store(vec![entry("a", None), entry("b", None), entry("c", None)]);
    let mut vault = LoggedVault::new(FakeVault::default());
    let payload = build_payload(&all, &["a".into(), "c".into()], &mut vault).expect("cannot build");
    let ids: Vec<&str> = payload.connections.connections.iter().map(|e| e.id.as_str()).collect();
    assert_eq!(ids, vec!["a", "c"]);
}

#[test]
fn the_secrets_the_ticked_ones_point_at_are_collected() {
    let all = store(vec![entry("a", Some("a-key")), entry("b", Some("b-key"))]);
    let mut vault = LoggedVault::new(FakeVault::with(&[("a-key", "AAA"), ("b-key", "BBB")]));
    let payload = build_payload(&all, &["a".into()], &mut vault).expect("cannot build");
    assert_eq!(payload.secrets.get("a-key").map(String::as_str), Some("AAA"));
    assert!(!payload.secrets.contains_key("b-key"));
}

#[test]
fn a_connection_that_uses_the_agent_carries_no_secret_and_that_is_not_an_error() {
    let all = store(vec![entry("a", None)]);
    let mut vault = LoggedVault::new(FakeVault::default());
    let payload = build_payload(&all, &["a".into()], &mut vault).expect("cannot build");
    assert!(payload.secrets.is_empty());
}

#[test]
fn a_secret_the_store_cannot_give_back_stops_the_export() {
    let all = store(vec![entry("a", Some("missing"))]);
    let mut vault = LoggedVault::new(FakeVault::default());
    assert!(matches!(
        build_payload(&all, &["a".into()], &mut vault),
        Err(TransferError::SecretMissing { .. })
    ));
}

#[test]
fn an_unknown_id_is_refused_rather_than_quietly_skipped() {
    let all = store(vec![entry("a", None)]);
    let mut vault = LoggedVault::new(FakeVault::default());
    assert!(matches!(
        build_payload(&all, &["nope".into()], &mut vault),
        Err(TransferError::UnknownConnection { .. })
    ));
}

#[test]
fn importing_puts_the_secrets_in_before_the_list_is_written() {
    let payload = {
        let mut secrets = SecretMap::new();
        secrets.insert("a-key".to_string(), "AAA".to_string());
        BundlePayload::new(store(vec![entry("a", Some("a-key"))]), secrets)
    };
    let mut vault = LoggedVault::new(FakeVault::default());
    let merged = apply_payload(payload, store(vec![]), &mut vault).expect("cannot import");
    assert_eq!(vault.inner().get("a-key").as_deref(), Ok("AAA"));
    assert_eq!(merged.connections.len(), 1);
}

#[test]
fn an_incoming_connection_replaces_the_one_with_the_same_id() {
    let payload = BundlePayload::new(store(vec![entry("a", None)]), SecretMap::new());
    let mut existing = entry("a", None);
    existing.host = "old.example.com".into();
    let mut vault = LoggedVault::new(FakeVault::default());
    let merged = apply_payload(payload, store(vec![existing, entry("z", None)]), &mut vault).expect("cannot import");
    assert_eq!(merged.connections.len(), 2, "neither more nor fewer");
    let a = merged.connections.iter().find(|e| e.id == "a").expect("no a");
    assert_eq!(a.host, "a.example.com", "the old one stayed");
    assert!(merged.connections.iter().any(|e| e.id == "z"), "z was removed");
}

#[test]
fn if_putting_a_secret_fails_the_ones_already_put_are_taken_back_out() {
    let mut secrets = SecretMap::new();
    secrets.insert("first".to_string(), "1".to_string());
    secrets.insert("second".to_string(), "2".to_string());
    let payload = BundlePayload::new(store(vec![entry("a", None)]), secrets);

    let mut vault = LoggedVault::new(FakeVault::failing_on("second"));
    let result = apply_payload(payload, store(vec![]), &mut vault);

    assert!(matches!(result, Err(TransferError::SecretStore { .. })));
    assert!(vault.inner().names().is_empty(), "what was put is still there: {:?}", vault.inner().names());
}

#[test]
fn the_login_password_travels_too() {
    let mut with_password = entry("a", None);
    with_password.keyring_password_ref = Some("a-login".into());

    let all = store(vec![with_password]);
    let mut vault = LoggedVault::new(FakeVault::with(&[("a-login", "hunter2")]));
    let payload = build_payload(&all, &["a".into()], &mut vault).expect("cannot build");

    assert_eq!(payload.secrets.get("a-login").map(String::as_str), Some("hunter2"));
}

#[test]
fn a_missing_login_password_stops_the_export_too() {
    let mut with_password = entry("a", None);
    with_password.keyring_password_ref = Some("missing".into());

    let all = store(vec![with_password]);
    let mut vault = LoggedVault::new(FakeVault::default());
    assert!(matches!(
        build_payload(&all, &["a".into()], &mut vault),
        Err(TransferError::SecretMissing { .. })
    ));
}

#[test]
fn the_merged_list_keeps_the_current_order_then_what_came_in() {
    let payload = BundlePayload::new(store(vec![entry("b", None), entry("x", None)]), SecretMap::new());
    let mut vault = LoggedVault::new(FakeVault::default());
    let merged = apply_payload(payload, store(vec![entry("a", None), entry("b", None), entry("c", None)]), &mut vault)
        .expect("cannot import");
    let ids: Vec<&str> = merged.connections.iter().map(|e| e.id.as_str()).collect();
    assert_eq!(ids, vec!["a", "c", "b", "x"]);
    assert_eq!(merged.version, 1);
}

#[test]
fn secrets_are_kept_in_the_order_of_their_names_each_once() {
    let mut secrets = SecretMap::new();
    secrets.insert("zeta".into(), "1".into());
    secrets.insert("alpha".into(), "2".into());
    secrets.insert("zeta".into(), "3".into());
    assert_eq!(secrets.len(), 2);
    assert_eq!(secrets.entry(0), ("alpha", "2"));
    assert_eq!(secrets.entry(1), ("zeta", "3"));
    assert!(secrets.contains_key("alpha"));
    assert!(secrets.get("beta").is_none());
}

#[test]
fn the_failing_secret_is_named_and_nothing_after_it_is_tried() {
    let mut secrets = SecretMap::new();
    secrets.insert("a".into(), "1".into());
    secrets.insert("b".into(), "2".into());
    secrets.insert("c".into(), "3".into());
    let payload = BundlePayload::new(store(vec![]), secrets);
    let mut vault = LoggedVault::new(FakeVault::failing_on("b"));
    match apply_payload(payload, store(vec![]), &mut vault) {
        Err(TransferError::SecretStore { reference, detail }) => {
            assert_eq!(reference, "b");
            assert_eq!(detail, "failing on purpose");
        }
        other => panic!("actual: {other:?}"),
    }
    assert!(vault.inner().names().is_empty());
}

#[test]
fn ticking_the_same_connection_twice_puts_it_in_twice_with_its_secret_once() {
    let all = store(vec![entry("a", Some("a-key"))]);
    let mut vault = LoggedVault::new(FakeVault::with(&[("a-key", "AAA")]));
    let payload = build_payload(&all, &["a".into(), "a".into()], &mut vault).expect("cannot build");
    assert_eq!(payload.connections.connections.len(), 2);
    assert_eq!(payload.secrets.len(), 1);
}
