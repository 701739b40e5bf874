//! What the connection screen changes, and the band lines it leaves:
//! identifiers only, never where a connection points.

use sshboard::connections::{ConnectionEntry, Connections};
use sshboard::desktop::{
    deleted_record, exported_record, imported_record, password_record, saved_record, store_password,
};
use sshboard::screen::text_size_direction;
use sshboard::secrets::SecretStore;

fn entry(id: &str) -> ConnectionEntry {
    ConnectionEntry {
        id: id.into(),
        name: id.into(),
        host: "secret-host.invalid".into(),
        port: 22,
        user: "secret-user".into(),
        key_path: None,
        keyring_passphrase_ref: None,
        keyring_password_ref: None,
        fingerprint: None,
        known_hosts: None,
        color: None,
        tag: None,
        write_roots: vec![],
    }
}

#[test]
fn band_lines_name_the_connection_only() {
    assert_eq!(saved_record("web", true), "更新した 接続: web");
    assert_eq!(saved_record("web", false), "登録した 接続: web");
    assert_eq!(deleted_record("web"), "消した接続: web");
    assert_eq!(password_record("web", true), "接続 `web` のパスワードを消しました");
    assert_eq!(password_record("web", false), "接続 `web` のパスワードを預かりました");
    assert_eq!(exported_record(3), "接続を 3 件、暗号化して書き出しました");
    assert_eq!(imported_record(0), "接続を 0 件、取り込みました");
}

#[test]
fn a_password_for_an_unknown_connection_is_refused_before_the_store_is_touched() {
    let list = Connections { version: 1, connections: vec![entry("web")] };
    let mut store = SecretStore::new("sshboard-test-suite");
    assert_eq!(
        store_password(&list, "db", "hunter2", &mut store).err().as_deref(),
        Some("そんな接続はありません: db")
    );
}

#[test]
fn an_empty_password_clears_the_reference() {
    let mut with_ref = entry("web");
    with_ref.keyring_password_ref = Some("password:web".into());
    let list = Connections { version: 1, connections: vec![with_ref, entry("db")] };
    let mut store = SecretStore::new("sshboard-test-suite");
    let next = store_password(&list, "web", "", &mut store).expect("refused");
    assert!(!next.has_password("web"));
    assert_eq!(next.connections.len(), 2);
}

#[test]
fn the_text_size_items_are_told_apart() {
    assert_eq!(text_size_direction("text-larger"), Some("larger"));
    assert_eq!(text_size_direction("text-smaller"), Some("smaller"));
    assert_eq!(text_size_direction("text-reset"), Some("reset"));
    assert_eq!(text_size_direction("quit"), None);
}
