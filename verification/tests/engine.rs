//! The decisions of the engine: who holds the console, which connections
//! are open and where operations go, how a connection authenticates, and
//! where a download may land.

use sshboard::band::Actor;
use sshboard::connections::{ConnectionEntry, Connections};
use sshboard::diag::{Diagnostics, Level, Stage};
use sshboard::secrets::SecretStore;
use sshboard::engine::{
    auth_for, bad_argument, check_destination, choose_auth, entry_for, held_by, who, Auth, ConsoleSlot,
    EngineError, Held, KeyFacts, OnConflict, Opened,
};
use sshboard::probes::service_status;

fn opened(id: &str) -> Opened {
    let entry = entry(id, None);
    Opened::for_entry(&entry, "SHA256:fp".into(), "ssh-ed25519".into(), vec!["/srv/app".into()])
}

fn entry(id: &str, key_path: Option<&str>) -> ConnectionEntry {
    ConnectionEntry {
        id: id.into(),
        name: format!("{id} name"),
        host: format!("{id}.example.invalid"),
        port: 22,
        user: "deploy".into(),
        key_path: key_path.map(str::to_string),
        keyring_passphrase_ref: None,
        keyring_password_ref: None,
        fingerprint: None,
        known_hosts: None,
        color: None,
        tag: Some("本番".into()),
        write_roots: vec![],
    }
}

fn facts(usable: bool, needs_passphrase: bool) -> KeyFacts {
    KeyFacts { format: "OpenSSH".into(), usable, needs_passphrase, unsupported_encryption: false }
}

#[test]
fn only_the_side_holding_the_console_can_type_into_it() {
    let mut d = Diagnostics::new();
    let mut slot = ConsoleSlot::new();
    slot.check_open(&mut d, Actor::Human, Some("web")).expect("cannot open");
    assert_eq!(slot.settle_open(&mut d, Actor::Human, "web", 80, 24).ok(), Some(false));
    assert!(slot.check_type(&mut d, Actor::Human).is_ok());
    let before = d.len();
    match slot.check_type(&mut d, Actor::Ai) {
        Err(EngineError::ConsoleHeldByOther { holder }) => assert_eq!(holder, "人"),
        other => panic!("the side not holding it can type: {other:?}"),
    }
    assert_eq!(d.len(), before + 1, "the refused keystroke was not written down");
    let last = &d.recent(1)[0];
    assert_eq!(last.stage, Stage::Exec);
    assert_eq!(last.level, Level::Error);
    assert_eq!(last.connection, None);
    assert_eq!(last.message, "打鍵を断りました（AIが打ち、人が握っています）");
}

#[test]
fn opening_the_console_is_written_down_with_its_size() {
    let mut d = Diagnostics::new();
    let mut slot = ConsoleSlot::new();
    slot.settle_open(&mut d, Actor::Ai, "web", 120, 40).expect("cannot open");
    let last = &d.recent(1)[0];
    assert_eq!(last.level, Level::Info);
    assert_eq!(last.connection.as_deref(), Some("web"));
    assert_eq!(last.message, "端末を開きました（AI・120×40）");
}

#[test]
fn a_person_can_always_take_the_console_back() {
    let mut d = Diagnostics::new();
    let mut slot = ConsoleSlot::new();
    slot.settle_open(&mut d, Actor::Ai, "web", 80, 24).expect("cannot open");
    assert_eq!(slot.take(&mut d, Actor::Human).ok(), Some(Some(Actor::Human)), "the new holder is not announced");
    assert_eq!(d.recent(1)[0].message, "握りがAIから人へ移りました");
    assert!(slot.check_type(&mut d, Actor::Human).is_ok());
    assert!(matches!(slot.take(&mut d, Actor::Ai), Err(EngineError::ConsoleApprovalNeeded)));
    assert_eq!(slot.holder(), Some(Actor::Human), "asking moved the hold");
    let refused = &d.recent(1)[0];
    assert_eq!(refused.level, Level::Error);
    assert!(refused.hint.is_some());
}

#[test]
fn stopping_the_console_always_works_and_frees_it() {
    let mut d = Diagnostics::new();
    let mut slot = ConsoleSlot::new();
    slot.settle_open(&mut d, Actor::Human, "web", 80, 24).expect("cannot open");
    assert_eq!(slot.stop(&mut d, Actor::Human).ok(), Some(true));
    assert_eq!(d.recent(1)[0].message, "端末を止めました");
    assert_eq!(slot.holder(), None);
    assert_eq!(slot.connection(), None);
    assert!(matches!(slot.check_type(&mut d, Actor::Human), Err(EngineError::ConsoleNotOpen)));
    assert!(slot.check_open(&mut d, Actor::Ai, Some("db")).is_ok());
    assert_eq!(slot.stop(&mut d, Actor::Ai).ok(), Some(false), "a second stop found something open");
}

#[test]
fn the_ai_cannot_stop_a_console_the_human_is_holding() {
    let mut d = Diagnostics::new();
    let mut slot = ConsoleSlot::new();
    slot.take(&mut d, Actor::Human).expect("the person cannot take it");
    let refused = slot.stop(&mut d, Actor::Ai);
    assert!(matches!(refused, Err(EngineError::ConsoleHeldByOther { .. })), "{refused:?}");
    assert_eq!(slot.holder(), Some(Actor::Human), "the hold left the person");
}

#[test]
fn the_human_can_always_stop_it_even_when_the_ai_holds_it() {
    let mut d = Diagnostics::new();
    let mut slot = ConsoleSlot::new();
    slot.take(&mut d, Actor::Ai).expect("the agent cannot take it");
    assert!(slot.stop(&mut d, Actor::Human).is_ok());
    assert_eq!(slot.holder(), None);
}

#[test]
fn the_ai_can_let_go_of_what_it_holds_itself() {
    let mut d = Diagnostics::new();
    let mut slot = ConsoleSlot::new();
    slot.take(&mut d, Actor::Ai).expect("the agent cannot take it");
    assert!(slot.stop(&mut d, Actor::Ai).is_ok());
    assert_eq!(slot.holder(), None);
}

#[test]
fn stopping_a_console_nobody_holds_is_not_an_error() {
    let mut d = Diagnostics::new();
    let mut slot = ConsoleSlot::new();
    assert!(slot.stop(&mut d, Actor::Ai).is_ok());
    assert!(slot.stop(&mut d, Actor::Human).is_ok());
}

#[test]
fn failing_to_open_the_console_is_written_down() {
    let mut d = Diagnostics::new();
    let slot = ConsoleSlot::new();
    assert!(matches!(slot.check_open(&mut d, Actor::Human, None), Err(EngineError::NotConnected)));
    let events = d.recent(50);
    let about_console = events.iter().find(|e| e.stage == Stage::Exec).expect("nothing written down");
    assert_eq!(about_console.level, Level::Error);
    assert!(about_console.hint.is_some());
    assert_eq!(slot.holder(), None);
}

#[test]
fn refusing_a_keystroke_is_written_down() {
    let mut d = Diagnostics::new();
    let slot = ConsoleSlot::new();
    assert!(matches!(slot.check_type(&mut d, Actor::Human), Err(EngineError::ConsoleNotOpen)));
    assert!(d.recent(50).iter().any(|e| e.stage == Stage::Exec && e.level == Level::Error));
}

#[test]
fn the_console_record_never_carries_the_destination() {
    let mut d = Diagnostics::new();
    let mut slot = ConsoleSlot::new();
    let _ = slot.check_open(&mut d, Actor::Human, None);
    let _ = slot.check_type(&mut d, Actor::Human);
    let _ = slot.stop(&mut d, Actor::Human);
    let written: Vec<String> = d.recent(50).iter().map(|e| e.render()).collect();
    let written = written.join("\n");
    for leak in ["@", "://", "192.168.", "10.0.", ".com", ".local"] {
        assert!(!written.contains(leak), "{leak} in {written}");
    }
}

#[test]
fn the_console_is_not_moved_to_another_connection_silently() {
    let mut d = Diagnostics::new();
    let mut slot = ConsoleSlot::new();
    slot.settle_open(&mut d, Actor::Human, "first", 80, 24).expect("cannot open");
    assert_eq!(slot.connection().as_deref(), Some("first"));
    match slot.check_open(&mut d, Actor::Human, Some("second")) {
        Err(EngineError::ConsoleOnOtherConnection { id }) => assert_eq!(id, "first"),
        other => panic!("moved silently: {other:?}"),
    }
    assert_eq!(d.recent(1)[0].message, "端末を開けません（first で開いています）");
    assert!(matches!(slot.check_open(&mut d, Actor::Human, None), Err(EngineError::NotConnected)));
    assert!(matches!(slot.check_resize(), Ok(())));
}

#[test]
fn the_other_side_taking_hold_while_opening_wins() {
    let mut d = Diagnostics::new();
    let mut slot = ConsoleSlot::new();
    slot.take(&mut d, Actor::Human).expect("cannot take");
    assert!(matches!(
        slot.settle_open(&mut d, Actor::Ai, "web", 80, 24),
        Err(EngineError::ConsoleHeldByOther { .. })
    ));
    assert!(!slot.is_open());
    assert!(matches!(slot.check_type(&mut d, Actor::Human), Err(EngineError::ConsoleNotOpen)));
}

#[test]
fn several_connections_stay_open_in_order_and_all_are_listed() {
    let mut held = Held::new();
    held.insert(opened("web"));
    held.insert(opened("app"));
    held.insert(opened("db"));
    let ids: Vec<String> = held.open_connections().into_iter().map(|o| o.id).collect();
    assert_eq!(ids, vec!["app", "db", "web"]);
    assert_eq!(held.active().map(|o| o.id).as_deref(), Some("db"), "the last opened is not the destination");
    assert!(held.is_open("web"));
    assert!(!held.is_open("mail"));
}

#[test]
fn the_same_connection_is_not_opened_twice() {
    let mut held = Held::new();
    held.insert(opened("web"));
    match held.check_connect("web") {
        Err(EngineError::AlreadyConnected { id, name }) => {
            assert_eq!(id, "web");
            assert_eq!(name, "web name");
        }
        other => panic!("opened twice: {other:?}"),
    }
    assert!(held.check_connect("db").is_ok());
}

#[test]
fn closing_the_focused_connection_moves_the_focus_to_one_that_is_still_open() {
    let mut held = Held::new();
    held.insert(opened("b"));
    held.insert(opened("c"));
    held.insert(opened("a"));
    held.focus(&mut Diagnostics::new(), "c").expect("cannot focus");
    let closed = held.disconnect(None).expect("nothing closed");
    assert_eq!(closed.id, "c");
    assert_eq!(held.active_id().ok().as_deref(), Some("a"));
    held.disconnect(Some("a"));
    assert_eq!(held.active_id().ok().as_deref(), Some("b"));
    held.disconnect(Some("b"));
    assert!(matches!(held.active_id(), Err(EngineError::NotConnected)));
    assert!(held.disconnect(None).is_none(), "closing with nothing open is not safe to repeat");
}

#[test]
fn closing_another_connection_keeps_the_focus() {
    let mut held = Held::new();
    held.insert(opened("a"));
    held.insert(opened("b"));
    assert!(held.disconnect(Some("a")).is_some());
    assert_eq!(held.active_id().ok().as_deref(), Some("b"));
    assert!(held.disconnect(Some("zzz")).is_none());
}

#[test]
fn focusing_something_that_is_not_open_is_refused() {
    let mut held = Held::new();
    held.insert(opened("a"));
    let mut d = Diagnostics::new();
    match held.focus(&mut d, "b") {
        Err(EngineError::NotOpen { id }) => assert_eq!(id, "b"),
        other => panic!("cannot tell which one: {other:?}"),
    }
    assert_eq!(held.active_id().ok().as_deref(), Some("a"));
    assert_eq!(held.focus(&mut d, "a").map(|o| o.id).ok().as_deref(), Some("a"));
}

#[test]
fn refusing_a_stale_tab_leaves_something_to_read() {
    let mut held = Held::new();
    let mut d = Diagnostics::new();
    let _ = held.focus(&mut d, "stale-tab");
    let recorded = d.recent(50);
    assert!(recorded.iter().any(|e| e.message.contains("開いていない接続を宛先にしようと")));
    assert!(recorded.iter().any(|e| e.connection.as_deref() == Some("stale-tab")));
}

#[test]
fn what_an_open_connection_shows_carries_no_host_and_no_user() {
    let o = opened("web");
    assert_eq!(o.id, "web");
    assert_eq!(o.tag.as_deref(), Some("本番"));
    assert!(o.write.human_unrestricted);
    assert_eq!(o.write.ai_roots, vec!["/srv/app".to_string()]);
    let copy = o.duplicate();
    assert_eq!(copy.fingerprint, "SHA256:fp");
    assert_eq!(copy.host_key_algorithm, "ssh-ed25519");
}

#[test]
fn without_a_key_file_the_typed_password_then_the_agent_is_used() {
    let no_key = entry("web", None);
    match choose_auth(&no_key, Some("pw".into()), None, Some("stored".into()), &facts(true, false)) {
        Ok(Auth::Password { password }) => assert_eq!(password, "pw"),
        _ => panic!("the typed password was not used"),
    }
    match choose_auth(&no_key, Some("".into()), None, Some("stored".into()), &facts(true, false)) {
        Ok(Auth::Password { password }) => assert_eq!(password, "stored"),
        _ => panic!("the stored password was not used"),
    }
    assert!(matches!(choose_auth(&no_key, None, None, None, &facts(true, false)), Ok(Auth::Agent)));
}

#[test]
fn a_key_file_that_cannot_authenticate_is_refused_by_its_format_only() {
    let with_key = entry("web", Some("/home/me/.ssh/id_ed25519.pub"));
    match choose_auth(&with_key, None, None, None, &facts(false, false)) {
        Err(EngineError::UnusableKey { id, format }) => {
            assert_eq!(id, "web");
            assert_eq!(format, "OpenSSH");
        }
        _ => panic!("an unusable key was accepted"),
    }
}

#[test]
fn an_encrypted_key_without_a_passphrase_goes_back_to_a_person() {
    let with_key = entry("web", Some("/home/me/.ssh/id_ed25519"));
    assert!(matches!(
        choose_auth(&with_key, None, None, None, &facts(true, true)),
        Err(EngineError::PassphraseNeeded { .. })
    ));
    match choose_auth(&with_key, None, Some("kept".into()), None, &facts(true, true)) {
        Ok(Auth::Key { path, passphrase }) => {
            assert_eq!(path, "/home/me/.ssh/id_ed25519");
            assert_eq!(passphrase.as_deref(), Some("kept"));
        }
        _ => panic!("the stored passphrase was not used"),
    }
    match choose_auth(&with_key, Some("typed".into()), Some("kept".into()), None, &facts(true, true)) {
        Ok(Auth::Key { passphrase, .. }) => assert_eq!(passphrase.as_deref(), Some("typed")),
        _ => panic!("the typed passphrase did not come first"),
    }
    assert!(matches!(
        choose_auth(&with_key, None, None, None, &facts(true, false)),
        Ok(Auth::Key { passphrase: None, .. })
    ));
}

#[test]
fn what_was_typed_decides_without_asking_the_store() {
    let mut store = SecretStore::new("sshboard-test-suite");
    let mut d = Diagnostics::new();
    let with_key = entry("web", Some("/k"));
    match auth_for(&mut store, &mut d, &with_key, Some("typed".into()), &facts(true, true)) {
        Ok(Auth::Key { passphrase, .. }) => assert_eq!(passphrase.as_deref(), Some("typed")),
        _ => panic!("the typed passphrase was not used"),
    }
    assert!(matches!(
        auth_for(&mut store, &mut d, &entry("web", None), None, &facts(true, false)),
        Ok(Auth::Agent)
    ));
    assert!(d.is_empty(), "nothing stopped, yet something was written down");
    assert!(matches!(
        auth_for(&mut store, &mut d, &with_key, None, &facts(false, false)),
        Err(EngineError::UnusableKey { .. })
    ));
    let refused = &d.recent(1)[0];
    assert_eq!(refused.level, Level::Error);
    assert_eq!(refused.stage, Stage::Auth);
    assert_eq!(refused.message, "鍵のファイルを認証に使えません（OpenSSH と読めました）");
    assert!(!refused.render().contains("/k"), "the path went into the record");
}

#[test]
fn stopping_for_a_passphrase_is_written_down() {
    let mut store = SecretStore::new("sshboard-test-suite");
    let mut d = Diagnostics::new();
    let with_key = entry("pending", Some("/k"));
    assert!(matches!(
        auth_for(&mut store, &mut d, &with_key, None, &facts(true, true)),
        Err(EngineError::PassphraseNeeded { .. })
    ));
    let stopped = d.recent(50).into_iter().find(|e| e.level == Level::Error).expect("nothing written down");
    assert_eq!(stopped.stage, Stage::Auth);
    assert_eq!(stopped.connection.as_deref(), Some("pending"));
    assert!(stopped.hint.is_some());
    let written = stopped.render();
    assert!(!written.contains("example.invalid") && !written.contains("deploy"), "{written}");
}

#[test]
fn an_existing_local_file_is_refused_unless_overwriting_was_chosen() {
    match check_destination("/tmp/a.txt", true, Some("/tmp"), true, OnConflict::Refuse) {
        Err(EngineError::Local(detail)) => {
            assert_eq!(detail, "/tmp/a.txt は既に在ります。上書きしてよいかは人が決めてください")
        }
        other => panic!("actual: {other:?}"),
    }
    assert!(check_destination("/tmp/a.txt", true, Some("/tmp"), true, OnConflict::Overwrite).is_ok());
    assert!(check_destination("/tmp/a.txt", false, Some("/tmp"), true, OnConflict::default()).is_ok());
}

#[test]
fn a_destination_whose_directory_is_missing_is_a_local_problem() {
    match check_destination("/nope/a.txt", false, Some("/nope"), false, OnConflict::Refuse) {
        Err(EngineError::Local(detail)) => assert_eq!(detail, "/nope というディレクトリがありません"),
        other => panic!("actual: {other:?}"),
    }
    assert!(check_destination("a.txt", false, Some(""), false, OnConflict::Refuse).is_ok());
    assert!(check_destination("a.txt", false, None, false, OnConflict::Refuse).is_ok());
}

#[test]
fn an_unknown_connection_is_named_in_the_refusal() {
    let list = Connections { version: 1, connections: vec![entry("web", None)] };
    assert_eq!(entry_for(&list, "web").map(|e| e.id).ok().as_deref(), Some("web"));
    match entry_for(&list, "db") {
        Err(error) => assert_eq!(error.message(), "db という接続は登録されていません"),
        Ok(_) => panic!("an unknown connection was found"),
    }
}

#[test]
fn a_missing_service_name_is_refused_before_anything_reaches_a_server() {
    let missing = service_status("  ").unwrap_err();
    match bad_argument(&missing) {
        EngineError::BadArgument(detail) => assert_eq!(detail, "サービス名を指定してください"),
        other => panic!("actual: {other:?}"),
    }
}

#[test]
fn refusals_name_who_holds_the_console_and_never_a_destination() {
    assert_eq!(who(Actor::Human), "人");
    assert_eq!(who(Actor::Ai), "AI");
    assert_eq!(
        held_by(Actor::Ai).message(),
        "端末はAIが握っています。**同時に触れるのは 1 人です**（D29）。人は画面の［取り返す］でいつでも取り返せます"
    );
    assert_eq!(
        EngineError::NotConnected.message(),
        "まだサーバーに繋がっていません。sshboard の画面で接続を開いてください"
    );
    let untrusted = EngineError::UntrustedHost {
        id: "web".into(),
        algorithm: "ssh-ed25519".into(),
        fingerprint: "SHA256:seen".into(),
        expected: Some("SHA256:kept".into()),
    };
    assert_eq!(untrusted.message(), "ホスト鍵が登録と違います（ssh-ed25519 / 見えたもの SHA256:seen・登録 SHA256:kept）");
    assert_eq!(
        EngineError::AlreadyConnected { id: "web".into(), name: "Web".into() }.message(),
        "すでに Web（web）へ繋がっています。先に切ってから繋ぎ直してください（同時に 2 本は張りません）"
    );
}
