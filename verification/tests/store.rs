//! The connection list: what it holds, what it refuses, and what the agent
//! is given of it (never the host, the user, the port or the key).

use sshboard::connections::{
    default_port, is_connection_color, is_connection_tag, ConnectionEntry, Connections,
    ConnectionsError, CURRENT_VERSION,
};

fn entry(id: &str, name: &str, host: &str, user: &str) -> ConnectionEntry {
    ConnectionEntry {
        id: id.into(),
        name: name.into(),
        host: host.into(),
        port: default_port(),
        user: user.into(),
        key_path: None,
        keyring_passphrase_ref: None,
        keyring_password_ref: None,
        fingerprint: None,
        known_hosts: None,
        color: None,
        tag: None,
        write_roots: vec![],
    }
}

/// The two connections of the sample file.
fn sample() -> Connections {
    let mut web = entry("web-prod", "Web (prod)", "example.invalid", "deploy");
    web.port = 2222;
    web.key_path = Some("~/.ssh/id_ed25519".into());
    web.keyring_passphrase_ref = Some("sshboard.web-prod.passphrase".into());
    web.fingerprint = Some("SHA256:aaaa".into());
    let mail = entry("mail", "Mail", "mail.example.invalid", "ops");
    Connections { version: 1, connections: vec![web, mail] }
}

/// The marked connection of the sample file.
fn marked() -> Connections {
    let mut prod = entry("prod", "本番", "secret-host.invalid", "secret-user");
    prod.color = Some("red".into());
    prod.tag = Some("本番".into());
    Connections { version: 1, connections: vec![prod] }
}

#[test]
fn a_registered_connection_is_read_back_with_every_field() {
    let connections = sample();
    assert_eq!(connections.validate(), Ok(()));

    assert_eq!(connections.connections.len(), 2);
    let entry = connections.get("web-prod").expect("no web-prod");
    assert_eq!(entry.port, 2222);
    assert_eq!(entry.user, "deploy");
    assert_eq!(entry.keyring_passphrase_ref.as_deref(), Some("sshboard.web-prod.passphrase"));
}

#[test]
fn the_port_defaults_to_twenty_two_when_it_is_left_out() {
    let connections = sample();

    assert_eq!(connections.get("mail").expect("no mail").port, 22);
    assert_eq!(default_port(), 22);
}

#[test]
fn what_the_ai_sees_carries_no_host_and_no_user() {
    let connections = sample();

    let summaries = connections.summaries();
    let rendered = format!("{summaries:?}");

    assert_eq!(summaries.len(), 2);
    assert_eq!(summaries[0].id, "web-prod");
    assert_eq!(summaries[0].name, "Web (prod)");
    assert!(!rendered.contains("example.invalid"), "host leaked: {rendered}");
    assert!(!rendered.contains("deploy"), "user leaked: {rendered}");
    assert!(!rendered.contains("id_ed25519"), "key path leaked: {rendered}");
    assert!(!rendered.contains("2222"), "port leaked: {rendered}");
}

#[test]
fn two_connections_with_the_same_id_are_rejected_instead_of_one_being_dropped() {
    let input = Connections {
        version: 1,
        connections: vec![entry("same", "One", "a.invalid", "u"), entry("same", "Two", "b.invalid", "u")],
    };

    assert_eq!(input.validate(), Err(ConnectionsError::DuplicateId { id: "same".to_owned() }));
}

#[test]
fn an_unknown_version_stops_instead_of_being_read_as_if_it_were_current() {
    let input = Connections { version: 99, connections: vec![] };

    assert_eq!(input.validate(), Err(ConnectionsError::UnknownVersion { found: 99 }));
}

#[test]
fn an_empty_id_is_rejected() {
    let input = Connections { version: 1, connections: vec![entry("", "No id", "a.invalid", "u")] };

    assert_eq!(input.validate(), Err(ConnectionsError::EmptyId));
}

#[test]
fn a_mark_is_read_back() {
    let connections = marked();
    assert_eq!(connections.validate(), Ok(()));

    let entry = connections.get("prod").expect("no prod");
    assert_eq!(entry.color.as_deref(), Some("red"));
    assert_eq!(entry.tag.as_deref(), Some("本番"));
}

#[test]
fn a_colour_outside_the_palette_is_rejected() {
    let mut input = marked();
    input.connections[0].color = Some("#1a73e8".into());

    let result = input.validate();

    assert!(matches!(result, Err(ConnectionsError::UnknownColor { .. })), "actual: {result:?}");
}

#[test]
fn a_tag_is_measured_in_characters_not_bytes() {
    let just_fits = "本番環境検証開発予備一二";
    let one_too_many = "本番環境検証開発予備一二三";
    assert_eq!(just_fits.chars().count(), 12);
    assert_eq!(one_too_many.chars().count(), 13);
    assert!(just_fits.len() > 12);

    let mut ok = marked();
    ok.connections[0].tag = Some(just_fits.into());
    let mut too_long = marked();
    too_long.connections[0].tag = Some(one_too_many.into());

    assert!(ok.validate().is_ok(), "12 characters refused");
    assert!(
        matches!(too_long.validate(), Err(ConnectionsError::TagTooLong { .. })),
        "13 characters let through"
    );
}

#[test]
fn the_palette_and_the_tag_limit_are_checked_on_their_own() {
    assert!(is_connection_color("red"));
    assert!(is_connection_color("gray"));
    assert!(!is_connection_color("Red"));
    assert!(!is_connection_color(""));
    assert!(is_connection_tag(""));
    assert!(!is_connection_tag("1234567890123"));
}

#[test]
fn the_first_problem_in_list_order_is_the_one_reported() {
    let mut bad_colour = entry("a", "A", "a.invalid", "u");
    bad_colour.color = Some("teal".into());
    let input = Connections {
        version: 1,
        connections: vec![bad_colour, entry("", "B", "b.invalid", "u")],
    };
    assert_eq!(
        input.validate(),
        Err(ConnectionsError::UnknownColor { id: "a".into(), color: "teal".into() })
    );
}

#[test]
fn a_too_long_tag_is_reported_with_its_length() {
    let mut long = entry("t", "T", "t.invalid", "u");
    long.tag = Some("abcdefghijklm".into());
    let input = Connections { version: 1, connections: vec![long] };
    assert_eq!(input.validate(), Err(ConnectionsError::TagTooLong { id: "t".into(), chars: 13 }));
}

#[test]
fn the_summary_carries_the_tag_and_the_write_roots() {
    let mut app = entry("app", "App", "secret.example.invalid", "deployuser");
    app.tag = Some("本番".into());
    app.color = Some("red".into());
    app.write_roots = vec!["/srv/app/releases".into()];
    let summary = app.summary();
    assert_eq!(summary.id, "app");
    assert_eq!(summary.name, "App");
    assert_eq!(summary.tag.as_deref(), Some("本番"));
    assert_eq!(summary.write_roots, vec!["/srv/app/releases".to_string()]);
    let rendered = format!("{summary:?}");
    assert!(!rendered.contains("secret.example.invalid"));
    assert!(!rendered.contains("deployuser"));
    assert!(!rendered.contains("red"));
}

#[test]
fn an_empty_list_is_at_the_current_version() {
    let empty = Connections::empty();
    assert_eq!(empty.version, CURRENT_VERSION);
    assert!(empty.connections.is_empty());
    assert_eq!(empty.validate(), Ok(()));
}

#[test]
fn the_credential_names_of_a_connection_are_listed_passphrase_first() {
    let mut both = entry("a", "A", "a.invalid", "u");
    both.keyring_passphrase_ref = Some("a-key".into());
    both.keyring_password_ref = Some("a-login".into());
    assert_eq!(both.keyring_refs(), vec!["a-key", "a-login"]);
    assert!(entry("b", "B", "b.invalid", "u").keyring_refs().is_empty());
}

#[test]
fn saving_replaces_the_same_identifier_or_adds_at_the_end() {
    let list = sample();
    let mut changed = entry("mail", "Mail 2", "mail2.invalid", "ops");
    changed.port = 2200;
    let (replaced, existed) = list.with_saved(&changed);
    assert!(existed);
    assert_eq!(replaced.connections.len(), 2);
    assert_eq!(replaced.get("mail").unwrap().name, "Mail 2");
    assert_eq!(replaced.connections[0].id, "web-prod");

    let (added, existed) = list.with_saved(&entry("db", "DB", "db.invalid", "u"));
    assert!(!existed);
    assert_eq!(added.connections.len(), 3);
    assert_eq!(added.connections[2].id, "db");
    assert!(added.contains("db"));
}

#[test]
fn removing_takes_away_only_that_identifier() {
    let list = sample();
    let removed = list.without("web-prod");
    assert_eq!(removed.connections.len(), 1);
    assert!(!removed.contains("web-prod"));
    assert!(removed.contains("mail"));
    assert_eq!(list.without("nothing").connections.len(), 2);
}

#[test]
fn a_password_reference_is_set_and_cleared_only_on_a_known_connection() {
    let list = sample();
    let set = list.with_password_ref("mail", Some("password:mail".into())).expect("refused");
    assert!(set.has_password("mail"));
    assert!(!set.has_password("web-prod"));
    let cleared = set.with_password_ref("mail", None).expect("refused");
    assert!(!cleared.has_password("mail"));
    assert_eq!(
        list.with_password_ref("nope", None),
        Err("そんな接続はありません: nope".to_string())
    );
}
