//! Names that may land in a local directory, remote paths, and who holds
//! the console as the screen says it.

use sshboard::band::Actor;
use sshboard::desktop::{holder_name, join_remote, safe_local_name};

#[test]
fn joining_a_directory_and_a_name_never_doubles_the_separator() {
    assert_eq!(join_remote("/srv/app", "a.tar.gz"), "/srv/app/a.tar.gz");
    assert_eq!(join_remote("/srv/app/", "a.tar.gz"), "/srv/app/a.tar.gz");
    assert_eq!(join_remote("/", "a.tar.gz"), "/a.tar.gz");
}

#[test]
fn an_ordinary_file_name_is_accepted() {
    assert_eq!(safe_local_name("app.tar.gz"), Ok("app.tar.gz"));
    assert_eq!(safe_local_name("日本語 の 名前.txt"), Ok("日本語 の 名前.txt"));
}

#[test]
fn a_name_that_climbs_out_of_the_chosen_directory_is_refused() {
    for hostile in [
        "../secret",
        "../../.ssh/authorized_keys",
        "sub/dir.txt",
        "sub\\dir.txt",
        "/etc/passwd",
        "C:\\Windows\\x.dll",
        "..",
        ".",
        "",
        "   ",
    ] {
        assert!(safe_local_name(hostile).is_err(), "{hostile} let through as a local name");
    }
}

#[test]
fn a_refused_name_is_named_in_the_refusal() {
    assert_eq!(safe_local_name("../x"), Err("手元へ落とせない名前です: ../x".to_string()));
    assert!(safe_local_name("a\0b").is_err());
}

#[test]
fn several_trailing_separators_are_all_dropped() {
    assert_eq!(join_remote("/srv//", "x"), "/srv/x");
    assert_eq!(join_remote("", "x"), "/x");
}

#[test]
fn the_screen_names_who_holds_the_console() {
    assert_eq!(holder_name(Some(Actor::Human)), Some("human"));
    assert_eq!(holder_name(Some(Actor::Ai)), Some("ai"));
    assert_eq!(holder_name(None), None);
}
