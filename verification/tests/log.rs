//! The record of what happened: bounded, readable in order, and every
//! failure carries the next step.

use sshboard::diag::{Diagnostics, Event, Level, Stage, DEFAULT_CAPACITY};

#[test]
fn the_newest_events_come_first_because_that_is_what_people_read() {
    let mut diag = Diagnostics::new();

    diag.info(Stage::Reach, Some("app"), "1 本目");
    diag.info(Stage::Reach, Some("app"), "2 本目");
    diag.info(Stage::Reach, Some("app"), "3 本目");

    let recent = diag.recent(2);
    assert_eq!(recent.len(), 2, "the limit was ignored");
    assert_eq!(recent[0].message, "3 本目", "not newest first");
    assert_eq!(recent[1].message, "2 本目");
}

#[test]
fn the_sequence_number_keeps_rising_even_after_old_events_are_dropped() {
    let mut diag = Diagnostics::with_capacity(3);
    for index in 0..10 {
        diag.info(Stage::Auth, None, &format!("{index}"));
    }

    let recent = diag.recent(3);
    assert_eq!(recent[0].seq, 9);
    assert_eq!(recent[2].seq, 7);
}

#[test]
fn old_events_are_dropped_but_the_count_is_not_hidden() {
    let mut diag = Diagnostics::with_capacity(2);

    diag.info(Stage::Reach, None, "a");
    diag.info(Stage::Reach, None, "b");
    assert_eq!(diag.dropped(), 0);

    diag.info(Stage::Reach, None, "c");
    assert_eq!(diag.len(), 2, "kept more than the limit");
    assert_eq!(diag.dropped(), 1, "did not count what it dropped");
}

#[test]
fn a_capacity_of_zero_still_keeps_one_event() {
    let mut diag = Diagnostics::with_capacity(0);
    diag.info(Stage::Auth, None, "残る");

    assert_eq!(diag.len(), 1);
}

#[test]
fn a_failure_always_carries_what_to_do_next() {
    let mut diag = Diagnostics::new();

    diag.error(
        Stage::Auth,
        Some("app"),
        "ssh-agent の鍵 1 本とも受け付けられませんでした",
        "ssh-add で対応する鍵を入れるか、接続に鍵のパスを設定してください",
    );

    let event = &diag.recent(1)[0];
    assert_eq!(event.level, Level::Error);
    assert!(event.hint.is_some(), "a failure without a next step");
}

#[test]
fn the_rendered_line_shows_the_stage_and_the_next_step() {
    let mut diag = Diagnostics::new();
    diag.error(Stage::HostKey, Some("app"), "初めて見るホストです", "指紋を確かめて登録してください");

    let line = diag.recent(1)[0].render();
    assert!(line.contains("失敗"), "no severity: {line}");
    assert!(line.contains("ホスト鍵"), "no stage: {line}");
    assert!(line.contains("[app]"), "no connection: {line}");
    assert!(line.contains("→"), "no next step: {line}");
}

#[test]
fn an_empty_record_says_so() {
    let diag = Diagnostics::new();
    assert!(diag.is_empty());
    assert_eq!(diag.len(), 0);
    assert_eq!(diag.dropped(), 0);
    assert!(diag.recent(5).is_empty());
    assert!(DEFAULT_CAPACITY > 0);
}

#[test]
fn asking_for_more_than_is_kept_gives_what_is_kept() {
    let mut diag = Diagnostics::with_capacity(4);
    diag.warn(Stage::Sftp, None, "x");
    diag.info(Stage::Exec, None, "y");
    let recent = diag.recent(10);
    assert_eq!(recent.len(), 2);
    assert_eq!(recent[0].message, "y");
    assert_eq!(recent[1].level, Level::Warn);
    assert_eq!(recent[1].seq, 0);
}

#[test]
fn seconds_are_written_with_three_decimals_and_aligned() {
    let event = Event {
        seq: 0,
        at_ms: 1234,
        level: Level::Info,
        stage: Stage::Reach,
        connection: None,
        message: "始め".into(),
        hint: None,
    };
    let line = event.render();
    assert!(line.starts_with("  1.234s "), "actual: {line:?}");
    assert!(line.ends_with(" 始め"), "actual: {line:?}");
}
