//! The commands the purpose-built tools run. No server is used: only the
//! text is checked, since a wrongly built one turns an argument into a command.

use sshboard::probes::{
    clamp_hits, disk_usage, network_listen, process_list, quote, read_log, runtime_versions,
    search_content, search_names, service_status, MAX_LOG_LINES, MAX_SEARCH_HITS,
};

#[test]
fn disk_usage_asks_df_in_a_shape_a_person_can_read() {
    let command = disk_usage();

    assert!(command.starts_with("df "), "actual: {command}");
    assert!(command.contains("-h"), "actual: {command}");
    assert!(command.contains("-P"), "actual: {command}");
}

#[test]
fn process_list_asks_for_every_process_not_just_mine() {
    let command = process_list();

    assert!(command.starts_with("ps "), "actual: {command}");
    assert!(command.contains('a') && command.contains('x'), "actual: {command}");
}

#[test]
fn network_listen_falls_back_when_ss_is_not_there() {
    let command = network_listen();

    assert!(command.contains("ss "), "actual: {command}");
    assert!(command.contains("netstat"), "actual: {command}");
    assert!(command.contains("||"), "nothing to fall back to: {command}");
}

#[test]
fn service_status_quotes_the_name_so_it_cannot_become_a_command() {
    let command = service_status("nginx; rm -rf /").expect("has a name");

    assert!(command.contains("'nginx; rm -rf /'"), "not quoted: {command}");
    let outside = command.replace("'nginx; rm -rf /'", "");
    assert!(!outside.contains(';'), "a separator outside the quotes: {command}");
}

#[test]
fn service_status_never_waits_for_a_pager() {
    let command = service_status("nginx").expect("has a name");

    assert!(command.contains("--no-pager"), "actual: {command}");
}

#[test]
fn service_status_keeps_a_leading_dash_from_looking_like_an_option() {
    let command = service_status("-h").expect("has a name");

    let before = command.split("'-h'").next().expect("before the quotes");
    assert!(before.contains("--"), "no end of options: {command}");
}

#[test]
fn service_status_refuses_an_empty_name() {
    assert!(service_status("").is_err());
    assert!(service_status("   ").is_err());
}

#[test]
fn read_log_quotes_the_path_and_counts_the_lines() {
    let command = read_log("/var/log/messages", 200).expect("has a path");

    assert!(command.starts_with("tail "), "actual: {command}");
    assert!(command.contains("-n 200"), "actual: {command}");
    assert!(command.contains("'/var/log/messages'"), "actual: {command}");
}

#[test]
fn read_log_quotes_a_path_that_tries_to_be_a_command() {
    let command = read_log("/var/log/x; rm -rf /", 10).expect("has a path");

    assert!(command.contains("'/var/log/x; rm -rf /'"), "actual: {command}");
    let outside = command.replace("'/var/log/x; rm -rf /'", "");
    assert!(!outside.contains(';'), "a separator outside the quotes: {command}");
}

#[test]
fn read_log_refuses_an_empty_path() {
    assert!(read_log("", 10).is_err());
}

#[test]
fn read_log_holds_the_line_count_inside_something_sane() {
    let none = read_log("/var/log/messages", 0).expect("has a path");
    let huge = read_log("/var/log/messages", 10_000_000).expect("has a path");

    assert!(none.contains("-n 1"), "actual: {none}");
    assert!(huge.contains(&format!("-n {}", MAX_LOG_LINES)), "actual: {huge}");
}

#[test]
fn no_probe_carries_a_word_that_changes_the_server() {
    let all = vec![
        disk_usage(),
        process_list(),
        network_listen(),
        service_status("nginx").expect("has a name"),
        read_log("/var/log/messages", 10).expect("has a path"),
    ];

    for command in all {
        for forbidden in ["rm ", "mv ", "chmod", "chown", "kill", "restart", "> ", ">>"] {
            assert!(!command.contains(forbidden), "`{forbidden}` in: {command}");
        }
    }
}

#[test]
fn a_quote_inside_a_name_cannot_end_the_quoting() {
    assert_eq!(quote("it's"), "'it'\\''s'");
    assert_eq!(quote(""), "''");
    assert_eq!(
        service_status("a'b").expect("has a name"),
        "systemctl --no-pager --full status -- 'a'\\''b'"
    );
}

#[test]
fn searches_are_bounded_in_depth_and_in_hits() {
    assert_eq!(clamp_hits(0), 1);
    assert_eq!(clamp_hits(5), 5);
    assert_eq!(clamp_hits(u32::MAX), MAX_SEARCH_HITS);
    let names = search_names("/srv", "*.log", 50).expect("complete");
    assert!(names.starts_with("find '/srv' -maxdepth "), "actual: {names}");
    assert!(names.ends_with("| head -n 50"), "actual: {names}");
    let content = search_content("/srv", "needle", 0).expect("complete");
    assert!(content.starts_with("grep -r -n -I -- 'needle' '/srv'"), "actual: {content}");
    assert!(content.ends_with("| head -n 1"), "actual: {content}");
}

#[test]
fn a_search_without_a_place_or_a_word_is_refused_naming_what_is_missing() {
    assert_eq!(search_names(" ", "x", 1).unwrap_err().message(), "探す場所を指定してください");
    assert_eq!(search_names("/", "", 1).unwrap_err().message(), "探す名前を指定してください");
    assert_eq!(search_content("/", " ", 1).unwrap_err().message(), "探す語を指定してください");
    assert_eq!(service_status("").unwrap_err().message(), "サービス名を指定してください");
}

#[test]
fn asking_for_runtimes_is_one_line_that_never_fails_on_a_missing_one() {
    let command = runtime_versions();
    assert!(command.contains("python3"), "actual: {command}");
    assert!(!command.contains('\n'), "actual: {command}");
}
