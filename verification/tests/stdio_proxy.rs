//! The stdio relay: its flag, the JSON-RPC ids it answers with, and the
//! Server-Sent Events it reads.

use sshboard::proxy::{error_response, parse_sse, reply_status, request_id, requested, FLAG, NOT_RUNNING};

#[test]
fn the_flag_is_matched_exactly_and_not_by_prefix() {
    assert!(requested(&[FLAG]));
    assert!(requested(&["sshboard", FLAG]));
    assert!(!requested(&["sshboard"]));
    assert!(!requested(&["--mcp-stdio-proxy-foo"]));
    assert!(!requested(&["--mcp-stdio"]));
}

#[test]
fn the_id_comes_back_out_of_a_request() {
    assert_eq!(
        request_id(r#"{"jsonrpc":"2.0","id":7,"method":"tools/list"}"#),
        Some(serde_json::Value::from(7).to_string())
    );
    assert_eq!(
        request_id(r#"{"jsonrpc":"2.0","id":"a","method":"x"}"#),
        Some(serde_json::Value::from("a").to_string())
    );
}

#[test]
fn a_notification_has_no_id_and_gets_no_reply() {
    assert_eq!(request_id(r#"{"jsonrpc":"2.0","method":"notify"}"#), None);
    assert_eq!(request_id(r#"{"jsonrpc":"2.0","id":null,"method":"x"}"#), None);
    assert!(error_response(None, "だめ").is_none());
}

#[test]
fn a_line_that_is_not_json_is_refused_rather_than_crashing() {
    assert_eq!(request_id("これは JSON ではない"), None);
    assert_eq!(request_id(""), None);
}

#[test]
fn an_error_reply_carries_the_same_id_and_a_readable_message() {
    let body = error_response(Some(serde_json::Value::from(3).to_string()), NOT_RUNNING).expect("no reply");
    let parsed: serde_json::Value = serde_json::from_str(&body).expect("unreadable");

    assert_eq!(parsed["id"], serde_json::Value::from(3));
    assert_eq!(parsed["jsonrpc"], "2.0");
    assert_eq!(parsed["error"]["message"], NOT_RUNNING);
    assert_eq!(parsed["error"]["code"], serde_json::Value::from(-32000));
    assert!(!body.contains("Bearer"));
}

#[test]
fn one_sse_event_yields_one_message() {
    let body = "event: message\ndata: {\"jsonrpc\":\"2.0\",\"id\":1}\n\n";

    assert_eq!(parse_sse(body), vec![r#"{"jsonrpc":"2.0","id":1}"#]);
}

#[test]
fn several_events_come_back_in_order() {
    let body = "data: {\"id\":1}\n\ndata: {\"id\":2}\n\n";

    assert_eq!(parse_sse(body), vec![r#"{"id":1}"#, r#"{"id":2}"#]);
}

#[test]
fn a_data_field_split_over_lines_is_joined_with_newlines() {
    let body = "data: {\ndata: \"id\": 1\ndata: }\n\n";
    assert_eq!(parse_sse(body), vec!["{\n\"id\": 1\n}"]);
}

#[test]
fn carriage_returns_and_other_fields_do_not_reach_the_output() {
    let body = ": ping\r\nevent: message\r\nid: 9\r\ndata: {\"id\":1}\r\n\r\n";

    assert_eq!(parse_sse(body), vec![r#"{"id":1}"#]);
}

#[test]
fn a_last_event_without_a_trailing_blank_line_is_still_returned() {
    assert_eq!(parse_sse("data: {\"id\":1}"), vec![r#"{"id":1}"#]);
}

#[test]
fn the_servers_opening_retry_frame_is_not_passed_through() {
    let body = "data: \nid: 0\nretry: 3000\n\ndata: {\"id\":1}\n\n";

    assert_eq!(parse_sse(body), vec![r#"{"id":1}"#]);
}

#[test]
fn an_empty_body_yields_nothing() {
    assert!(parse_sse("").is_empty());
    assert!(parse_sse("\n\n").is_empty());
}

#[test]
fn a_data_field_without_a_space_keeps_all_it_carries() {
    assert_eq!(parse_sse("data:x\n\ndata:  y\n\n"), vec!["x", " y"]);
}

#[test]
fn the_relay_posts_to_loopback_with_the_token_as_a_bearer() {
    assert_eq!(sshboard::proxy::relay_url(22022), "http://127.0.0.1:22022/mcp");
    assert_eq!(sshboard::proxy::relay_url(0), "http://127.0.0.1:0/mcp");
    assert_eq!(sshboard::proxy::bearer("abc"), "Bearer abc");
}

#[test]
fn an_event_stream_is_told_by_its_content_type() {
    assert!(sshboard::proxy::is_event_stream(Some("text/event-stream; charset=utf-8")));
    assert!(!sshboard::proxy::is_event_stream(Some("application/json")));
    assert!(!sshboard::proxy::is_event_stream(None));
}

#[test]
fn an_empty_reply_writes_nothing_and_a_plain_one_is_written_trimmed() {
    assert!(sshboard::proxy::reply_messages(false, "  \n").is_empty());
    assert!(sshboard::proxy::reply_messages(true, "").is_empty());
    assert_eq!(sshboard::proxy::reply_messages(false, " {\"id\":1}\n"), vec!["{\"id\":1}"]);
    assert_eq!(sshboard::proxy::reply_messages(true, "data: {\"id\":2}\n\n"), vec!["{\"id\":2}"]);
}

#[test]
fn a_blank_request_line_is_skipped() {
    assert_eq!(sshboard::proxy::request_line("   "), None);
    assert_eq!(sshboard::proxy::request_line(" {} \r"), Some("{}".to_string()));
}

#[test]
fn the_error_reply_is_one_json_object_in_a_fixed_shape() {
    assert_eq!(
        error_response(Some("7".to_string()), "a \"quoted\" word").as_deref(),
        Some(r#"{"error":{"code":-32000,"message":"a \"quoted\" word"},"id":7,"jsonrpc":"2.0"}"#)
    );
    assert_eq!(
        error_response(request_id(r#"{"id":"x-1"}"#), "no").as_deref(),
        Some(r#"{"error":{"code":-32000,"message":"no"},"id":"x-1","jsonrpc":"2.0"}"#)
    );
}

#[test]
fn a_refused_token_keeps_the_session_and_any_other_reply_takes_the_offered_one() {
    let mut session = Some("old".to_string());
    assert!(reply_status(401, Some("new".to_string()), &mut session));
    assert_eq!(session.as_deref(), Some("old"));
    assert!(!reply_status(200, None, &mut session));
    assert_eq!(session.as_deref(), Some("old"));
    assert!(!reply_status(200, Some("new".to_string()), &mut session));
    assert_eq!(session.as_deref(), Some("new"));
}

#[test]
fn control_characters_in_the_message_are_escaped_as_json_requires() {
    assert_eq!(
        error_response(Some("1".to_string()), "a\u{1}b\n\\").as_deref(),
        Some(r#"{"error":{"code":-32000,"message":"a\u0001b\n\\"},"id":1,"jsonrpc":"2.0"}"#)
    );
}
