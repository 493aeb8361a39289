//! The proxy's decisions: forwarded headers, upstream URLs, settings, and
//! which bodies get the note.

use thrashguard::proxy::{
    forward_headers, intercept, parse_u32, u32_or, upstream_url, Header, MID_CONVERSATION_BETA,
};
use thrashguard::{Json, ThrashPolicy};

fn h(name: &str, value: &str) -> Header {
    Header { name: name.to_string(), value: value.as_bytes().to_vec() }
}

fn pairs(hs: &[Header]) -> Vec<(String, String)> {
    hs.iter()
        .map(|h| (h.name.clone(), String::from_utf8(h.value.clone()).unwrap()))
        .collect()
}

#[test]
fn hop_by_hop_headers_are_dropped() {
    let incoming = vec![
        h("Host", "localhost:8787"),
        h("content-length", "12"),
        h("Connection", "keep-alive"),
        h("accept-encoding", "gzip"),
        h("x-api-key", "SECRET-REDACTED"),
        h("anthropic-version", "2023-06-01"),
    ];
    let out = forward_headers(&incoming, false);
    assert_eq!(
        pairs(&out),
        vec![
            ("x-api-key".to_string(), "SECRET-REDACTED".to_string()),
            ("anthropic-version".to_string(), "2023-06-01".to_string()),
        ]
    );
}

#[test]
fn beta_tokens_are_merged_and_the_mid_conversation_token_added_once() {
    let incoming = vec![
        h("anthropic-beta", " a-1 ,b-2"),
        h("x-api-key", "k"),
        h("Anthropic-Beta", "c-3"),
    ];
    let out = forward_headers(&incoming, true);
    assert_eq!(
        pairs(&out),
        vec![
            ("x-api-key".to_string(), "k".to_string()),
            (
                "anthropic-beta".to_string(),
                format!("a-1, b-2, c-3, {MID_CONVERSATION_BETA}")
            ),
        ]
    );

    let incoming = vec![h("anthropic-beta", MID_CONVERSATION_BETA)];
    let out = forward_headers(&incoming, true);
    assert_eq!(
        pairs(&out),
        vec![("anthropic-beta".to_string(), MID_CONVERSATION_BETA.to_string())]
    );
}

#[test]
fn beta_header_only_when_there_is_a_token() {
    let out = forward_headers(&vec![h("x-api-key", "k")], false);
    assert_eq!(pairs(&out), vec![("x-api-key".to_string(), "k".to_string())]);
    let out = forward_headers(&vec![], true);
    assert_eq!(
        pairs(&out),
        vec![("anthropic-beta".to_string(), MID_CONVERSATION_BETA.to_string())]
    );
    let out = forward_headers(&vec![h("anthropic-beta", "x")], false);
    assert_eq!(pairs(&out), vec![("anthropic-beta".to_string(), "x".to_string())]);
}

#[test]
fn later_header_values_replace_earlier_ones() {
    let out = forward_headers(&vec![h("x-a", "1"), h("x-b", "2"), h("x-a", "3")], false);
    assert_eq!(
        pairs(&out),
        vec![("x-a".to_string(), "3".to_string()), ("x-b".to_string(), "2".to_string())]
    );
}

#[test]
fn non_text_beta_values_are_ignored() {
    let incoming = vec![Header { name: "anthropic-beta".to_string(), value: vec![0xff, b'a'] }];
    let out = forward_headers(&incoming, false);
    assert!(out.is_empty());
}

#[test]
fn upstream_url_joins_base_and_path() {
    assert_eq!(upstream_url("https://api.example.com", "/v1/messages"), "https://api.example.com/v1/messages");
    assert_eq!(upstream_url("https://api.example.com//", "/v1/models"), "https://api.example.com/v1/models");
    assert_eq!(upstream_url("", "/x"), "/x");
    assert_eq!(upstream_url("///", "/"), "/");
}

#[test]
fn parse_u32_agrees_with_std() {
    for s in [
        "0", "3", "+7", "4294967295", "4294967296", "99999999999", "", "+", "-1", "-0", " 1", "1 ",
        "1a", "007", "++1", "١",
    ] {
        assert_eq!(parse_u32(s), s.parse::<u32>().ok(), "input {s:?}");
    }
}

#[test]
fn settings_fall_back_to_their_defaults() {
    assert_eq!(u32_or(Some("5"), 3), 5);
    assert_eq!(u32_or(Some("five"), 3), 3);
    assert_eq!(u32_or(Some(""), 2), 2);
    assert_eq!(u32_or(None, 3), 3);
}

fn s(v: &str) -> Json {
    Json::Str(v.to_string())
}

fn obj(members: Vec<(&str, Json)>) -> Json {
    Json::Object(members.into_iter().map(|(k, v)| (k.to_string(), v)).collect())
}

fn loop_body(turns: usize) -> Json {
    let mut messages = Vec::new();
    for k in 0..turns {
        let content = if k % 2 == 0 { "return s.token" } else { "return s && s.token" };
        messages.push(obj(vec![
            ("role", s("assistant")),
            (
                "content",
                Json::Array(vec![obj(vec![
                    ("type", s("tool_use")),
                    ("name", s("str_replace_based_edit_tool")),
                    (
                        "input",
                        obj(vec![("command", s("create")), ("path", s("auth.ts")), ("file_text", s(content))]),
                    ),
                ])]),
            ),
        ]));
        messages.push(obj(vec![
            ("role", s("user")),
            (
                "content",
                Json::Array(vec![obj(vec![
                    ("type", s("tool_result")),
                    ("content", s("FAIL TypeError: cannot read 'token' of undefined")),
                    ("is_error", Json::Bool(true)),
                ])]),
            ),
        ]));
    }
    obj(vec![("model", s("m")), ("stream", Json::Bool(false)), ("messages", Json::Array(messages))])
}

#[test]
fn intercept_appends_the_note_on_a_trip() {
    let (body, interv) = intercept(loop_body(5), ThrashPolicy::default()).expect("trips");
    assert_eq!(interv.thrashed_file, "auth.ts");
    let msgs = body.get("messages").unwrap().as_array().unwrap();
    assert_eq!(msgs.len(), 11);
    let last = msgs.last().unwrap();
    assert_eq!(last.get("role").unwrap().as_str().unwrap(), "system");
    assert_eq!(last.get("content").unwrap().as_str().unwrap(), &interv.system_message);
    assert_eq!(body.get("model").unwrap().as_str().unwrap(), "m");
    assert_eq!(body.get("stream").unwrap().as_bool(), Some(false));
}

#[test]
fn intercept_leaves_quiet_bodies_alone() {
    assert!(intercept(loop_body(4), ThrashPolicy::default()).is_none());
    assert!(intercept(loop_body(0), ThrashPolicy::default()).is_none());
    assert!(intercept(Json::Array(vec![]), ThrashPolicy::default()).is_none());
}

#[test]
fn intercept_only_when_the_last_turn_trips() {
    // Turn 4 trips; turn 5 re-enters the other state for its third time and
    // trips on that key; turn 6 re-enters the first state again, which
    // already tripped, so it only warns.
    assert!(intercept(loop_body(6), ThrashPolicy::default()).is_some());
    assert!(intercept(loop_body(7), ThrashPolicy::default()).is_none());
}
