//! Request-body adapter: turn extraction, analysis and injection.

use thrashguard::anthropic::{
    analyze, classify_text, classify_tool_use, extract_turns, inject, signature_of, stronger,
    strongest_observation,
};
use thrashguard::{Json, Observation, ObservationKind, ThrashPolicy};

fn s(v: &str) -> Json {
    Json::Str(v.to_string())
}

fn obj(members: Vec<(&str, Json)>) -> Json {
    Json::Object(members.into_iter().map(|(k, v)| (k.to_string(), v)).collect())
}

fn req(messages: Vec<Json>) -> Json {
    obj(vec![("model", s("model-x")), ("messages", Json::Array(messages))])
}

fn edit_msg(path: &str, content: &str) -> Json {
    obj(vec![
        ("role", s("assistant")),
        (
            "content",
            Json::Array(vec![obj(vec![
                ("type", s("tool_use")),
                ("id", s("t1")),
                ("name", s("str_replace_based_edit_tool")),
                (
                    "input",
                    obj(vec![("command", s("create")), ("path", s(path)), ("file_text", s(content))]),
                ),
            ])]),
        ),
    ])
}

fn test_result(text: &str, is_error: bool) -> Json {
    obj(vec![
        ("role", s("user")),
        (
            "content",
            Json::Array(vec![obj(vec![
                ("type", s("tool_result")),
                ("tool_use_id", s("t2")),
                ("content", s(text)),
                ("is_error", Json::Bool(is_error)),
            ])]),
        ),
    ])
}

#[test]
fn extracts_edit_and_error_as_one_turn() {
    let body = req(vec![
        edit_msg("auth.ts", "return s.token"),
        obj(vec![
            ("role", s("assistant")),
            (
                "content",
                Json::Array(vec![obj(vec![
                    ("type", s("tool_use")),
                    ("id", s("t2")),
                    ("name", s("bash")),
                    ("input", obj(vec![("command_line", s("npm test"))])),
                ])]),
            ),
        ]),
        test_result("FAIL TypeError: cannot read 'token' of undefined", true),
    ]);
    let turns = extract_turns(&body);
    assert_eq!(turns.len(), 1);
    assert_eq!(turns[0].edits.len(), 1);
    assert_eq!(turns[0].edits[0].path, "auth.ts");
    assert_eq!(turns[0].observation.kind, ObservationKind::Error);
}

#[test]
fn end_to_end_trip_and_inject() {
    let a = "return s.token";
    let b = "return s && s.token";
    let err = "FAIL TypeError: cannot read 'token' of undefined";
    let mut messages = Vec::new();
    for c in [a, b, a, b, a] {
        messages.push(edit_msg("auth.ts", c));
        messages.push(test_result(err, true));
    }
    let body = req(messages);

    let interv = analyze(&body, ThrashPolicy::default()).expect("should trip");
    assert_eq!(interv.thrashed_file, "auth.ts");

    let injected = inject(body, &interv);
    let msgs = injected.get("messages").unwrap().as_array().unwrap();
    let last = msgs.last().unwrap();
    assert_eq!(last.get("role").unwrap().as_str().unwrap(), "system");
    assert!(last.get("content").unwrap().as_str().unwrap().contains("auth.ts"));
}

#[test]
fn healthy_session_does_not_inject() {
    let body = req(vec![
        edit_msg("config.ts", "v1"),
        test_result("FAIL E1", true),
        edit_msg("config.ts", "v2 improved"),
        test_result("All tests passed", false),
    ]);
    assert!(analyze(&body, ThrashPolicy::default()).is_none());
}

#[test]
fn neutral_results_keep_the_turn_open() {
    let body = req(vec![
        edit_msg("a.ts", "x = 1"),
        test_result("File created successfully at: a.ts", false),
        test_result("some informational output", false),
        edit_msg("b.ts", "y = 2"),
        test_result("Error: boom", false),
    ]);
    let turns = extract_turns(&body);
    // The first result reads as a success ("success"), so it closes a turn;
    // the informational one does not; the error closes the second.
    assert_eq!(turns.len(), 2);
    assert_eq!(turns[0].observation.kind, ObservationKind::Success);
    assert_eq!(turns[1].edits.len(), 1);
    assert_eq!(turns[1].edits[0].path, "b.ts");
    assert_eq!(turns[1].observation.signature, "Error: boom");
}

#[test]
fn informational_output_does_not_close_a_turn() {
    let body = req(vec![
        edit_msg("a.ts", "x = 1"),
        test_result("wrote 12 bytes", false),
        test_result("1 test failed", false),
    ]);
    let turns = extract_turns(&body);
    assert_eq!(turns.len(), 1);
    assert_eq!(turns[0].edits.len(), 1);
    assert_eq!(turns[0].observation.kind, ObservationKind::Error);
}

#[test]
fn reads_come_from_view_tools() {
    let body = req(vec![
        obj(vec![
            ("role", s("assistant")),
            (
                "content",
                Json::Array(vec![
                    obj(vec![
                        ("type", s("tool_use")),
                        ("name", s("Read")),
                        ("input", obj(vec![("file_path", s("session.ts"))])),
                    ]),
                    obj(vec![
                        ("type", s("tool_use")),
                        ("name", s("Edit")),
                        (
                            "input",
                            obj(vec![("file_path", s("auth.ts")), ("new_string", s("return t"))]),
                        ),
                    ]),
                ]),
            ),
        ]),
        test_result("Traceback (most recent call last)", false),
    ]);
    let turns = extract_turns(&body);
    assert_eq!(turns.len(), 1);
    assert_eq!(turns[0].reads, vec!["session.ts".to_string()]);
    assert_eq!(turns[0].edits[0].path, "auth.ts");
    assert_eq!(turns[0].edits[0].content, "return t");
}

#[test]
fn body_without_messages_has_no_turns() {
    assert!(extract_turns(&obj(vec![("model", s("m"))])).is_empty());
    assert!(extract_turns(&Json::Null).is_empty());
    assert!(analyze(&Json::Null, ThrashPolicy::default()).is_none());
}

#[test]
fn inject_leaves_other_bodies_alone() {
    let mut det_messages = Vec::new();
    for c in ["a", "b", "a", "b", "a"] {
        det_messages.push(edit_msg("f.ts", c));
        det_messages.push(test_result("error: same", true));
    }
    let interv = analyze(&req(det_messages), ThrashPolicy::default()).expect("trips");
    let body = obj(vec![("messages", s("not an array"))]);
    let out = inject(body, &interv);
    assert_eq!(out.get("messages").unwrap().as_str().unwrap(), "not an array");
}

#[test]
fn classify_text_markers() {
    assert_eq!(classify_text("All tests PASSED").kind, ObservationKind::Success);
    assert_eq!(classify_text("thread panicked at main.rs").kind, ObservationKind::Error);
    assert_eq!(classify_text("listing files").kind, ObservationKind::Neutral);
    let o = classify_text("\n  running 3 tests\nassertion Error at line 4\n");
    assert_eq!(o.kind, ObservationKind::Error);
    assert_eq!(o.signature, "assertion Error at line 4");
}

#[test]
fn signature_prefers_error_lines_then_first_nonblank() {
    assert_eq!(signature_of("\n\n  hello  \nworld"), "hello");
    assert_eq!(signature_of("ok\nsomething FAILED here\n"), "something FAILED here");
    assert_eq!(signature_of(""), "");
    let long = "x".repeat(250);
    assert_eq!(signature_of(&long).chars().count(), 200);
}

#[test]
fn error_dominates_success_dominates_neutral() {
    let r = stronger(Observation::error("e"), Observation::success());
    assert_eq!(r.kind, ObservationKind::Error);
    let r = stronger(Observation::success(), Observation::neutral("n"));
    assert_eq!(r.kind, ObservationKind::Success);
    let r = stronger(Observation::error("first"), Observation::error("second"));
    assert_eq!(r.signature, "second");
    let blocks = vec![
        obj(vec![("type", s("tool_result")), ("content", s("all tests pass"))]),
        obj(vec![("type", s("tool_result")), ("content", s("fatal: oops")), ("is_error", Json::Bool(false))]),
        obj(vec![("type", s("text")), ("text", s("error"))]),
    ];
    let o = strongest_observation(&blocks).unwrap();
    assert_eq!(o.kind, ObservationKind::Error);
    assert_eq!(o.signature, "fatal: oops");
}

#[test]
fn tool_result_text_joins_text_blocks() {
    let blocks = vec![obj(vec![
        ("type", s("tool_result")),
        (
            "content",
            Json::Array(vec![
                obj(vec![("type", s("text")), ("text", s("line one"))]),
                obj(vec![("type", s("image"))]),
                obj(vec![("type", s("text")), ("text", s("Exception: two"))]),
            ]),
        ),
    ])];
    let o = strongest_observation(&blocks).unwrap();
    assert_eq!(o.kind, ObservationKind::Error);
    assert_eq!(o.signature, "Exception: two");
}

#[test]
fn text_editor_view_calls_are_reads() {
    let block = obj(vec![
        ("type", s("tool_use")),
        ("name", s("str_replace_based_edit_tool")),
        ("input", obj(vec![("command", s("view")), ("path", s("session.ts"))])),
    ]);
    let mut edits = Vec::new();
    let mut reads = Vec::new();
    classify_tool_use(&block, &mut edits, &mut reads);
    assert_eq!(reads, vec!["session.ts".to_string()]);
    assert!(edits.is_empty());

    // An editor call with another command is still an edit.
    let block = obj(vec![
        ("type", s("tool_use")),
        ("name", s("str_replace_based_edit_tool")),
        ("input", obj(vec![("command", s("str_replace")), ("path", s("a.ts")), ("new_str", s("x"))])),
    ]);
    classify_tool_use(&block, &mut edits, &mut reads);
    assert_eq!(edits.len(), 1);
    assert_eq!(edits[0].path, "a.ts");
    assert_eq!(edits[0].content, "x");
    assert_eq!(reads.len(), 1);
}

#[test]
fn viewed_file_becomes_the_suggestion() {
    let view = obj(vec![
        ("role", s("assistant")),
        (
            "content",
            Json::Array(vec![obj(vec![
                ("type", s("tool_use")),
                ("name", s("str_replace_based_edit_tool")),
                ("input", obj(vec![("command", s("view")), ("path", s("session.ts"))])),
            ])]),
        ),
    ]);
    let mut messages = vec![view];
    for c in ["a", "b", "a", "b", "a"] {
        messages.push(edit_msg("auth.ts", c));
        messages.push(test_result("error: same", true));
    }
    let interv = analyze(&req(messages), ThrashPolicy::default()).expect("trips");
    assert_eq!(interv.suggested_file.as_deref(), Some("session.ts"));
}
