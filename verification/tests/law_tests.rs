//! The library's general properties, each checked on concrete values.

use thrashguard::anthropic::{analyze, analyze_turns, extract_turns, inject};
use thrashguard::fingerprint::is_similar;
use thrashguard::{
    fingerprint, levenshtein, FileEdit, Json, Observation, Severity, ThrashDetector, ThrashPolicy,
    Turn,
};

const A: &str = "function token(s) { return s.token; }";
const B: &str = "function token(s) { return s && s.token; }";
const ERR: &str = "TypeError: cannot read 'token' of undefined";

#[test]
fn doc_example_oscillation_trips() {
    let mut det = ThrashDetector::with_default_policy();
    let a = "function token(s){ return s.token }";
    let b = "function token(s){ if (!s) return null; return s.token }";
    let err = "TypeError: cannot read 'token' of undefined";
    let mut last = None;
    for content in [a, b, a, b, a] {
        last = Some(det.ingest(&Turn::edit_then_error("auth.ts", content, err)));
    }
    let verdict = last.unwrap();
    assert_eq!(verdict.severity, Severity::Trip);
    assert!(verdict.intervention.is_some());
}

#[test]
fn layout_never_changes_a_fingerprint() {
    assert_eq!(fingerprint("fn f() {\n    1\n}\n"), fingerprint("fn f() { 1 }"));
    assert_eq!(fingerprint("\t\ta\u{a0}b"), fingerprint("a b"));
    assert_ne!(fingerprint("ab"), fingerprint("a b"));
}

#[test]
fn edit_distance_is_a_distance() {
    for (a, b) in [("kitten", "sitting"), ("", "xyz"), ("flaw", "lawn"), ("é", "e")] {
        assert_eq!(levenshtein(a, a), 0);
        assert_eq!(levenshtein(a, b), levenshtein(b, a));
        assert!(levenshtein(a, b) > 0);
    }
}

#[test]
fn same_normalised_body_is_similar_at_any_threshold() {
    assert!(is_similar("a  b\n", "a b", 10000));
    assert!(is_similar("", " ", 10000));
    assert!(is_similar("abcdefghij", "abcdefghiX", 9000));
    assert!(!is_similar("abcdefghij", "abcdefghiX", 9001));
}

#[test]
fn passing_and_neutral_outcomes_never_warn_or_trip() {
    let mut det = ThrashDetector::new(ThrashPolicy::aggressive());
    for k in 0..6 {
        let obs = if k % 2 == 0 { Observation::success() } else { Observation::neutral("info") };
        let v = det.ingest(&Turn {
            edits: vec![FileEdit { path: "a.ts".into(), content: "same".into() }],
            reads: vec![],
            observation: obs,
            note: None,
        });
        assert_eq!(v.severity, Severity::Okay);
        assert!(v.intervention.is_none());
        assert!(v.signals.iter().all(|s| s.severity == Severity::Okay));
    }
}

#[test]
fn verdicts_have_one_signal_per_edit_and_a_note_iff_tripped() {
    let mut det = ThrashDetector::with_default_policy();
    for (k, c) in [A, B, A, B, A, B, A].iter().enumerate() {
        let t = Turn {
            edits: vec![
                FileEdit { path: "auth.ts".into(), content: c.to_string() },
                FileEdit { path: "log.ts".into(), content: format!("v{k}") },
            ],
            reads: vec![],
            observation: Observation::error(ERR),
            note: None,
        };
        let v = det.ingest(&t);
        assert_eq!(v.turn_index, k);
        assert_eq!(v.signals.len(), 2);
        assert_eq!(v.intervention.is_some(), v.tripped());
        assert_eq!(v.tripped(), v.signals.iter().any(|s| s.severity == Severity::Trip));
    }
}

#[test]
fn a_key_trips_once_and_then_only_warns() {
    let mut det = ThrashDetector::with_default_policy();
    let sev: Vec<Severity> =
        (0..6).map(|_| det.ingest(&Turn::edit_then_error("a.ts", A, ERR)).severity).collect();
    assert_eq!(
        sev,
        vec![Severity::Okay, Severity::Warn, Severity::Trip, Severity::Warn, Severity::Warn, Severity::Warn]
    );
}

#[test]
fn custom_thresholds_are_honoured() {
    let policy = ThrashPolicy { warn_at: 3, trip_at: 5, similarity_threshold: 9700, lookback: 12 };
    let mut det = ThrashDetector::new(policy);
    let sev: Vec<Severity> =
        (0..5).map(|_| det.ingest(&Turn::edit_then_error("a.ts", A, ERR)).severity).collect();
    assert_eq!(
        sev,
        vec![Severity::Okay, Severity::Okay, Severity::Warn, Severity::Warn, Severity::Trip]
    );
}

#[test]
fn an_edited_file_is_never_suggested() {
    let mut det = ThrashDetector::new(ThrashPolicy::aggressive());
    det.ingest(&Turn {
        edits: vec![],
        reads: vec!["s.ts".into(), "s.ts".into(), "t.ts".into()],
        observation: Observation::neutral(""),
        note: None,
    });
    det.ingest(&Turn::edit_then_error("s.ts", "fix", "other"));
    det.ingest(&Turn::edit_then_error("a.ts", A, ERR));
    let v = det.ingest(&Turn::edit_then_error("a.ts", A, ERR));
    assert_eq!(v.intervention.unwrap().suggested_file.as_deref(), Some("t.ts"));
}

#[test]
fn near_duplicates_reuse_a_state_only_within_the_lookback() {
    let base = "export function getToken(session) {\n  if (!session) { return null; }\n  const t = session.token;\n  return t;\n}\n";
    let a1 = format!("{base}// attempt tagged A");
    let a2 = format!("{base}// attempt tagged B");
    let b = "export function getToken(session) {\n  return session?.token ?? null;\n}";

    let mut det = ThrashDetector::with_default_policy();
    det.ingest(&Turn::edit_then_error("m.ts", &a1, ERR));
    det.ingest(&Turn::edit_then_error("m.ts", b, ERR));
    let v = det.ingest(&Turn::edit_then_error("m.ts", &a2, ERR));
    assert_eq!(v.severity, Severity::Warn);
    assert_eq!(v.signals[0].distinct_states, 2);

    let short = ThrashPolicy { lookback: 1, ..ThrashPolicy::default() };
    let mut det = ThrashDetector::new(short);
    det.ingest(&Turn::edit_then_error("m.ts", &a1, ERR));
    det.ingest(&Turn::edit_then_error("m.ts", b, ERR));
    let v = det.ingest(&Turn::edit_then_error("m.ts", &a2, ERR));
    assert_eq!(v.severity, Severity::Okay);
    assert_eq!(v.signals[0].distinct_states, 3);
}

fn s(v: &str) -> Json {
    Json::Str(v.to_string())
}

fn obj(members: Vec<(&str, Json)>) -> Json {
    Json::Object(members.into_iter().map(|(k, v)| (k.to_string(), v)).collect())
}

fn conversation(bodies: &[&str], results: &[(&str, bool)]) -> Json {
    let mut messages = Vec::new();
    for (b, (text, is_error)) in bodies.iter().zip(results) {
        messages.push(obj(vec![
            ("role", s("assistant")),
            (
                "content",
                Json::Array(vec![obj(vec![
                    ("type", s("tool_use")),
                    ("name", s("write_file")),
                    ("input", obj(vec![("path", s("auth.ts")), ("content", s(b))])),
                ])]),
            ),
        ]));
        messages.push(obj(vec![
            ("role", s("user")),
            (
                "content",
                Json::Array(vec![obj(vec![
                    ("type", s("tool_result")),
                    ("content", s(text)),
                    ("is_error", Json::Bool(*is_error)),
                ])]),
            ),
        ]));
    }
    obj(vec![("system", s("be helpful")), ("messages", Json::Array(messages))])
}

#[test]
fn extracted_turns_end_in_errors_or_successes() {
    let body = conversation(
        &[A, B, A, B],
        &[("wrote file", false), (ERR, true), ("listing", false), ("all tests pass", false)],
    );
    let turns = extract_turns(&body);
    assert_eq!(turns.len(), 2);
    assert_eq!(turns[0].edits.len(), 2);
    assert_eq!(turns[1].edits.len(), 2);
    for t in &turns {
        assert!(t.observation.kind != thrashguard::ObservationKind::Neutral);
    }
}

#[test]
fn analysis_is_the_last_verdict_of_a_replay() {
    let err = (ERR, true);
    for n in 0..8 {
        let bodies: Vec<&str> = (0..n).map(|k| if k % 2 == 0 { A } else { B }).collect();
        let results: Vec<(&str, bool)> = (0..n).map(|_| err).collect();
        let body = conversation(&bodies, &results);
        let turns = extract_turns(&body);
        let mut det = ThrashDetector::with_default_policy();
        let mut last = None;
        for t in &turns {
            last = Some(det.ingest(t));
        }
        let replayed = last.and_then(|v| v.intervention).map(|i| i.system_message);
        let analysed = analyze(&body, ThrashPolicy::default()).map(|i| i.system_message);
        assert_eq!(replayed, analysed, "n = {n}");
        let again = analyze_turns(&turns, ThrashPolicy::default()).map(|i| i.system_message);
        assert_eq!(again, analysed);
    }
    assert!(analyze_turns(&vec![], ThrashPolicy::default()).is_none());
}

#[test]
fn injection_appends_exactly_one_system_message() {
    let n = 5;
    let bodies: Vec<&str> = (0..n).map(|k| if k % 2 == 0 { A } else { B }).collect();
    let results: Vec<(&str, bool)> = (0..n).map(|_| (ERR, true)).collect();
    let body = conversation(&bodies, &results);
    let interv = analyze(&body, ThrashPolicy::default()).expect("trips");
    let before = body.get("messages").unwrap().as_array().unwrap().len();
    let out = inject(body, &interv);
    let msgs = out.get("messages").unwrap().as_array().unwrap();
    assert_eq!(msgs.len(), before + 1);
    assert_eq!(msgs[before].get("role").unwrap().as_str().unwrap(), "system");
    assert_eq!(msgs[before].get("content").unwrap().as_str().unwrap(), &interv.system_message);
    assert_eq!(out.get("system").unwrap().as_str().unwrap(), "be helpful");
}
