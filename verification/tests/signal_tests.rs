//! Signals, verdict bookkeeping and the intervention note.

use thrashguard::detector::render_signal_message;
use thrashguard::intervention::{trim_signature, MAX_SIGNATURE_CHARS};
use thrashguard::{
    ChangeRatio, FileEdit, Intervention, Observation, ObservationKind, Severity, ThrashDetector,
    ThrashPolicy, Turn,
};

fn turn(edits: &[(&str, &str)], reads: &[&str], obs: Observation) -> Turn {
    Turn {
        edits: edits
            .iter()
            .map(|(p, c)| FileEdit { path: p.to_string(), content: c.to_string() })
            .collect(),
        reads: reads.iter().map(|r| r.to_string()).collect(),
        observation: obs,
        note: None,
    }
}

#[test]
fn constructors_fill_the_model() {
    let t = Turn::edit_then_error("a.ts", "body", "boom");
    assert_eq!(t.edits.len(), 1);
    assert_eq!(t.edits[0].path, "a.ts");
    assert_eq!(t.edits[0].content, "body");
    assert!(t.reads.is_empty());
    assert_eq!(t.observation.kind, ObservationKind::Error);
    assert_eq!(t.observation.signature, "boom");
    assert!(t.note.is_none());
    assert_eq!(Observation::success().signature, "");
    assert_eq!(Observation::success().kind, ObservationKind::Success);
    assert_eq!(Observation::neutral("n").kind, ObservationKind::Neutral);
    assert!(ObservationKind::Error.is_error());
    assert!(!ObservationKind::Success.is_error());
    assert!(!ObservationKind::Neutral.is_error());
}

#[test]
fn policies_have_their_documented_values() {
    let p = ThrashPolicy::default();
    assert_eq!((p.warn_at, p.trip_at, p.similarity_threshold, p.lookback), (2, 3, 9700, 12));
    let a = ThrashPolicy::aggressive();
    assert_eq!((a.warn_at, a.trip_at, a.similarity_threshold, a.lookback), (1, 2, 9700, 12));
    let d = ThrashDetector::with_default_policy();
    assert_eq!(*d.policy(), p);
    let d = ThrashDetector::new(a);
    assert_eq!(*d.policy(), a);
}

#[test]
fn signal_messages_by_outcome() {
    let full = ChangeRatio { changed: 1, total: 1 };
    assert_eq!(
        render_signal_message("a.ts", ObservationKind::Error, 1, None, full),
        "`a.ts` edited (100% changed vs last write)"
    );
    assert_eq!(
        render_signal_message("a.ts", ObservationKind::Success, 4, Some(2), full),
        "`a.ts` reached a passing state (100% changed)"
    );
    assert_eq!(
        render_signal_message("a.ts", ObservationKind::Neutral, 2, Some(0), ChangeRatio { changed: 0, total: 1 }),
        "`a.ts` edited (0% changed vs last write)"
    );
    assert_eq!(
        render_signal_message("a.ts", ObservationKind::Error, 12, Some(3), ChangeRatio { changed: 1, total: 3 }),
        "`a.ts` returned to a prior failing state (first seen on turn 3); occurrence #12, 33% changed vs last write"
    );
}

#[test]
fn percentages_round_half_to_even() {
    let pct = |changed, total| {
        render_signal_message("f", ObservationKind::Success, 1, None, ChangeRatio { changed, total })
    };
    assert_eq!(pct(1, 8), "`f` reached a passing state (12% changed)");
    assert_eq!(pct(3, 8), "`f` reached a passing state (38% changed)");
    assert_eq!(pct(2, 3), "`f` reached a passing state (67% changed)");
    assert_eq!(pct(1, 200), "`f` reached a passing state (0% changed)");
    assert_eq!(pct(3, 200), "`f` reached a passing state (2% changed)");
}

#[test]
fn signals_describe_each_edit() {
    let mut det = ThrashDetector::with_default_policy();
    let v = det.ingest(&turn(&[("a.ts", "abcd"), ("b.ts", "x")], &[], Observation::error("E")));
    assert_eq!(v.turn_index, 0);
    assert_eq!(v.signals.len(), 2);
    let s = &v.signals[0];
    assert_eq!(s.path, "a.ts");
    assert_eq!(s.occurrences, 1);
    assert_eq!(s.first_seen_turn, None);
    assert_eq!(s.distinct_states, 1);
    assert_eq!(s.change_ratio, ChangeRatio { changed: 1, total: 1 });
    assert_eq!(s.severity, Severity::Okay);
    assert_eq!(s.observation, ObservationKind::Error);

    let v = det.ingest(&turn(&[("a.ts", "abce")], &[], Observation::error("E")));
    assert_eq!(v.turn_index, 1);
    let s = &v.signals[0];
    assert_eq!(s.change_ratio, ChangeRatio { changed: 1, total: 4 });
    assert_eq!(s.distinct_states, 2);
    assert_eq!(s.message, "`a.ts` edited (25% changed vs last write)");

    let v = det.ingest(&turn(&[("a.ts", "abcd")], &[], Observation::error("E")));
    let s = &v.signals[0];
    assert_eq!(s.occurrences, 2);
    assert_eq!(s.first_seen_turn, Some(0));
    assert_eq!(s.distinct_states, 2);
    assert_eq!(s.severity, Severity::Warn);
}

#[test]
fn a_different_error_is_a_different_key() {
    let mut det = ThrashDetector::with_default_policy();
    for err in ["E1", "E2", "E3", "E1"] {
        let v = det.ingest(&Turn::edit_then_error("a.ts", "same body", err));
        assert_ne!(v.severity, Severity::Trip);
    }
    let v = det.ingest(&Turn::edit_then_error("a.ts", "same body", "E1"));
    assert_eq!(v.severity, Severity::Trip);
}

#[test]
fn the_most_severe_signal_decides_and_the_first_trip_is_reported() {
    let mut det = ThrashDetector::new(ThrashPolicy::aggressive());
    det.ingest(&turn(&[("a.ts", "1"), ("b.ts", "2")], &["c.ts"], Observation::error("E")));
    let v = det.ingest(&turn(&[("a.ts", "1"), ("b.ts", "2")], &[], Observation::error("E")));
    assert_eq!(v.severity, Severity::Trip);
    assert!(v.tripped());
    assert_eq!(v.signals[0].severity, Severity::Trip);
    assert_eq!(v.signals[1].severity, Severity::Trip);
    let i = v.intervention.unwrap();
    assert_eq!(i.thrashed_file, "a.ts");
    assert_eq!(i.suggested_file.as_deref(), Some("c.ts"));
}

#[test]
fn redirect_prefers_the_most_read_unedited_file() {
    let mut det = ThrashDetector::new(ThrashPolicy::aggressive());
    det.ingest(&turn(&[], &["x.ts", "y.ts", "y.ts", "z.ts"], Observation::neutral("")));
    // z.ts is read three times but then edited: it is no candidate anymore.
    det.ingest(&turn(&[("z.ts", "z")], &["z.ts", "z.ts"], Observation::success()));
    det.ingest(&turn(&[("a.ts", "v")], &["z.ts", "z.ts", "z.ts"], Observation::error("E")));
    let v = det.ingest(&turn(&[("a.ts", "v")], &[], Observation::error("E")));
    let i = v.intervention.expect("trip");
    assert_eq!(i.suggested_file.as_deref(), Some("y.ts"));
}

#[test]
fn no_candidate_means_no_suggestion() {
    let mut det = ThrashDetector::new(ThrashPolicy::aggressive());
    det.ingest(&turn(&[("a.ts", "v")], &[], Observation::error("E")));
    let v = det.ingest(&turn(&[("a.ts", "v")], &["a.ts"], Observation::error("E")));
    let i = v.intervention.expect("trip");
    assert_eq!(i.suggested_file, None);
    assert!(i.system_message.ends_with(
        "Before editing it again, step back and reconsider which module actually owns this behaviour rather than re-applying the same fix."
    ));
}

#[test]
fn try_ingest_accepts_ordinary_turns() {
    let mut det = ThrashDetector::with_default_policy();
    let t = Turn::edit_then_error("a.ts", "x", "E");
    assert!(det.can_ingest_turn(&t));
    let v = det.try_ingest(&t).expect("fits");
    assert_eq!(v.turn_index, 0);
    let v = det.try_ingest(&t).expect("fits");
    assert_eq!(v.turn_index, 1);
    assert_eq!(v.severity, Severity::Warn);
}

#[test]
fn note_text_with_and_without_a_suggestion() {
    let i = Intervention::build("auth.ts", "TypeError: x\n  at line 3", 3, 2, Some("session.ts".to_string()));
    assert_eq!(i.thrashed_file, "auth.ts");
    assert_eq!(i.error_signature, "TypeError: x\n  at line 3");
    assert_eq!(i.occurrences, 3);
    assert_eq!(i.cycle_states, 2);
    assert_eq!(
        i.system_message,
        "System note: the edit just applied to `auth.ts` is the same change already attempted 3 times \
         in this session, and it reproduces the same failure (TypeError: x). The root cause is unlikely \
         to live in `auth.ts`. Before editing `auth.ts` again, inspect `session.ts` — it has been read \
         but never changed and is a likely owner of this behaviour — and reconsider the approach."
    );
    let i = Intervention::build("m.ts", "  E  ", 4, 1, None);
    assert_eq!(
        i.system_message,
        "System note: the edit just applied to `m.ts` is the same change already attempted 4 times \
         in this session, and it reproduces the same failure (E). The root cause is unlikely to live \
         in `m.ts`. Before editing it again, step back and reconsider which module actually owns this \
         behaviour rather than re-applying the same fix."
    );
}

#[test]
fn long_signatures_are_clipped() {
    let long = "e".repeat(MAX_SIGNATURE_CHARS + 5);
    assert_eq!(trim_signature(&long), format!("{}…", "e".repeat(MAX_SIGNATURE_CHARS)));
    let exact = "é".repeat(MAX_SIGNATURE_CHARS);
    assert_eq!(trim_signature(&exact), exact);
    assert_eq!(trim_signature("  first  \r\nsecond"), "first");
    assert_eq!(trim_signature(""), "");
    assert_eq!(trim_signature("\nsecond"), "");
}
