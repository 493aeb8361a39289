//! Terminal rendering and the built-in replay scenario.

use thrashguard::demo::{
    builtin_scenario, render_header, render_summary, render_trip, render_turn, BUILTIN_A, BUILTIN_B,
    BUILTIN_ERR, TRIP_TITLE, WIDTH, WIRE_EFFECT,
};
use thrashguard::tui::{
    bold, boxed, dim, paint, short, visible_len, wrap, BOLD, CYAN, DIM, GREEN, GREY, RED, RED_BG,
    RESET, YELLOW,
};
use thrashguard::{ObservationKind, Severity, ThrashDetector, ThrashPolicy, Turn};

#[test]
fn paint_bold_dim_wrap_in_escapes() {
    assert_eq!(paint(RED, "x"), "\u{1b}[31mx\u{1b}[0m");
    assert_eq!(bold("b"), "\u{1b}[1mb\u{1b}[0m");
    assert_eq!(dim(""), "\u{1b}[2m\u{1b}[0m");
    assert_eq!(paint(GREEN, &bold("ok")), format!("{GREEN}{BOLD}ok{RESET}{RESET}"));
}

#[test]
fn visible_len_skips_escape_sequences() {
    assert_eq!(visible_len("abc"), 3);
    assert_eq!(visible_len(&bold("abc")), 3);
    assert_eq!(visible_len(&paint(RED_BG, " TRIP ")), 6);
    assert_eq!(visible_len("⚡ é"), 3);
    assert_eq!(visible_len(""), 0);
    // An unterminated escape hides the rest.
    assert_eq!(visible_len("ab\u{1b}[31"), 2);
}

#[test]
fn short_keeps_the_first_line_and_clips_at_sixty() {
    assert_eq!(short("one\ntwo"), "one");
    assert_eq!(short("plain"), "plain");
    assert_eq!(short(""), "");
    let long = "y".repeat(61);
    assert_eq!(short(&long), format!("{}…", "y".repeat(60)));
    let exact = "z".repeat(60);
    assert_eq!(short(&exact), exact);
}

#[test]
fn wrap_fills_lines_greedily() {
    assert_eq!(wrap("aaa bbb ccc", 7), vec!["aaa bbb", "ccc"]);
    assert_eq!(wrap("aaa bbb ccc", 6), vec!["aaa", "bbb", "ccc"]);
    assert_eq!(wrap("  lots   of\tspace  ", 80), vec!["lots of space"]);
    assert_eq!(wrap("a\n\nb", 10), vec!["a", "", "b"]);
    assert_eq!(wrap("", 5), vec![""]);
    // A word longer than the width still gets a line of its own.
    assert_eq!(wrap("hi extraordinary x", 4), vec!["hi", "extraordinary", "x"]);
}

#[test]
fn boxed_draws_title_rules_and_padded_rows() {
    let got = boxed("T", RED, "hello world", 12);
    let mut want = String::new();
    want.push_str(&format!("{RED}╔{}╗{RESET}\n", "═".repeat(10)));
    want.push_str(&format!("{RED}║{RESET}{BOLD} T {RESET}{}{RED}║{RESET}\n", " ".repeat(7)));
    want.push_str(&format!("{RED}╟{}╢{RESET}\n", "─".repeat(10)));
    want.push_str(&format!("{RED}║{RESET} hello{}{RED}║{RESET}\n", " ".repeat(4)));
    want.push_str(&format!("{RED}║{RESET} world{}{RED}║{RESET}\n", " ".repeat(4)));
    want.push_str(&format!("{RED}╚{}╝{RESET}", "═".repeat(10)));
    assert_eq!(got, want);
}

#[test]
fn boxed_with_tiny_width_saturates() {
    let got = boxed("", CYAN, "", 1);
    let want = format!(
        "{CYAN}╔╗{RESET}\n{CYAN}║{RESET}{BOLD}  {RESET}{CYAN}║{RESET}\n{CYAN}╟╢{RESET}\n{CYAN}║{RESET} {CYAN}║{RESET}\n{CYAN}╚╝{RESET}"
    );
    assert_eq!(got, want);
}

#[test]
fn builtin_scenario_is_the_auth_loop() {
    let s = builtin_scenario();
    assert_eq!(s.scenario, "auth.ts hallucination loop");
    assert_eq!(s.turns.len(), 5);
    let bodies: Vec<&str> = s.turns.iter().map(|t| t.edits[0].content.as_str()).collect();
    assert_eq!(bodies, vec![BUILTIN_A, BUILTIN_B, BUILTIN_A, BUILTIN_B, BUILTIN_A]);
    for t in &s.turns {
        assert_eq!(t.edits.len(), 1);
        assert_eq!(t.edits[0].path, "auth.ts");
        assert_eq!(t.observation.kind, ObservationKind::Error);
        assert_eq!(t.observation.signature, BUILTIN_ERR);
    }
    assert_eq!(s.turns[1].reads, vec!["session.ts".to_string()]);
    assert_eq!(s.turns[2].reads, vec!["session.ts".to_string()]);
    assert!(s.turns[0].reads.is_empty());
    assert_eq!(s.turns[4].note.as_deref(), Some("revert again"));
}

#[test]
fn builtin_scenario_trips_on_the_last_turn_and_points_at_session() {
    let s = builtin_scenario();
    let mut det = ThrashDetector::with_default_policy();
    let sev: Vec<Severity> = s.turns.iter().map(|t| det.ingest(t).severity).collect();
    assert_eq!(
        sev,
        vec![Severity::Okay, Severity::Okay, Severity::Warn, Severity::Warn, Severity::Trip]
    );
    let mut det = ThrashDetector::with_default_policy();
    let mut last = None;
    for t in &s.turns {
        last = Some(det.ingest(t));
    }
    let v = last.unwrap();
    let i = v.intervention.expect("trip");
    assert_eq!(i.suggested_file.as_deref(), Some("session.ts"));
    assert_eq!(i.occurrences, 3);
    assert_eq!(i.cycle_states, 2);
}

#[test]
fn header_lines_show_scenario_and_policy() {
    let s = builtin_scenario();
    let ls = render_header(&s, &ThrashPolicy::default());
    assert_eq!(ls.len(), 9);
    assert_eq!(ls[0], "");
    assert!(ls[1].starts_with(CYAN));
    assert_eq!(ls[5], format!("  {BOLD}scenario:{RESET} auth.ts hallucination loop"));
    assert_eq!(ls[6], format!("  {DIM}{}{RESET}", s.description));
    assert_eq!(
        ls[7],
        format!("  {BOLD}policy:{RESET} warn at 2 repeats · trip at 3 repeats · near-dup ≥ 97%")
    );
    assert_eq!(ls[8], format!("  {DIM}{}{RESET}", "─".repeat(WIDTH)));
}

#[test]
fn header_without_description_has_no_description_line() {
    let mut s = builtin_scenario();
    s.description = String::new();
    let ls = render_header(&s, &ThrashPolicy::aggressive());
    assert_eq!(ls.len(), 8);
    assert_eq!(
        ls[6],
        format!("  {BOLD}policy:{RESET} warn at 1 repeats · trip at 2 repeats · near-dup ≥ 97%")
    );
}

#[test]
fn turn_lines_show_badge_action_outcome_and_signals() {
    let s = builtin_scenario();
    let mut det = ThrashDetector::with_default_policy();
    let verdicts: Vec<_> = s.turns.iter().map(|t| det.ingest(t)).collect();

    let ls = render_turn(0, &s.turns[0], &verdicts[0]);
    assert_eq!(ls.len(), 4);
    assert_eq!(ls[0], "");
    assert_eq!(
        ls[1],
        format!("  {GREEN}{BOLD}  ok  {RESET}{RESET} {BOLD}turn 0{RESET}  edit auth.ts")
    );
    assert_eq!(
        ls[2],
        format!("        {DIM}→{RESET} {RED}✗ {}{RESET}", short(BUILTIN_ERR))
    );
    assert_eq!(
        ls[3],
        format!("        {GREY}•{RESET} {GREY}`auth.ts` edited (100% changed vs last write){RESET}")
    );

    let ls = render_turn(2, &s.turns[2], &verdicts[2]);
    assert_eq!(
        ls[1],
        format!(
            "  {YELLOW}{BOLD} warn {RESET}{RESET} {BOLD}turn 2{RESET}  edit auth.ts  {DIM}read{RESET} {DIM}session.ts{RESET}"
        )
    );
    assert_eq!(
        ls[3],
        format!(
            "        {YELLOW}•{RESET} {YELLOW}`auth.ts` returned to a prior failing state (first seen on turn 0); occurrence #2, 16% changed vs last write{RESET}"
        )
    );

    let ls = render_turn(4, &s.turns[4], &verdicts[4]);
    assert!(ls[1].starts_with(&format!("  {RED_BG}{BOLD} TRIP {RESET}{RESET}")));
    assert!(ls[3].contains("occurrence #3"));
}

#[test]
fn turn_lines_for_success_neutral_and_no_edit() {
    let mut det = ThrashDetector::with_default_policy();
    let t = Turn {
        edits: vec![],
        reads: vec!["a.ts".into(), "b.ts".into()],
        observation: thrashguard::Observation::success(),
        note: None,
    };
    let v = det.ingest(&t);
    let ls = render_turn(7, &t, &v);
    assert_eq!(ls.len(), 3);
    assert_eq!(
        ls[1],
        format!(
            "  {GREEN}{BOLD}  ok  {RESET}{RESET} {BOLD}turn 7{RESET}  (no edit)  {DIM}read{RESET} {DIM}a.ts, b.ts{RESET}"
        )
    );
    assert_eq!(ls[2], format!("        {DIM}→{RESET} {GREEN}✓ passed{RESET}"));

    let t = Turn {
        edits: vec![],
        reads: vec![],
        observation: thrashguard::Observation::neutral("listing\nmore"),
        note: None,
    };
    let v = det.ingest(&t);
    let ls = render_turn(8, &t, &v);
    assert_eq!(ls[2], format!("        {DIM}→{RESET} {GREY}listing{RESET}"));
}

#[test]
fn trip_lines_box_the_note() {
    let ls = render_trip("note text");
    assert_eq!(ls.len(), 3);
    assert_eq!(ls[0], "");
    assert_eq!(ls[1], boxed(TRIP_TITLE, RED, "note text", WIDTH));
    assert_eq!(ls[2], format!("   {DIM}wire effect:{RESET} {DIM}{WIRE_EFFECT}{RESET}"));
    assert!(WIRE_EFFECT.ends_with(thrashguard::proxy::MID_CONVERSATION_BETA));
}

#[test]
fn summary_lines_by_outcome() {
    let ls = render_summary(true);
    assert_eq!(ls.len(), 3);
    assert_eq!(
        ls[0],
        format!(
            "  {GREEN}{BOLD}done.{RESET}{RESET}  Loop detected and broken before it could drain the token budget."
        )
    );
    assert_eq!(ls[2], "");
    let ls = render_summary(false);
    assert_eq!(ls.len(), 2);
    assert!(ls[0].ends_with("breaker stayed quiet (no false positive)."));
    assert_eq!(ls[1], "");
}
