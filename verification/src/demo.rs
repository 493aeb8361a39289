//! The replay demo's content: the built-in scenario and the lines it prints
//! for the header, each turn, a trip, and the summary.
use vstd::prelude::*;
use crate::detector::{round_half_even, Severity, SignalView, Verdict, VerdictView};
use crate::model::{EditView, FileEdit, Observation, ObservationKind, Scenario, ScenarioView, Turn, TurnView};
use crate::policy::ThrashPolicy;
use crate::text::{decimal, join_seqs, join_strings, push_decimal};
use crate::tui::{bold, boxed, dim, paint, spec_boxed, spec_short, short, repeat, BOLD, CYAN, DIM, GREEN, GREY, RED, RED_BG, RESET, YELLOW};

verus! {

/// Width of the demo's rules and boxes, in columns.
pub const WIDTH: usize = 76;

pub open spec fn painted(color: Seq<char>, s: Seq<char>) -> Seq<char> {
    color + s + RESET@
}

pub open spec fn bolded(s: Seq<char>) -> Seq<char> {
    BOLD@ + s + RESET@
}

pub open spec fn dimmed(s: Seq<char>) -> Seq<char> {
    DIM@ + s + RESET@
}

/// The header printed before a replay.
pub open spec fn header_lines(scenario: Seq<char>, description: Seq<char>, policy: ThrashPolicy) -> Seq<Seq<char>> {
    let top = seq![
        Seq::empty(),
        painted(CYAN@, bolded("  ╔══ ThrashGuard ═══════════════════════════════════════════════════╗"@)),
        painted(CYAN@, bolded("  ║  behavioural circuit breaker for AI coding agents                ║"@)),
        painted(CYAN@, bolded("  ╚══════════════════════════════════════════════════════════════════╝"@)),
        Seq::empty(),
        "  "@ + bolded("scenario:"@) + " "@ + scenario
    ];
    let desc = if description.len() > 0 { seq!["  "@ + dimmed(description)] } else { Seq::empty() };
    let tail = seq![
        "  "@ + bolded("policy:"@) + " warn at "@ + decimal(policy.warn_at as nat) + " repeats · trip at "@
            + decimal(policy.trip_at as nat) + " repeats · near-dup ≥ "@
            + decimal(round_half_even(policy.similarity_threshold as nat, 100)) + "%"@,
        "  "@ + dimmed(repeat('─', WIDTH as nat))
    ];
    top + desc + tail
}

fn push_line(out: &mut Vec<String>, s: String)
    ensures
        final(out)@.map_values(|l: String| l@) == old(out)@.map_values(|l: String| l@).push(s@),
{
    let ghost before = out@.map_values(|l: String| l@);
    let ghost sv = s@;
    out.push(s);
    assert(out@.map_values(|l: String| l@) =~= before.push(sv));
}

fn cat(a: &str, b: &str) -> (r: String)
    ensures
        r@ == a@ + b@,
{
    let mut r = String::new();
    r.append(a);
    r.append(b);
    r
}

fn percent_of_threshold(t: u32) -> (p: u64)
    ensures
        p == round_half_even(t as nat, 100),
{
    let q = (t / 100) as u64;
    let r = (t % 100) as u64;
    if 2 * r > 100 {
        q + 1
    } else if 2 * r < 100 {
        q
    } else if q % 2 == 1 {
        q + 1
    } else {
        q
    }
}

/// The header lines of a replay.
pub fn render_header(scenario: &Scenario, policy: &ThrashPolicy) -> (ls: Vec<String>)
    ensures
        ls@.map_values(|l: String| l@) == header_lines(scenario.scenario@, scenario.description@, *policy),
{
    let mut out: Vec<String> = Vec::new();
    push_line(&mut out, String::new());
    push_line(&mut out, paint(CYAN, bold("  ╔══ ThrashGuard ═══════════════════════════════════════════════════╗").as_str()));
    push_line(&mut out, paint(CYAN, bold("  ║  behavioural circuit breaker for AI coding agents                ║").as_str()));
    push_line(&mut out, paint(CYAN, bold("  ╚══════════════════════════════════════════════════════════════════╝").as_str()));
    push_line(&mut out, String::new());
    let mut l = cat("  ", bold("scenario:").as_str());
    l.append(" ");
    l.append(scenario.scenario.as_str());
    push_line(&mut out, l);
    let ghost top = out@.map_values(|l: String| l@);
    if !scenario.description.as_str().is_empty() {
        push_line(&mut out, cat("  ", dim(scenario.description.as_str()).as_str()));
    }
    let ghost mid = out@.map_values(|l: String| l@);
    let mut p = cat("  ", bold("policy:").as_str());
    p.append(" warn at ");
    push_decimal(&mut p, policy.warn_at as u64);
    p.append(" repeats · trip at ");
    push_decimal(&mut p, policy.trip_at as u64);
    p.append(" repeats · near-dup ≥ ");
    push_decimal(&mut p, percent_of_threshold(policy.similarity_threshold));
    p.append("%");
    push_line(&mut out, p);
    let mut rule = String::new();
    let mut k: usize = 0;
    while k < WIDTH
        invariant
            k <= WIDTH,
            rule@ == repeat('─', k as nat),
        decreases WIDTH - k,
    {
        rule.push('─');
        k = k + 1;
        assert(rule@ =~= repeat('─', k as nat));
    }
    push_line(&mut out, cat("  ", dim(rule.as_str()).as_str()));
    proof {
        let h = header_lines(scenario.scenario@, scenario.description@, *policy);
        assert(out@.map_values(|l: String| l@) =~= h);
    }
    out
}

/// Badge text and colour of a severity.
pub open spec fn badge(s: Severity) -> (Seq<char>, Seq<char>) {
    match s {
        Severity::Okay => ("  ok  "@, GREEN@),
        Severity::Warn => (" warn "@, YELLOW@),
        Severity::Trip => (" TRIP "@, RED_BG@),
    }
}

/// Colour of a signal line.
pub open spec fn signal_color(s: Severity) -> Seq<char> {
    match s {
        Severity::Okay => GREY@,
        Severity::Warn => YELLOW@,
        Severity::Trip => RED@,
    }
}

pub open spec fn signal_line(s: SignalView) -> Seq<char> {
    "        "@ + painted(signal_color(s.severity), "•"@) + " "@ + painted(signal_color(s.severity), s.message)
}

/// The lines printed for turn `i`: a blank, the badge line with the edits
/// and reads, the observed outcome, and one line per signal.
pub open spec fn turn_lines(i: nat, t: TurnView, v: VerdictView) -> Seq<Seq<char>> {
    let (b, color) = badge(v.severity);
    let paths = t.edits.map_values(|e: EditView| e.path);
    let action = if paths.len() == 0 { "(no edit)"@ } else { "edit "@ + join_seqs(paths, ", "@) };
    let reads = if t.reads.len() == 0 {
        Seq::empty()
    } else {
        "  "@ + dimmed("read"@) + " "@ + dimmed(join_seqs(t.reads, ", "@))
    };
    let obs = match t.kind {
        ObservationKind::Error => painted(RED@, "✗ "@ + spec_short(t.signature)),
        ObservationKind::Success => painted(GREEN@, "✓ passed"@),
        ObservationKind::Neutral => painted(GREY@, spec_short(t.signature)),
    };
    seq![
        Seq::empty(),
        "  "@ + painted(color, bolded(b)) + " "@ + bolded("turn "@ + decimal(i)) + "  "@ + action + reads,
        "        "@ + dimmed("→"@) + " "@ + obs
    ] + v.signals.map_values(|s: SignalView| signal_line(s))
}

/// The lines printed for turn `i` of a replay.
pub fn render_turn(i: usize, turn: &Turn, verdict: &Verdict) -> (ls: Vec<String>)
    ensures
        ls@.map_values(|l: String| l@) == turn_lines(i as nat, turn@, verdict@),
{
    let (b, color) = match verdict.severity {
        Severity::Okay => ("  ok  ", GREEN),
        Severity::Warn => (" warn ", YELLOW),
        Severity::Trip => (" TRIP ", RED_BG),
    };
    let mut paths: Vec<String> = Vec::new();
    let ne = turn.edits.len();
    for k in 0..ne
        invariant
            ne == turn.edits@.len(),
            paths@.map_values(|p: String| p@) == turn@.edits.map_values(|e: EditView| e.path).take(k as int),
    {
        let ghost before = paths@.map_values(|p: String| p@);
        let c = turn.edits[k].path.clone();
        assert(turn@.edits[k as int] == turn.edits@[k as int]@);
        assert(c@ == turn@.edits.map_values(|e: EditView| e.path)[k as int]);
        paths.push(c);
        assert(paths@.map_values(|p: String| p@) =~= before.push(c@));
        assert(paths@.map_values(|p: String| p@) =~= turn@.edits.map_values(|e: EditView| e.path).take(k + 1));
    }
    assert(turn@.edits.map_values(|e: EditView| e.path).take(ne as int) =~= turn@.edits.map_values(|e: EditView| e.path));
    let action = if ne == 0 {
        "(no edit)".to_owned()
    } else {
        cat("edit ", join_strings(&paths, ", ").as_str())
    };
    let reads = if turn.reads.len() == 0 {
        String::new()
    } else {
        let mut r = cat("  ", dim("read").as_str());
        r.append(" ");
        r.append(dim(join_strings(&turn.reads, ", ").as_str()).as_str());
        r
    };
    let obs = match turn.observation.kind {
        ObservationKind::Error => paint(RED, cat("✗ ", short(turn.observation.signature.as_str()).as_str()).as_str()),
        ObservationKind::Success => paint(GREEN, "✓ passed"),
        ObservationKind::Neutral => paint(GREY, short(turn.observation.signature.as_str()).as_str()),
    };
    let mut out: Vec<String> = Vec::new();
    push_line(&mut out, String::new());
    let mut head = cat("  ", paint(color, bold(b).as_str()).as_str());
    head.append(" ");
    let mut tn = "turn ".to_owned();
    push_decimal(&mut tn, i as u64);
    head.append(bold(tn.as_str()).as_str());
    head.append("  ");
    head.append(action.as_str());
    head.append(reads.as_str());
    push_line(&mut out, head);
    let mut ol = cat("        ", dim("→").as_str());
    ol.append(" ");
    ol.append(obs.as_str());
    push_line(&mut out, ol);
    let ghost base = out@.map_values(|l: String| l@);
    let ghost sv = verdict@.signals;
    let ns = verdict.signals.len();
    assert(sv.map_values(|s: SignalView| signal_line(s)).take(0) =~= Seq::<Seq<char>>::empty());
    for k in 0..ns
        invariant
            ns == verdict.signals@.len(),
            sv == verdict@.signals,
            out@.map_values(|l: String| l@) == base + sv.map_values(|s: SignalView| signal_line(s)).take(k as int),
    {
        let s = &verdict.signals[k];
        assert(sv[k as int] == s@);
        let lc = match s.severity {
            Severity::Okay => GREY,
            Severity::Warn => YELLOW,
            Severity::Trip => RED,
        };
        let mut line = cat("        ", paint(lc, "•").as_str());
        line.append(" ");
        line.append(paint(lc, s.message.as_str()).as_str());
        let ghost before = out@.map_values(|l: String| l@);
        push_line(&mut out, line);
        assert(sv.map_values(|s: SignalView| signal_line(s)).take(k + 1) =~= sv.map_values(|s: SignalView| signal_line(s)).take(k as int).push(signal_line(sv[k as int])));
    }
    assert(sv.map_values(|s: SignalView| signal_line(s)).take(ns as int) =~= sv.map_values(|s: SignalView| signal_line(s)));
    assert(turn@.reads == turn.reads@.map_values(|r: String| r@));
    assert(out@.map_values(|l: String| l@) =~= turn_lines(i as nat, turn@, verdict@));
    out
}

/// Title of the box that shows a trip's note.
pub const TRIP_TITLE: &'static str = "⚡ CIRCUIT BREAKER TRIPPED — injecting operator note";

/// What injecting the note does on the wire.
pub const WIRE_EFFECT: &'static str = "prepend role=\"system\" message + header anthropic-beta: mid-conversation-system-2026-04-07";

/// The lines printed when a turn trips: a blank, the boxed note, and the
/// wire effect.
pub open spec fn trip_lines(message: Seq<char>) -> Seq<Seq<char>> {
    seq![
        Seq::empty(),
        spec_boxed(TRIP_TITLE@, RED@, message, WIDTH as nat),
        "   "@ + dimmed("wire effect:"@) + " "@ + dimmed(WIRE_EFFECT@)
    ]
}

/// The lines printed for a trip's intervention.
pub fn render_trip(message: &str) -> (ls: Vec<String>)
    ensures
        ls@.map_values(|l: String| l@) == trip_lines(message@),
{
    let mut out: Vec<String> = Vec::new();
    push_line(&mut out, String::new());
    push_line(&mut out, boxed(TRIP_TITLE, RED, message, WIDTH));
    let mut w = cat("   ", dim("wire effect:").as_str());
    w.append(" ");
    w.append(dim(WIRE_EFFECT).as_str());
    push_line(&mut out, w);
    assert(out@.map_values(|l: String| l@) =~= trip_lines(message@));
    out
}

/// The closing lines of a replay.
pub open spec fn summary_lines(tripped: bool) -> Seq<Seq<char>> {
    if tripped {
        seq![
            "  "@ + painted(GREEN@, bolded("done."@)) + "  Loop detected and broken before it could drain the token budget."@,
            "  "@ + dimmed("Without ThrashGuard the agent would keep re-applying the same fix until it hit its budget cap."@),
            Seq::empty()
        ]
    } else {
        seq![
            "  "@ + painted(GREEN@, bolded("done."@)) + "  Healthy session — forward progress, breaker stayed quiet (no false positive)."@,
            Seq::empty()
        ]
    }
}

/// The closing lines of a replay, by whether the breaker tripped.
pub fn render_summary(tripped: bool) -> (ls: Vec<String>)
    ensures
        ls@.map_values(|l: String| l@) == summary_lines(tripped),
{
    let mut out: Vec<String> = Vec::new();
    let done = paint(GREEN, bold("done.").as_str());
    if tripped {
        let mut a = cat("  ", done.as_str());
        a.append("  Loop detected and broken before it could drain the token budget.");
        push_line(&mut out, a);
        push_line(
            &mut out,
            cat("  ", dim("Without ThrashGuard the agent would keep re-applying the same fix until it hit its budget cap.").as_str()),
        );
    } else {
        let mut a = cat("  ", done.as_str());
        a.append("  Healthy session — forward progress, breaker stayed quiet (no false positive).");
        push_line(&mut out, a);
    }
    push_line(&mut out, String::new());
    assert(out@.map_values(|l: String| l@) =~= summary_lines(tripped));
    out
}

/// The first body the built-in scenario oscillates to.
pub const BUILTIN_A: &'static str = "export function getToken(session) {\n  return session.token;\n}";
/// The second body the built-in scenario oscillates to.
pub const BUILTIN_B: &'static str = "export function getToken(session) {\n  return session && session.token;\n}";
/// The error every turn of the built-in scenario sees.
pub const BUILTIN_ERR: &'static str = "TypeError: cannot read property 'token' of undefined (auth.test.ts:12)";

/// One turn of the built-in scenario: `auth.ts` rewritten, the same error.
pub open spec fn builtin_turn(content: Seq<char>, reads: Seq<Seq<char>>, note: Seq<char>) -> TurnView {
    TurnView {
        edits: seq![EditView { path: "auth.ts"@, content }],
        reads,
        kind: ObservationKind::Error,
        signature: BUILTIN_ERR@,
        note: Some(note),
    }
}

/// The canonical `auth.ts` hallucination loop, whose real bug lives in
/// `session.ts`.
pub open spec fn builtin_scenario_view() -> ScenarioView {
    ScenarioView {
        scenario: "auth.ts hallucination loop"@,
        description: "The agent keeps rewriting getToken() in auth.ts, but the undefined session is created in session.ts."@,
        turns: seq![
            builtin_turn(BUILTIN_A@, Seq::empty(), "first attempt"@),
            builtin_turn(BUILTIN_B@, seq!["session.ts"@], "add a guard"@),
            builtin_turn(BUILTIN_A@, seq!["session.ts"@], "revert the guard"@),
            builtin_turn(BUILTIN_B@, Seq::empty(), "re-add the guard"@),
            builtin_turn(BUILTIN_A@, Seq::empty(), "revert again"@)
        ],
    }
}

fn builtin_mk(content: &str, read_session: bool, note: &str) -> (t: Turn)
    ensures
        t@ == builtin_turn(content@, if read_session { seq!["session.ts"@] } else { Seq::empty() }, note@),
{
    let mut edits: Vec<FileEdit> = Vec::new();
    edits.push(FileEdit { path: "auth.ts".to_owned(), content: content.to_owned() });
    let mut reads: Vec<String> = Vec::new();
    if read_session {
        reads.push("session.ts".to_owned());
    }
    let t = Turn { edits, reads, observation: Observation::error(BUILTIN_ERR), note: Some(note.to_owned()) };
    assert(t@.edits =~= seq![EditView { path: "auth.ts"@, content: content@ }]);
    if read_session {
        assert(t@.reads =~= seq!["session.ts"@]);
    } else {
        assert(t@.reads =~= Seq::<Seq<char>>::empty());
    }
    t
}

/// The scenario replayed when no fixture is given.
pub fn builtin_scenario() -> (s: Scenario)
    ensures
        s@ == builtin_scenario_view(),
{
    let mut turns: Vec<Turn> = Vec::new();
    turns.push(builtin_mk(BUILTIN_A, false, "first attempt"));
    turns.push(builtin_mk(BUILTIN_B, true, "add a guard"));
    turns.push(builtin_mk(BUILTIN_A, true, "revert the guard"));
    turns.push(builtin_mk(BUILTIN_B, false, "re-add the guard"));
    turns.push(builtin_mk(BUILTIN_A, false, "revert again"));
    let s = Scenario {
        scenario: "auth.ts hallucination loop".to_owned(),
        description: "The agent keeps rewriting getToken() in auth.ts, but the undefined session is created in session.ts.".to_owned(),
        turns,
    };
    assert(s@ =~= builtin_scenario_view());
    s
}

} // verus!
