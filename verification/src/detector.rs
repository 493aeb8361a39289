//! The thrash detector: a streaming state machine over agent behaviour.
//!
//! For every edited file the detector keeps its history of versions. Each
//! edit resolves a canonical state id (its fingerprint, unless a recent
//! version is a near-duplicate, whose id it then reuses) and counts the
//! occurrences of the key `(path, canonical state, error signature)`. It warns
//! at `policy.warn_at` occurrences of a failing key and trips at
//! `policy.trip_at`, at most once per key.
use vstd::prelude::*;
use crate::fingerprint::{fingerprint, spec_fingerprint, similar_at_least, is_similar, similarity_parts, spec_edit_ratio};
use crate::intervention::{Intervention, InterventionView, spec_intervention};
use crate::model::{EditView, FileEdit, ObservationKind, Turn, TurnView};
use crate::policy::ThrashPolicy;
use crate::text::{decimal, push_decimal};
use crate::assoc::{assoc_get, assoc_index, assoc_remove, assoc_set, lemma_assoc_index_at, lemma_assoc_index_none};

verus! {

// ---------------------------------------------------------------------------
// Verdicts and signals
// ---------------------------------------------------------------------------

/// Severity of a single turn's verdict.
#[derive(Clone, Copy, Debug, PartialEq, Eq, Structural)]
pub enum Severity {
    /// Nothing notable: normal forward progress or exploration.
    Okay,
    /// A repeated state/error was seen; the agent may be circling.
    Warn,
    /// A confirmed thrash cycle crossed the trip threshold.
    Trip,
}

pub open spec fn severity_rank(s: Severity) -> nat {
    match s {
        Severity::Okay => 0,
        Severity::Warn => 1,
        Severity::Trip => 2,
    }
}

/// How much of a file changed against its previous version: `changed / total`
/// with `total > 0` (a first write counts as fully changed, `1 / 1`).
#[derive(Clone, Copy, Debug, PartialEq, Eq, Structural)]
pub struct ChangeRatio {
    pub changed: usize,
    pub total: usize,
}

/// A per-file finding produced while ingesting a turn.
#[derive(Clone, Debug)]
pub struct Signal {
    pub path: String,
    /// How many times this `(state, error)` pair has now occurred.
    pub occurrences: u32,
    pub observation: ObservationKind,
    /// The earliest turn that produced this same state, if it is a repeat.
    pub first_seen_turn: Option<usize>,
    /// Distinct versions the file has cycled between.
    pub distinct_states: usize,
    /// Fraction of the file that changed versus its previous version.
    pub change_ratio: ChangeRatio,
    pub severity: Severity,
    pub message: String,
}

/// A signal as plain values.
#[verifier::ext_equal]
pub struct SignalView {
    pub path: Seq<char>,
    pub occurrences: nat,
    pub observation: ObservationKind,
    pub first_seen_turn: Option<nat>,
    pub distinct_states: nat,
    pub change: (nat, nat),
    pub severity: Severity,
    pub message: Seq<char>,
}

pub open spec fn opt_usize_view(o: Option<usize>) -> Option<nat> {
    match o {
        Some(x) => Some(x as nat),
        None => None,
    }
}

impl View for Signal {
    type V = SignalView;

    open spec fn view(&self) -> SignalView {
        SignalView {
            path: self.path@,
            occurrences: self.occurrences as nat,
            observation: self.observation,
            first_seen_turn: opt_usize_view(self.first_seen_turn),
            distinct_states: self.distinct_states as nat,
            change: (self.change_ratio.changed as nat, self.change_ratio.total as nat),
            severity: self.severity,
            message: self.message@,
        }
    }
}

/// The verdict for one ingested turn.
#[derive(Clone, Debug)]
pub struct Verdict {
    pub turn_index: usize,
    pub severity: Severity,
    pub signals: Vec<Signal>,
    /// Present iff `severity == Trip`.
    pub intervention: Option<Intervention>,
}

/// A verdict as plain values.
#[verifier::ext_equal]
pub struct VerdictView {
    pub turn_index: nat,
    pub severity: Severity,
    pub signals: Seq<SignalView>,
    pub intervention: Option<InterventionView>,
}

impl View for Verdict {
    type V = VerdictView;

    open spec fn view(&self) -> VerdictView {
        VerdictView {
            turn_index: self.turn_index as nat,
            severity: self.severity,
            signals: self.signals@.map_values(|s: Signal| s@),
            intervention: match self.intervention {
                Some(i) => Some(i@),
                None => None,
            },
        }
    }
}

impl Verdict {
    pub fn tripped(&self) -> (r: bool)
        ensures
            r == (self.severity == Severity::Trip),
    {
        self.severity == Severity::Trip
    }
}

/// `n / d` rounded to the nearest integer, ties to even (`d > 0`).
pub open spec fn round_half_even(n: nat, d: nat) -> nat {
    let q = n / d;
    let r = n % d;
    if 2 * r > d {
        q + 1
    } else if 2 * r < d {
        q
    } else if q % 2 == 1 {
        q + 1
    } else {
        q
    }
}

/// A change ratio as a whole percentage.
pub open spec fn percent(change: (nat, nat)) -> nat {
    round_half_even(100 * change.0, change.1)
}

/// The human-readable line for one signal.
pub open spec fn signal_message(
    path: Seq<char>,
    kind: ObservationKind,
    occurrences: nat,
    first_seen: Option<nat>,
    pct: nat,
) -> Seq<char> {
    if kind == ObservationKind::Error && first_seen is Some {
        "`"@ + path + "` returned to a prior failing state (first seen on turn "@ + decimal(
            first_seen->0,
        ) + "); occurrence #"@ + decimal(occurrences) + ", "@ + decimal(pct)
            + "% changed vs last write"@
    } else if kind == ObservationKind::Success {
        "`"@ + path + "` reached a passing state ("@ + decimal(pct) + "% changed)"@
    } else {
        "`"@ + path + "` edited ("@ + decimal(pct) + "% changed vs last write)"@
    }
}

fn percent_of(change: ChangeRatio) -> (p: u64)
    requires
        change.changed <= change.total,
        change.total > 0,
    ensures
        p == percent((change.changed as nat, change.total as nat)),
{
    let n = (change.changed as u128) * 100;
    let d = change.total as u128;
    let q = n / d;
    let r = n % d;
    assert(q <= 100) by (nonlinear_arith)
        requires
            q == n / d,
            n == change.changed * 100,
            d == change.total,
            change.changed <= change.total,
            d > 0,
    ;
    let q64 = q as u64;
    if 2 * r > d {
        q64 + 1
    } else if 2 * r < d {
        q64
    } else if q64 % 2 == 1 {
        q64 + 1
    } else {
        q64
    }
}

/// Render the message line of a signal.
pub fn render_signal_message(
    path: &str,
    kind: ObservationKind,
    occurrences: u32,
    first_seen_turn: Option<usize>,
    change: ChangeRatio,
) -> (m: String)
    requires
        change.changed <= change.total,
        change.total > 0,
    ensures
        m@ == signal_message(
            path@,
            kind,
            occurrences as nat,
            opt_usize_view(first_seen_turn),
            percent((change.changed as nat, change.total as nat)),
        ),
{
    let pct = percent_of(change);
    let mut m = String::new();
    m.append("`");
    m.append(path);
    match (kind, first_seen_turn) {
        (ObservationKind::Error, Some(first)) => {
            m.append("` returned to a prior failing state (first seen on turn ");
            push_decimal(&mut m, first as u64);
            m.append("); occurrence #");
            push_decimal(&mut m, occurrences as u64);
            m.append(", ");
            push_decimal(&mut m, pct);
            m.append("% changed vs last write");
        },
        (ObservationKind::Success, _) => {
            m.append("` reached a passing state (");
            push_decimal(&mut m, pct);
            m.append("% changed)");
        },
        _ => {
            m.append("` edited (");
            push_decimal(&mut m, pct);
            m.append("% changed vs last write)");
        },
    }
    m
}

// ---------------------------------------------------------------------------
// The abstract detector state and one step of it
// ---------------------------------------------------------------------------

/// One recorded write of a file: its canonical state id and its body.
#[verifier::ext_equal]
pub struct VersionModel {
    pub canonical: u64,
    pub content: Seq<char>,
}

/// The key whose occurrences are counted: a file, a canonical state of it,
/// and the error signature observed after reaching that state.
pub struct OccKey {
    pub path: Seq<char>,
    pub canonical: u64,
    pub signature: Seq<char>,
}

/// The detector's state as plain values.
#[verifier::ext_equal]
pub struct DetectorModel {
    pub policy: ThrashPolicy,
    /// Number of turns ingested so far (the index the next turn gets).
    pub turn_index: nat,
    /// Per-file version history, keyed by path.
    pub histories: Seq<(Seq<char>, Seq<VersionModel>)>,
    /// Occurrence count and first turn, keyed by `(path, state, error)`.
    pub occurrences: Seq<(OccKey, (nat, nat))>,
    /// Files read but never edited, with their read counts, in first-read order.
    pub read_only: Seq<(Seq<char>, nat)>,
    /// Files that have been edited at least once.
    pub edited: Set<Seq<char>>,
    /// Keys that have already tripped the breaker.
    pub tripped: Set<OccKey>,
    /// Total number of edits ingested.
    pub edits_seen: nat,
    /// Total number of reads ingested.
    pub reads_seen: nat,
}

/// The state of a fresh detector.
pub open spec fn initial_model(policy: ThrashPolicy) -> DetectorModel {
    DetectorModel {
        policy,
        turn_index: 0,
        histories: Seq::empty(),
        occurrences: Seq::empty(),
        read_only: Seq::empty(),
        edited: Set::empty(),
        tripped: Set::empty(),
        edits_seen: 0,
        reads_seen: 0,
    }
}

/// Every occurrence count is bounded by the edits seen and every read count
/// by the reads seen.
pub open spec fn counts_bounded(m: DetectorModel) -> bool {
    &&& forall|i: int| 0 <= i < m.occurrences.len() ==> #[trigger] m.occurrences[i].1.0 <= m.edits_seen
    &&& forall|i: int| 0 <= i < m.read_only.len() ==> #[trigger] m.read_only[i].1 <= m.reads_seen
}

/// What ingesting `t` in state `m` needs: the counters stay within their
/// machine integers.
pub open spec fn can_ingest(m: DetectorModel, t: TurnView) -> bool {
    &&& counts_bounded(m)
    &&& m.turn_index < usize::MAX
    &&& m.edits_seen + t.edits.len() <= u32::MAX
    &&& m.reads_seen + t.reads.len() <= u32::MAX
}

/// One read: a file never edited gains one read.
pub open spec fn read_step(ro: Seq<(Seq<char>, nat)>, edited: Set<Seq<char>>, r: Seq<char>) -> Seq<(Seq<char>, nat)> {
    if edited.contains(r) {
        ro
    } else {
        let c = match assoc_get(ro, r) {
            Some(c) => c,
            None => 0,
        };
        assoc_set(ro, r, c + 1)
    }
}

/// All reads of a turn, in order.
pub open spec fn reads_fold(ro: Seq<(Seq<char>, nat)>, edited: Set<Seq<char>>, reads: Seq<Seq<char>>) -> Seq<(Seq<char>, nat)>
    decreases reads.len(),
{
    if reads.len() == 0 {
        ro
    } else {
        read_step(reads_fold(ro, edited, reads.drop_last()), edited, reads.last())
    }
}

/// Resolve a state id within a window of recent versions, newest first: the
/// first version whose id equals `fp` or whose body is similar enough.
pub open spec fn resolve_window(window: Seq<VersionModel>, fp: u64, content: Seq<char>, threshold: nat) -> u64
    decreases window.len(),
{
    if window.len() == 0 {
        fp
    } else {
        let v = window.last();
        if v.canonical == fp || similar_at_least(v.content, content, threshold) {
            v.canonical
        } else {
            resolve_window(window.drop_last(), fp, content, threshold)
        }
    }
}

/// The canonical state id of a new write of `content` to a file with history
/// `hist`: a near-identical version among the last `lookback` ones lends its
/// id, else the write's own fingerprint is the id.
pub open spec fn resolve_canonical(hist: Seq<VersionModel>, policy: ThrashPolicy, content: Seq<char>) -> u64 {
    let start = if hist.len() >= policy.lookback { hist.len() - policy.lookback } else { 0 };
    resolve_window(hist.subrange(start, hist.len() as int), spec_fingerprint(content), content, policy.similarity_threshold as nat)
}

/// Number of distinct state ids in a history.
pub open spec fn distinct_states(h: Seq<VersionModel>) -> nat
    decreases h.len(),
{
    if h.len() == 0 {
        0
    } else {
        let prior = h.drop_last();
        distinct_states(prior) + if exists|j: int| 0 <= j < prior.len() && prior[j].canonical == h.last().canonical {
            0nat
        } else {
            1nat
        }
    }
}

/// How much a write changes a file with history `hist`.
pub open spec fn change_of(hist: Seq<VersionModel>, content: Seq<char>) -> (nat, nat) {
    if hist.len() == 0 {
        (1, 1)
    } else {
        let (d, m) = spec_edit_ratio(hist.last().content, content);
        if m == 0 { (0, 1) } else { (d, m) }
    }
}

/// The history of `path`, empty when it has none.
pub open spec fn history_of(m: DetectorModel, path: Seq<char>) -> Seq<VersionModel> {
    match assoc_get(m.histories, path) {
        Some(h) => h,
        None => Seq::empty(),
    }
}

/// The occurrence key an edit lands on.
pub open spec fn edit_key(m: DetectorModel, sig: Seq<char>, e: EditView) -> OccKey {
    OccKey { path: e.path, canonical: resolve_canonical(history_of(m, e.path), m.policy, e.content), signature: sig }
}

/// Count and first turn of a key after one more occurrence on turn `idx`.
pub open spec fn bumped(m: DetectorModel, key: OccKey, idx: nat) -> (nat, nat) {
    match assoc_get(m.occurrences, key) {
        Some(cf) => (cf.0 + 1, cf.1),
        None => (1, idx),
    }
}

/// Whether an edit with outcome `kind` that brings `key` to `count`
/// occurrences trips the breaker.
pub open spec fn trips(m: DetectorModel, kind: ObservationKind, key: OccKey, count: nat) -> bool {
    kind == ObservationKind::Error && count >= m.policy.trip_at && !m.tripped.contains(key)
}

/// Severity of an edit with outcome `kind` that brings `key` to `count`.
pub open spec fn classify(m: DetectorModel, kind: ObservationKind, key: OccKey, count: nat) -> Severity {
    if kind != ObservationKind::Error {
        Severity::Okay
    } else if trips(m, kind, key, count) {
        Severity::Trip
    } else if count >= m.policy.warn_at {
        Severity::Warn
    } else {
        Severity::Okay
    }
}

/// One edit of turn `idx` with outcome `(kind, sig)`: the new state and the
/// signal it yields.
pub open spec fn edit_step(m: DetectorModel, idx: nat, kind: ObservationKind, sig: Seq<char>, e: EditView) -> (DetectorModel, SignalView) {
    let hist = history_of(m, e.path);
    let key = edit_key(m, sig, e);
    let hist2 = hist.push(VersionModel { canonical: key.canonical, content: e.content });
    let cf = bumped(m, key, idx);
    let count = cf.0;
    let first_seen = if count > 1 { Some(cf.1) } else { None };
    let change = change_of(hist, e.content);
    let m2 = DetectorModel {
        histories: assoc_set(m.histories, e.path, hist2),
        occurrences: assoc_set(m.occurrences, key, cf),
        read_only: assoc_remove(m.read_only, e.path),
        edited: m.edited.insert(e.path),
        tripped: if trips(m, kind, key, count) { m.tripped.insert(key) } else { m.tripped },
        edits_seen: m.edits_seen + 1,
        ..m
    };
    let signal = SignalView {
        path: e.path,
        occurrences: count,
        observation: kind,
        first_seen_turn: first_seen,
        distinct_states: distinct_states(hist2),
        change,
        severity: classify(m, kind, key, count),
        message: signal_message(e.path, kind, count, first_seen, percent(change)),
    };
    (m2, signal)
}

/// All edits of a turn, in order.
pub open spec fn edits_fold(m: DetectorModel, idx: nat, kind: ObservationKind, sig: Seq<char>, edits: Seq<EditView>) -> (DetectorModel, Seq<SignalView>)
    decreases edits.len(),
{
    if edits.len() == 0 {
        (m, Seq::empty())
    } else {
        let (m1, sigs) = edits_fold(m, idx, kind, sig, edits.drop_last());
        let (m2, s) = edit_step(m1, idx, kind, sig, edits.last());
        (m2, sigs.push(s))
    }
}

/// The most severe severity among the signals (`Okay` when there are none).
pub open spec fn max_severity(sigs: Seq<SignalView>) -> Severity
    decreases sigs.len(),
{
    if sigs.len() == 0 {
        Severity::Okay
    } else {
        let a = max_severity(sigs.drop_last());
        let b = sigs.last().severity;
        if severity_rank(b) > severity_rank(a) { b } else { a }
    }
}

/// `i` is the first tripped signal.
pub open spec fn first_trip_at(sigs: Seq<SignalView>, i: int) -> bool {
    &&& 0 <= i < sigs.len()
    &&& sigs[i].severity == Severity::Trip
    &&& forall|j: int| 0 <= j < i ==> sigs[j].severity != Severity::Trip
}

/// `i` is the redirect target: the first read-only file other than
/// `thrashed` with the most reads.
pub open spec fn best_redirect_at(ro: Seq<(Seq<char>, nat)>, thrashed: Seq<char>, i: int) -> bool {
    &&& 0 <= i < ro.len()
    &&& ro[i].0 != thrashed
    &&& forall|j: int| 0 <= j < ro.len() && ro[j].0 != thrashed ==> ro[j].1 <= ro[i].1
    &&& forall|j: int| 0 <= j < i && ro[j].0 != thrashed ==> ro[j].1 < ro[i].1
}

/// The file to redirect attention to: the most-read file that was never
/// edited, other than the thrashed one.
pub open spec fn suggestion(ro: Seq<(Seq<char>, nat)>, thrashed: Seq<char>) -> Option<Seq<char>> {
    if exists|i: int| best_redirect_at(ro, thrashed, i) {
        Some(ro[choose|i: int| best_redirect_at(ro, thrashed, i)].0)
    } else {
        None
    }
}

/// The verdict of turn `idx`, given the state after its edits and its signals.
pub open spec fn spec_verdict(m: DetectorModel, idx: nat, sigs: Seq<SignalView>, sig: Seq<char>) -> VerdictView {
    let sev = max_severity(sigs);
    VerdictView {
        turn_index: idx,
        severity: sev,
        signals: sigs,
        intervention: if sev == Severity::Trip {
            let s = sigs[choose|i: int| first_trip_at(sigs, i)];
            Some(spec_intervention(s.path, sig, s.occurrences, s.distinct_states, suggestion(m.read_only, s.path)))
        } else {
            None
        },
    }
}

/// The reads of a turn applied to a state.
pub open spec fn after_reads(m: DetectorModel, t: TurnView) -> DetectorModel {
    DetectorModel {
        turn_index: m.turn_index + 1,
        read_only: reads_fold(m.read_only, m.edited, t.reads),
        reads_seen: m.reads_seen + t.reads.len(),
        ..m
    }
}

/// One turn: the new state and the turn's verdict.
pub open spec fn step(m: DetectorModel, t: TurnView) -> (DetectorModel, VerdictView) {
    let m1 = after_reads(m, t);
    let (m2, sigs) = edits_fold(m1, m.turn_index, t.kind, t.signature, t.edits);
    (m2, spec_verdict(m2, m.turn_index, sigs, t.signature))
}

// ---------------------------------------------------------------------------
// The executable detector
// ---------------------------------------------------------------------------

#[derive(Clone, Debug)]
struct Version {
    canonical: u64,
    content: String,
}

spec fn version_view(v: Version) -> VersionModel {
    VersionModel { canonical: v.canonical, content: v.content@ }
}

#[derive(Clone, Debug)]
struct FileHistory {
    path: String,
    versions: Vec<Version>,
}

spec fn versions_view(vs: Seq<Version>) -> Seq<VersionModel> {
    vs.map_values(|v: Version| version_view(v))
}

spec fn history_view(h: FileHistory) -> (Seq<char>, Seq<VersionModel>) {
    (h.path@, versions_view(h.versions@))
}

#[derive(Clone, Debug)]
struct Occurrence {
    path: String,
    canonical: u64,
    signature: String,
    count: u32,
    first_turn: usize,
}

spec fn occurrence_view(o: Occurrence) -> (OccKey, (nat, nat)) {
    (
        OccKey { path: o.path@, canonical: o.canonical, signature: o.signature@ },
        (o.count as nat, o.first_turn as nat),
    )
}

#[derive(Clone, Debug)]
struct ReadCount {
    path: String,
    count: u32,
}

spec fn read_view(r: ReadCount) -> (Seq<char>, nat) {
    (r.path@, r.count as nat)
}

#[derive(Clone, Debug)]
struct TripKey {
    path: String,
    canonical: u64,
    signature: String,
}

spec fn trip_view(t: TripKey) -> OccKey {
    OccKey { path: t.path@, canonical: t.canonical, signature: t.signature@ }
}

/// Streaming detector. Feed it turns in order via `ingest`; it returns a
/// verdict per turn and trips at most once per `(file, state, error)`.
#[derive(Clone, Debug)]
pub struct ThrashDetector {
    policy: ThrashPolicy,
    turn_index: usize,
    histories: Vec<FileHistory>,
    occurrences: Vec<Occurrence>,
    read_only: Vec<ReadCount>,
    edited: Vec<String>,
    tripped: Vec<TripKey>,
    edits_seen: u64,
    reads_seen: u64,
}

impl View for ThrashDetector {
    type V = DetectorModel;

    closed spec fn view(&self) -> DetectorModel {
        DetectorModel {
            policy: self.policy,
            turn_index: self.turn_index as nat,
            histories: self.histories@.map_values(|h: FileHistory| history_view(h)),
            occurrences: self.occurrences@.map_values(|o: Occurrence| occurrence_view(o)),
            read_only: self.read_only@.map_values(|r: ReadCount| read_view(r)),
            edited: Set::new(|p: Seq<char>| exists|i: int| 0 <= i < self.edited@.len() && self.edited@[i]@ == p),
            tripped: Set::new(|k: OccKey| exists|i: int| 0 <= i < self.tripped@.len() && trip_view(self.tripped@[i]) == k),
            edits_seen: self.edits_seen as nat,
            reads_seen: self.reads_seen as nat,
        }
    }
}

impl ThrashDetector {
    pub fn new(policy: ThrashPolicy) -> (d: Self)
        ensures
            d@ == initial_model(policy),
    {
        let d = ThrashDetector {
            policy,
            turn_index: 0,
            histories: Vec::new(),
            occurrences: Vec::new(),
            read_only: Vec::new(),
            edited: Vec::new(),
            tripped: Vec::new(),
            edits_seen: 0,
            reads_seen: 0,
        };
        assert(d@.edited =~= Set::empty());
        assert(d@.tripped =~= Set::empty());
        d
    }

    pub fn with_default_policy() -> (d: Self)
        ensures
            d@ == initial_model(ThrashPolicy { warn_at: 2, trip_at: 3, similarity_threshold: 9700, lookback: 12 }),
    {
        Self::new(ThrashPolicy::default())
    }

    pub fn policy(&self) -> (p: &ThrashPolicy)
        ensures
            *p == self@.policy,
    {
        &self.policy
    }

    fn is_edited(&self, path: &String) -> (r: bool)
        ensures
            r == self@.edited.contains(path@),
    {
        let n = self.edited.len();
        for i in 0..n
            invariant
                n == self.edited@.len(),
                forall|j: int| 0 <= j < i ==> self.edited@[j]@ != path@,
        {
            if self.edited[i] == *path {
                return true;
            }
        }
        false
    }

    fn find_read(&self, path: &String) -> (r: Option<usize>)
        ensures
            match r {
                Some(i) => i < self.read_only@.len() && assoc_index(self@.read_only, path@) == i,
                None => assoc_index(self@.read_only, path@) == -1,
            },
    {
        let n = self.read_only.len();
        for i in 0..n
            invariant
                n == self.read_only@.len(),
                forall|j: int| 0 <= j < i ==> self.read_only@[j].path@ != path@,
        {
            if self.read_only[i].path == *path {
                proof {
                    lemma_assoc_index_at(self@.read_only, path@, i as int);
                }
                return Some(i);
            }
        }
        proof {
            lemma_assoc_index_none(self@.read_only, path@);
        }
        None
    }

    fn find_history(&self, path: &String) -> (r: Option<usize>)
        ensures
            match r {
                Some(i) => i < self.histories@.len() && assoc_index(self@.histories, path@) == i,
                None => assoc_index(self@.histories, path@) == -1,
            },
    {
        let n = self.histories.len();
        for i in 0..n
            invariant
                n == self.histories@.len(),
                forall|j: int| 0 <= j < i ==> self.histories@[j].path@ != path@,
        {
            if self.histories[i].path == *path {
                proof {
                    lemma_assoc_index_at(self@.histories, path@, i as int);
                }
                return Some(i);
            }
        }
        proof {
            lemma_assoc_index_none(self@.histories, path@);
        }
        None
    }

    fn find_occurrence(&self, path: &String, canonical: u64, sig: &String) -> (r: Option<usize>)
        ensures
            match r {
                Some(i) => i < self.occurrences@.len() && assoc_index(
                    self@.occurrences,
                    OccKey { path: path@, canonical, signature: sig@ },
                ) == i,
                None => assoc_index(self@.occurrences, OccKey { path: path@, canonical, signature: sig@ }) == -1,
            },
    {
        let ghost key = OccKey { path: path@, canonical, signature: sig@ };
        let n = self.occurrences.len();
        for i in 0..n
            invariant
                n == self.occurrences@.len(),
                key == (OccKey { path: path@, canonical, signature: sig@ }),
                forall|j: int| 0 <= j < i ==> #[trigger] self@.occurrences[j].0 != key,
        {
            let o = &self.occurrences[i];
            assert(self@.occurrences[i as int] == occurrence_view(self.occurrences@[i as int]));
            if o.canonical == canonical && o.path == *path && o.signature == *sig {
                proof {
                    lemma_assoc_index_at(self@.occurrences, key, i as int);
                }
                return Some(i);
            }
        }
        proof {
            lemma_assoc_index_none(self@.occurrences, key);
        }
        None
    }

    fn is_tripped(&self, path: &String, canonical: u64, sig: &String) -> (r: bool)
        ensures
            r == self@.tripped.contains(OccKey { path: path@, canonical, signature: sig@ }),
    {
        let ghost key = OccKey { path: path@, canonical, signature: sig@ };
        let n = self.tripped.len();
        for i in 0..n
            invariant
                n == self.tripped@.len(),
                key == (OccKey { path: path@, canonical, signature: sig@ }),
                forall|j: int| 0 <= j < i ==> trip_view(#[trigger] self.tripped@[j]) != key,
        {
            let t = &self.tripped[i];
            if t.canonical == canonical && t.path == *path && t.signature == *sig {
                assert(trip_view(self.tripped@[i as int]) == key);
                return true;
            }
        }
        false
    }

    fn note_read(&mut self, r: &String)
        requires
            counts_bounded(old(self)@),
            old(self)@.reads_seen < u32::MAX,
        ensures
            final(self)@ == (DetectorModel {
                read_only: read_step(old(self)@.read_only, old(self)@.edited, r@),
                reads_seen: old(self)@.reads_seen + 1,
                ..old(self)@
            }),
            counts_bounded(final(self)@),
    {
        let ghost m = self@;
        if self.is_edited(r) {
            self.reads_seen = self.reads_seen + 1;
            assert(self@ =~= (DetectorModel { reads_seen: m.reads_seen + 1, ..m }));
            return;
        }
        match self.find_read(r) {
            Some(i) => {
                assert(m.read_only[i as int] == read_view(self.read_only@[i as int]));
                let c = self.read_only[i].count;
                self.read_only[i].count = c + 1;
                proof {
                    assert(self@.read_only =~= m.read_only.update(i as int, (r@, (c + 1) as nat)));
                }
            },
            None => {
                self.read_only.push(ReadCount { path: r.clone(), count: 1 });
                proof {
                    assert(self@.read_only =~= m.read_only.push((r@, 1nat)));
                }
            },
        }
        self.reads_seen = self.reads_seen + 1;
        assert(self@ =~= (DetectorModel {
            read_only: read_step(m.read_only, m.edited, r@),
            reads_seen: m.reads_seen + 1,
            ..m
        }));
    }

    fn mark_edited(&mut self, p: &String)
        ensures
            final(self)@ == (DetectorModel { edited: old(self)@.edited.insert(p@), ..old(self)@ }),
    {
        let ghost m = self@;
        if !self.is_edited(p) {
            self.edited.push(p.clone());
            proof {
                assert forall|q: Seq<char>| self@.edited.contains(q) <==> m.edited.insert(p@).contains(q) by {
                    if m.edited.contains(q) {
                        let i = choose|i: int| 0 <= i < old(self).edited@.len() && old(self).edited@[i]@ == q;
                        assert(self.edited@[i]@ == q);
                    }
                    if q == p@ {
                        assert(self.edited@[self.edited@.len() - 1]@ == q);
                    }
                    if self@.edited.contains(q) {
                        let i = choose|i: int| 0 <= i < self.edited@.len() && self.edited@[i]@ == q;
                        if i < old(self).edited@.len() {
                            assert(old(self).edited@[i]@ == q);
                        }
                    }
                }
            }
        }
        assert(self@ =~= (DetectorModel { edited: m.edited.insert(p@), ..m }));
    }

    fn remove_read(&mut self, p: &String)
        requires
            counts_bounded(old(self)@),
        ensures
            final(self)@ == (DetectorModel { read_only: assoc_remove(old(self)@.read_only, p@), ..old(self)@ }),
            counts_bounded(final(self)@),
    {
        let ghost m = self@;
        match self.find_read(p) {
            Some(i) => {
                self.read_only.remove(i);
                assert(self@.read_only =~= m.read_only.remove(i as int));
            },
            None => {},
        }
        assert(self@ =~= (DetectorModel { read_only: assoc_remove(m.read_only, p@), ..m }));
    }

    fn bump_occurrence(&mut self, path: &String, canonical: u64, sig: &String, idx: usize) -> (r: (u32, usize))
        requires
            counts_bounded(old(self)@),
            old(self)@.edits_seen < u32::MAX,
        ensures
            ({
                let key = OccKey { path: path@, canonical, signature: sig@ };
                let cf = bumped(old(self)@, key, idx as nat);
                &&& (r.0 as nat, r.1 as nat) == cf
                &&& final(self)@ == (DetectorModel {
                    occurrences: assoc_set(old(self)@.occurrences, key, cf),
                    edits_seen: old(self)@.edits_seen + 1,
                    ..old(self)@
                })
            }),
            counts_bounded(final(self)@),
    {
        let ghost m = self@;
        let ghost key = OccKey { path: path@, canonical, signature: sig@ };
        let r = match self.find_occurrence(path, canonical, sig) {
            Some(i) => {
                assert(m.occurrences[i as int] == occurrence_view(self.occurrences@[i as int]));
                assert(m.occurrences[i as int].1.0 <= m.edits_seen);
                let c = self.occurrences[i].count;
                let f = self.occurrences[i].first_turn;
                self.occurrences[i].count = c + 1;
                proof {
                    assert(self@.occurrences =~= m.occurrences.update(i as int, (key, ((c + 1) as nat, f as nat))));
                }
                (c + 1, f)
            },
            None => {
                self.occurrences.push(Occurrence {
                    path: path.clone(),
                    canonical,
                    signature: sig.clone(),
                    count: 1,
                    first_turn: idx,
                });
                proof {
                    assert(self@.occurrences =~= m.occurrences.push((key, (1nat, idx as nat))));
                }
                (1, idx)
            },
        };
        self.edits_seen = self.edits_seen + 1;
        assert(self@ =~= (DetectorModel {
            occurrences: assoc_set(m.occurrences, key, bumped(m, key, idx as nat)),
            edits_seen: m.edits_seen + 1,
            ..m
        }));
        r
    }

    fn classify_edit(&mut self, kind: ObservationKind, count: u32, path: &String, canonical: u64, sig: &String) -> (sev: Severity)
        ensures
            ({
                let key = OccKey { path: path@, canonical, signature: sig@ };
                &&& sev == classify(old(self)@, kind, key, count as nat)
                &&& final(self)@ == (DetectorModel {
                    tripped: if trips(old(self)@, kind, key, count as nat) {
                        old(self)@.tripped.insert(key)
                    } else {
                        old(self)@.tripped
                    },
                    ..old(self)@
                })
            }),
    {
        let ghost m = self@;
        let ghost key = OccKey { path: path@, canonical, signature: sig@ };
        if !kind.is_error() {
            return Severity::Okay;
        }
        if count >= self.policy.trip_at && !self.is_tripped(path, canonical, sig) {
            self.tripped.push(TripKey { path: path.clone(), canonical, signature: sig.clone() });
            proof {
                assert forall|q: OccKey| self@.tripped.contains(q) <==> m.tripped.insert(key).contains(q) by {
                    if m.tripped.contains(q) {
                        let i = choose|i: int| 0 <= i < old(self).tripped@.len() && trip_view(old(self).tripped@[i]) == q;
                        assert(trip_view(self.tripped@[i]) == q);
                    }
                    if q == key {
                        assert(trip_view(self.tripped@[self.tripped@.len() - 1]) == q);
                    }
                    if self@.tripped.contains(q) {
                        let i = choose|i: int| 0 <= i < self.tripped@.len() && trip_view(self.tripped@[i]) == q;
                        if i < old(self).tripped@.len() {
                            assert(trip_view(old(self).tripped@[i]) == q);
                        }
                    }
                }
                assert(self@ =~= (DetectorModel { tripped: m.tripped.insert(key), ..m }));
            }
            Severity::Trip
        } else if count >= self.policy.warn_at {
            Severity::Warn
        } else {
            Severity::Okay
        }
    }

    fn resolve(&self, hidx: Option<usize>, path: &String, fp: u64, content: &String) -> (c: u64)
        requires
            match hidx {
                Some(i) => i < self.histories@.len() && assoc_index(self@.histories, path@) == i,
                None => assoc_index(self@.histories, path@) == -1,
            },
            fp == spec_fingerprint(content@),
        ensures
            c == resolve_canonical(history_of(self@, path@), self@.policy, content@),
    {
        match hidx {
            None => {
                assert(history_of(self@, path@).subrange(0, 0) =~= Seq::<VersionModel>::empty());
                fp
            },
            Some(h) => {
                let vs = &self.histories[h].versions;
                let ghost hist = versions_view(vs@);
                assert(self@.histories[h as int] == history_view(self.histories@[h as int]));
                assert(hist == history_of(self@, path@));
                let len = vs.len();
                let lb = self.policy.lookback;
                let thr = self.policy.similarity_threshold;
                let start = if len >= lb { len - lb } else { 0 };
                assert(resolve_canonical(hist, self@.policy, content@)
                    == resolve_window(hist.subrange(start as int, len as int), fp, content@, thr as nat));
                let mut i = len;
                while i > start
                    invariant
                        start <= i <= len,
                        hist == history_of(self@, path@),
                        resolve_canonical(hist, self@.policy, content@)
                            == resolve_window(hist.subrange(start as int, len as int), fp, content@, thr as nat),
                        len == vs@.len(),
                        hist == versions_view(vs@),
                        thr == self@.policy.similarity_threshold,
                        fp == spec_fingerprint(content@),
                        resolve_window(hist.subrange(start as int, len as int), fp, content@, thr as nat)
                            == resolve_window(hist.subrange(start as int, i as int), fp, content@, thr as nat),
                    decreases i,
                {
                    let ghost w = hist.subrange(start as int, i as int);
                    assert(w.last() == version_view(vs@[i - 1]));
                    assert(w.drop_last() =~= hist.subrange(start as int, i - 1));
                    let v = &vs[i - 1];
                    if v.canonical == fp {
                        return v.canonical;
                    }
                    if is_similar(v.content.as_str(), content.as_str(), thr) {
                        return v.canonical;
                    }
                    i = i - 1;
                }
                assert(hist.subrange(start as int, i as int).len() == 0);
                fp
            },
        }
    }

    fn change_vs_last(&self, hidx: Option<usize>, path: &String, content: &String) -> (c: ChangeRatio)
        requires
            match hidx {
                Some(i) => i < self.histories@.len() && assoc_index(self@.histories, path@) == i,
                None => assoc_index(self@.histories, path@) == -1,
            },
        ensures
            (c.changed as nat, c.total as nat) == change_of(history_of(self@, path@), content@),
            c.changed <= c.total,
            c.total > 0,
    {
        match hidx {
            None => ChangeRatio { changed: 1, total: 1 },
            Some(h) => {
                let vs = &self.histories[h].versions;
                assert(self@.histories[h as int] == history_view(self.histories@[h as int]));
                let len = vs.len();
                if len == 0 {
                    ChangeRatio { changed: 1, total: 1 }
                } else {
                    let p = similarity_parts(vs[len - 1].content.as_str(), content.as_str());
                    assert(versions_view(vs@).last() == version_view(vs@[len - 1]));
                    if p.length == 0 {
                        ChangeRatio { changed: 0, total: 1 }
                    } else {
                        ChangeRatio { changed: p.distance, total: p.length }
                    }
                }
            },
        }
    }

    fn add_version(&mut self, hidx: Option<usize>, path: &String, canonical: u64, content: &String) -> (h: usize)
        requires
            match hidx {
                Some(i) => i < old(self).histories@.len() && assoc_index(old(self)@.histories, path@) == i,
                None => assoc_index(old(self)@.histories, path@) == -1,
            },
        ensures
            final(self)@ == (DetectorModel {
                histories: assoc_set(
                    old(self)@.histories,
                    path@,
                    history_of(old(self)@, path@).push(VersionModel { canonical, content: content@ }),
                ),
                ..old(self)@
            }),
            h < final(self).histories@.len(),
            versions_view(final(self).histories@[h as int].versions@)
                == history_of(old(self)@, path@).push(VersionModel { canonical, content: content@ }),
    {
        let ghost m = self@;
        let ghost nv = VersionModel { canonical, content: content@ };
        match hidx {
            Some(h) => {
                assert(m.histories[h as int] == history_view(self.histories@[h as int]));
                self.histories[h].versions.push(Version { canonical, content: content.clone() });
                proof {
                    assert(versions_view(self.histories@[h as int].versions@) =~= history_of(m, path@).push(nv));
                    assert(self@.histories =~= m.histories.update(h as int, (path@, history_of(m, path@).push(nv))));
                    assert(self@ =~= (DetectorModel {
                        histories: assoc_set(m.histories, path@, history_of(m, path@).push(nv)),
                        ..m
                    }));
                }
                h
            },
            None => {
                let mut vs: Vec<Version> = Vec::new();
                vs.push(Version { canonical, content: content.clone() });
                self.histories.push(FileHistory { path: path.clone(), versions: vs });
                let h = self.histories.len() - 1;
                proof {
                    assert(versions_view(self.histories@[h as int].versions@) =~= seq![nv]);
                    assert(history_of(m, path@) =~= Seq::<VersionModel>::empty());
                    assert(Seq::<VersionModel>::empty().push(nv) =~= seq![nv]);
                    assert(self@.histories =~= m.histories.push((path@, seq![nv])));
                    assert(self@ =~= (DetectorModel {
                        histories: assoc_set(m.histories, path@, history_of(m, path@).push(nv)),
                        ..m
                    }));
                }
                h
            },
        }
    }
}

impl ThrashDetector {
    fn ingest_edit(&mut self, idx: usize, kind: ObservationKind, sig: &String, e: &FileEdit) -> (s: Signal)
        requires
            counts_bounded(old(self)@),
            old(self)@.edits_seen < u32::MAX,
        ensures
            (final(self)@, s@) == edit_step(old(self)@, idx as nat, kind, sig@, e@),
            counts_bounded(final(self)@),
    {
        let ghost m = self@;
        let path = &e.path;
        let content = &e.content;
        let hidx = self.find_history(path);
        let change = self.change_vs_last(hidx, path, content);
        let fp = fingerprint(content.as_str());
        let canonical = self.resolve(hidx, path, fp, content);
        let ghost key = OccKey { path: path@, canonical, signature: sig@ };
        assert(key == edit_key(m, sig@, e@));
        let (count, first) = self.bump_occurrence(path, canonical, sig, idx);
        let severity = self.classify_edit(kind, count, path, canonical, sig);
        let h = self.add_version(hidx, path, canonical, content);
        let distinct = distinct_in(&self.histories[h].versions);
        self.mark_edited(path);
        self.remove_read(path);
        let first_seen = if count > 1 { Some(first) } else { None };
        let message = render_signal_message(path.as_str(), kind, count, first_seen, change);
        let s = Signal {
            path: path.clone(),
            occurrences: count,
            observation: kind,
            first_seen_turn: first_seen,
            distinct_states: distinct,
            change_ratio: change,
            severity,
            message,
        };
        proof {
            let (m2, sv) = edit_step(m, idx as nat, kind, sig@, e@);
            assert(self@ =~= m2);
            assert(s@ =~= sv);
        }
        s
    }
}

pub proof fn lemma_best_redirect_unique(ro: Seq<(Seq<char>, nat)>, t: Seq<char>, b: int)
    requires
        best_redirect_at(ro, t, b),
    ensures
        suggestion(ro, t) == Some(ro[b].0),
{
    let c = choose|c: int| best_redirect_at(ro, t, c);
    assert(best_redirect_at(ro, t, c));
    if c < b {
        assert(ro[c].1 < ro[b].1);
        assert(ro[b].1 <= ro[c].1);
    } else if b < c {
        assert(ro[b].1 < ro[c].1);
        assert(ro[c].1 <= ro[b].1);
    }
}

pub proof fn lemma_first_trip_unique(sigs: Seq<SignalView>, k: int)
    requires
        first_trip_at(sigs, k),
    ensures
        (choose|i: int| first_trip_at(sigs, i)) == k,
{
    let c = choose|c: int| first_trip_at(sigs, c);
    assert(first_trip_at(sigs, c));
    if c < k {
        assert(sigs[c].severity != Severity::Trip);
    } else if k < c {
        assert(sigs[k].severity != Severity::Trip);
    }
}

fn rank(s: Severity) -> (r: u8)
    ensures
        r == severity_rank(s),
{
    match s {
        Severity::Okay => 0,
        Severity::Warn => 1,
        Severity::Trip => 2,
    }
}

impl ThrashDetector {
    fn suggest_redirect(&self, thrashed: &String) -> (r: Option<String>)
        ensures
            match r {
                Some(p) => suggestion(self@.read_only, thrashed@) == Some(p@),
                None => suggestion(self@.read_only, thrashed@) is None,
            },
    {
        let ghost ro = self@.read_only;
        let n = self.read_only.len();
        let mut best: Option<usize> = None;
        for i in 0..n
            invariant
                n == self.read_only@.len(),
                ro == self@.read_only,
                match best {
                    Some(b) => {
                        &&& b < i
                        &&& ro[b as int].0 != thrashed@
                        &&& forall|j: int| 0 <= j < i && ro[j].0 != thrashed@ ==> ro[j].1 <= ro[b as int].1
                        &&& forall|j: int| 0 <= j < b && ro[j].0 != thrashed@ ==> ro[j].1 < ro[b as int].1
                    },
                    None => forall|j: int| 0 <= j < i ==> ro[j].0 == thrashed@,
                },
        {
            assert(ro[i as int] == read_view(self.read_only@[i as int]));
            if self.read_only[i].path != *thrashed {
                match best {
                    None => {
                        best = Some(i);
                    },
                    Some(b) => {
                        assert(ro[b as int] == read_view(self.read_only@[b as int]));
                        if self.read_only[i].count > self.read_only[b].count {
                            best = Some(i);
                        }
                    },
                }
            }
        }
        match best {
            Some(b) => {
                proof {
                    assert(best_redirect_at(ro, thrashed@, b as int));
                    lemma_best_redirect_unique(ro, thrashed@, b as int);
                    assert(ro[b as int] == read_view(self.read_only@[b as int]));
                }
                Some(self.read_only[b].path.clone())
            },
            None => {
                assert forall|i: int| !best_redirect_at(ro, thrashed@, i) by {}
                None
            },
        }
    }

    fn assemble_verdict(&self, idx: usize, signals: Vec<Signal>, sig: &String) -> (v: Verdict)
        ensures
            v@ == spec_verdict(self@, idx as nat, signals@.map_values(|s: Signal| s@), sig@),
    {
        let ghost sv = signals@.map_values(|s: Signal| s@);
        let n = signals.len();
        let mut sev = Severity::Okay;
        let mut first_trip: Option<usize> = None;
        for i in 0..n
            invariant
                n == signals@.len(),
                sv == signals@.map_values(|s: Signal| s@),
                sev == max_severity(sv.take(i as int)),
                (sev == Severity::Trip) == (first_trip is Some),
                match first_trip {
                    Some(k) => k < i && first_trip_at(sv, k as int),
                    None => forall|j: int| 0 <= j < i ==> sv[j].severity != Severity::Trip,
                },
        {
            let si = signals[i].severity;
            assert(sv.take(i + 1).drop_last() =~= sv.take(i as int));
            assert(sv.take(i + 1).last() == sv[i as int]);
            if rank(si) > rank(sev) {
                sev = si;
            }
            if si == Severity::Trip && first_trip.is_none() {
                first_trip = Some(i);
            }
        }
        assert(sv.take(n as int) =~= sv);
        let intervention = match first_trip {
            Some(k) => {
                proof {
                    lemma_first_trip_unique(sv, k as int);
                }
                let s = &signals[k];
                let sugg = self.suggest_redirect(&s.path);
                Some(Intervention::build(s.path.as_str(), sig.as_str(), s.occurrences, s.distinct_states, sugg))
            },
            None => None,
        };
        let v = Verdict { turn_index: idx, severity: sev, signals, intervention };
        assert(v@ =~= spec_verdict(self@, idx as nat, sv, sig@));
        v
    }

    /// Ingest one turn and return its verdict.
    pub fn ingest(&mut self, turn: &Turn) -> (v: Verdict)
        requires
            can_ingest(old(self)@, turn@),
        ensures
            (final(self)@, v@) == step(old(self)@, turn@),
            counts_bounded(final(self)@),
    {
        let ghost m = self@;
        let ghost tv = turn@;
        let idx = self.turn_index;
        self.turn_index = idx + 1;
        let nr = turn.reads.len();
        assert(tv.reads.take(0) =~= Seq::<Seq<char>>::empty());
        for i in 0..nr
            invariant
                nr == turn.reads@.len(),
                tv == turn@,
                m.reads_seen + nr <= u32::MAX,
                counts_bounded(self@),
                self@ == (DetectorModel {
                    turn_index: m.turn_index + 1,
                    read_only: reads_fold(m.read_only, m.edited, tv.reads.take(i as int)),
                    reads_seen: m.reads_seen + i as nat,
                    ..m
                }),
        {
            assert(tv.reads.take(i + 1).drop_last() =~= tv.reads.take(i as int));
            assert(tv.reads.take(i + 1).last() == turn.reads@[i as int]@);
            self.note_read(&turn.reads[i]);
        }
        assert(tv.reads.take(nr as int) =~= tv.reads);
        let ghost m1 = self@;
        assert(m1 == after_reads(m, tv));
        let mut signals: Vec<Signal> = Vec::new();
        let ne = turn.edits.len();
        let kind = turn.observation.kind;
        assert(tv.edits.take(0) =~= Seq::<EditView>::empty());
        assert(signals@.map_values(|s: Signal| s@) =~= Seq::<SignalView>::empty());
        for k in 0..ne
            invariant
                ne == turn.edits@.len(),
                tv == turn@,
                kind == tv.kind,
                idx == m.turn_index,
                m.edits_seen + ne <= u32::MAX,
                counts_bounded(self@),
                self@.edits_seen == m.edits_seen + k,
                (self@, signals@.map_values(|s: Signal| s@)) == edits_fold(m1, idx as nat, kind, tv.signature, tv.edits.take(k as int)),
        {
            assert(tv.edits.take(k + 1).drop_last() =~= tv.edits.take(k as int));
            assert(tv.edits.take(k + 1).last() == turn.edits@[k as int]@);
            let ghost before = signals@.map_values(|s: Signal| s@);
            let s = self.ingest_edit(idx, kind, &turn.observation.signature, &turn.edits[k]);
            signals.push(s);
            assert(signals@.map_values(|s: Signal| s@) =~= before.push(s@));
        }
        assert(tv.edits.take(ne as int) =~= tv.edits);
        self.assemble_verdict(idx, signals, &turn.observation.signature)
    }
}

fn distinct_in(vs: &Vec<Version>) -> (n: usize)
    ensures
        n == distinct_states(versions_view(vs@)),
{
    let ghost hv = versions_view(vs@);
    let len = vs.len();
    let mut n: usize = 0;
    for i in 0..len
        invariant
            len == vs@.len(),
            hv == versions_view(vs@),
            n == distinct_states(hv.take(i as int)),
            n <= i,
    {
        let c = vs[i].canonical;
        let mut seen = false;
        for j in 0..i
            invariant
                i < len,
                len == vs@.len(),
                c == vs@[i as int].canonical,
                seen == exists|k: int| 0 <= k < j && vs@[k].canonical == c,
        {
            if vs[j].canonical == c {
                seen = true;
            }
        }
        proof {
            let t = hv.take(i + 1);
            assert(t.drop_last() =~= hv.take(i as int));
            assert(t.last() == version_view(vs@[i as int]));
            assert((exists|k: int| 0 <= k < t.drop_last().len() && t.drop_last()[k].canonical == t.last().canonical) == seen) by {
                if seen {
                    let k = choose|k: int| 0 <= k < i && vs@[k].canonical == c;
                    assert(t.drop_last()[k] == version_view(vs@[k]));
                }
                if exists|k: int| 0 <= k < t.drop_last().len() && t.drop_last()[k].canonical == t.last().canonical {
                    let k = choose|k: int| 0 <= k < t.drop_last().len() && t.drop_last()[k].canonical == t.last().canonical;
                    assert(t.drop_last()[k] == version_view(vs@[k]));
                }
            }
        }
        if !seen {
            n = n + 1;
        }
    }
    assert(hv.take(len as int) =~= hv);
    n
}

impl ThrashDetector {
    /// Whether every count is within its counter (always so for a detector
    /// built and fed through this API).
    fn counts_ok(&self) -> (r: bool)
        ensures
            r == counts_bounded(self@),
    {
        let n = self.occurrences.len();
        for i in 0..n
            invariant
                n == self.occurrences@.len(),
                forall|j: int| 0 <= j < i ==> #[trigger] self@.occurrences[j].1.0 <= self@.edits_seen,
        {
            assert(self@.occurrences[i as int] == occurrence_view(self.occurrences@[i as int]));
            if self.occurrences[i].count as u64 > self.edits_seen {
                assert(self@.occurrences[i as int].1.0 > self@.edits_seen);
                return false;
            }
        }
        let k = self.read_only.len();
        for i in 0..k
            invariant
                k == self.read_only@.len(),
                forall|j: int| 0 <= j < self@.occurrences.len() ==> #[trigger] self@.occurrences[j].1.0 <= self@.edits_seen,
                forall|j: int| 0 <= j < i ==> #[trigger] self@.read_only[j].1 <= self@.reads_seen,
        {
            assert(self@.read_only[i as int] == read_view(self.read_only@[i as int]));
            if self.read_only[i].count as u64 > self.reads_seen {
                assert(self@.read_only[i as int].1 > self@.reads_seen);
                return false;
            }
        }
        true
    }

    /// Whether `turn` can be ingested without a counter overflowing.
    pub fn can_ingest_turn(&self, turn: &Turn) -> (r: bool)
        ensures
            r == can_ingest(self@, turn@),
    {
        if !self.counts_ok() {
            return false;
        }
        let e = turn.edits.len() as u64;
        let rd = turn.reads.len() as u64;
        self.turn_index < usize::MAX && e <= 4294967295u64 && self.edits_seen <= 4294967295u64 - e
            && rd <= 4294967295u64 && self.reads_seen <= 4294967295u64 - rd
    }

    /// Ingest one turn when its counters fit; leave the detector unchanged and
    /// return `None` when they would overflow.
    pub fn try_ingest(&mut self, turn: &Turn) -> (r: Option<Verdict>)
        ensures
            match r {
                Some(v) => can_ingest(old(self)@, turn@) && (final(self)@, v@) == step(old(self)@, turn@),
                None => !can_ingest(old(self)@, turn@) && final(self)@ == old(self)@,
            },
    {
        if self.can_ingest_turn(turn) {
            Some(self.ingest(turn))
        } else {
            None
        }
    }
}

} // verus!
