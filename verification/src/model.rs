//! Data model for the agent's observable behaviour: which files it wrote,
//! which it read, and the outcome it then observed.
use vstd::prelude::*;

verus! {

/// Coarse classification of an observed outcome.
#[derive(Clone, Copy, Debug, PartialEq, Eq, Structural)]
pub enum ObservationKind {
    /// A failure: test failure, compile error, non-zero exit, panic.
    Error,
    /// A clean result: tests pass, build succeeds.
    Success,
    /// Neither clearly good nor bad (informational command output).
    Neutral,
}

impl ObservationKind {
    pub fn is_error(self) -> (r: bool)
        ensures
            r == (self == ObservationKind::Error),
    {
        match self {
            ObservationKind::Error => true,
            _ => false,
        }
    }
}

/// The result the agent observed after acting on a turn.
#[derive(Clone, Debug)]
pub struct Observation {
    pub kind: ObservationKind,
    /// Normalised signature of the result; two turns with the same signature
    /// produced "the same outcome".
    pub signature: String,
}

impl View for Observation {
    type V = (ObservationKind, Seq<char>);

    open spec fn view(&self) -> (ObservationKind, Seq<char>) {
        (self.kind, self.signature@)
    }
}

impl Observation {
    pub fn error(signature: &str) -> (o: Observation)
        ensures
            o.kind == ObservationKind::Error,
            o.signature@ == signature@,
    {
        Observation { kind: ObservationKind::Error, signature: signature.to_owned() }
    }

    pub fn success() -> (o: Observation)
        ensures
            o.kind == ObservationKind::Success,
            o.signature@ == Seq::<char>::empty(),
    {
        Observation { kind: ObservationKind::Success, signature: String::new() }
    }

    pub fn neutral(signature: &str) -> (o: Observation)
        ensures
            o.kind == ObservationKind::Neutral,
            o.signature@ == signature@,
    {
        Observation { kind: ObservationKind::Neutral, signature: signature.to_owned() }
    }
}

/// A single file write: the full post-edit body (or the replacement
/// fragment that the proxy could recover).
#[derive(Clone, Debug)]
pub struct FileEdit {
    pub path: String,
    pub content: String,
}

/// An edit as plain character sequences.
pub struct EditView {
    pub path: Seq<char>,
    pub content: Seq<char>,
}

impl View for FileEdit {
    type V = EditView;

    open spec fn view(&self) -> EditView {
        EditView { path: self.path@, content: self.content@ }
    }
}

/// One observable agent step: what it changed, what it inspected, and the
/// result it then observed.
#[derive(Clone, Debug)]
pub struct Turn {
    /// Files written or edited during this turn.
    pub edits: Vec<FileEdit>,
    /// Files merely read during this turn (paths only).
    pub reads: Vec<String>,
    /// The result the agent observed after acting.
    pub observation: Observation,
    /// Optional human-readable label.
    pub note: Option<String>,
}

/// A turn as plain values.
#[verifier::ext_equal]
pub struct TurnView {
    pub edits: Seq<EditView>,
    pub reads: Seq<Seq<char>>,
    pub kind: ObservationKind,
    pub signature: Seq<char>,
    pub note: Option<Seq<char>>,
}

pub open spec fn opt_string_view(o: Option<String>) -> Option<Seq<char>> {
    match o {
        Some(s) => Some(s@),
        None => None,
    }
}

impl View for Turn {
    type V = TurnView;

    open spec fn view(&self) -> TurnView {
        TurnView {
            edits: self.edits@.map_values(|e: FileEdit| e@),
            reads: self.reads@.map_values(|r: String| r@),
            kind: self.observation.kind,
            signature: self.observation.signature@,
            note: opt_string_view(self.note),
        }
    }
}

impl Turn {
    /// A single-file edit followed by an error.
    pub fn edit_then_error(path: &str, content: &str, error: &str) -> (t: Turn)
        ensures
            t@.edits.len() == 1,
            t@.edits[0].path == path@,
            t@.edits[0].content == content@,
            t@.reads.len() == 0,
            t@.kind == ObservationKind::Error,
            t@.signature == error@,
            t@.note is None,
    {
        let mut edits: Vec<FileEdit> = Vec::new();
        edits.push(FileEdit { path: path.to_owned(), content: content.to_owned() });
        Turn {
            edits,
            reads: Vec::new(),
            observation: Observation::error(error),
            note: None,
        }
    }
}

/// A loadable demo/replay scenario: a labelled sequence of turns.
#[derive(Clone, Debug)]
pub struct Scenario {
    pub scenario: String,
    pub description: String,
    pub turns: Vec<Turn>,
}

/// A scenario as plain values.
#[verifier::ext_equal]
pub struct ScenarioView {
    pub scenario: Seq<char>,
    pub description: Seq<char>,
    pub turns: Seq<TurnView>,
}

impl View for Scenario {
    type V = ScenarioView;

    open spec fn view(&self) -> ScenarioView {
        ScenarioView {
            scenario: self.scenario@,
            description: self.description@,
            turns: self.turns@.map_values(|t: Turn| t@),
        }
    }
}

} // verus!
