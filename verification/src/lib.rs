//! ThrashGuard: a behavioural circuit breaker for AI coding agents.
//!
//! The engine consumes observable agent turns (file edits, reads, and the
//! outcome observed afterwards) and emits a verdict per turn; on a confirmed
//! cycle it produces an intervention, a trusted operator note to inject into
//! the conversation.
pub mod text;
pub mod assoc;
pub mod fingerprint;
pub mod model;
pub mod policy;
pub mod intervention;
pub mod detector;
pub mod laws;
pub mod json;
pub mod anthropic;
pub mod proxy;
pub mod tui;
pub mod demo;

pub use detector::{ChangeRatio, Severity, Signal, ThrashDetector, Verdict};
pub use fingerprint::{fingerprint, levenshtein, similarity_parts, EditRatio};
pub use intervention::Intervention;
pub use model::{FileEdit, Observation, ObservationKind, Scenario, Turn};
pub use policy::ThrashPolicy;
pub use text::normalize;
pub use json::Json;
