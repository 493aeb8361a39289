//! Tunable thresholds that govern when the breaker warns versus trips.
use vstd::prelude::*;

verus! {

/// Policy controlling the breaker's sensitivity.
///
/// The breaker counts how many times the agent produces the same file state
/// paired with the same failing outcome. It warns at `warn_at` occurrences
/// and trips at `trip_at`.
#[derive(Clone, Copy, Debug, PartialEq, Eq, Structural)]
pub struct ThrashPolicy {
    /// Occurrences of an identical `(file-state, error)` pair at which to warn.
    pub warn_at: u32,
    /// Occurrences at which to trip the breaker and emit an intervention.
    pub trip_at: u32,
    /// Content similarity, in ten-thousandths (`10000` is identical modulo
    /// whitespace), at or above which two file versions are the same state.
    pub similarity_threshold: u32,
    /// How many recent versions of a file to compare against when resolving
    /// near-duplicates.
    pub lookback: usize,
}

impl Default for ThrashPolicy {
    /// Warn at 2, trip at 3, 97% similarity, 12 versions of lookback.
    fn default() -> (p: Self)
        ensures
            p.warn_at == 2,
            p.trip_at == 3,
            p.similarity_threshold == 9700,
            p.lookback == 12,
    {
        ThrashPolicy { warn_at: 2, trip_at: 3, similarity_threshold: 9700, lookback: 12 }
    }
}

impl ThrashPolicy {
    /// A stricter policy that trips on the first repeat; otherwise the defaults.
    pub fn aggressive() -> (p: Self)
        ensures
            p.warn_at == 1,
            p.trip_at == 2,
            p.similarity_threshold == 9700,
            p.lookback == 12,
    {
        let d = ThrashPolicy::default();
        ThrashPolicy { warn_at: 1, trip_at: 2, ..d }
    }
}

} // verus!
