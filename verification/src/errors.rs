use vstd::prelude::*;

verus! {

/// Per-pipeline error taxonomy. Every variant is local to the transaction
/// being analyzed; none corrupts the market store or other pipelines.
#[derive(Clone, Copy, PartialEq, Eq, Structural, Debug)]
pub enum AnalysisError {
    /// The intent cannot be resolved against the known venues (unknown
    /// venue, mismatched tokens, or an amount outside the model's range):
    /// skip the transaction.
    DecodeError,
    /// The venue's cached reserves are older than the freshness bound, or
    /// the venue is marked unusable: skip rather than act on stale data.
    StaleStateError,
    /// The search exhausted the hop bound without a profitable cycle;
    /// normal, not a failure.
    NoCycleFound,
    /// The verifier's exact re-check found no input amount whose profit
    /// clears the estimated execution cost; normal.
    NotProfitable,
    /// The bounded search budget was cut short; the best-so-far result is
    /// degraded but the pipeline still terminates.
    SearchTimeout,
    /// The external feed dropped; ingestion pauses and surfaces this fault
    /// instead of crashing.
    FeedDisconnected,
}

impl AnalysisError {
    /// A short stable name for logs and observability records.
    pub fn label(&self) -> &'static str {
        match self {
            AnalysisError::DecodeError => "decode_error",
            AnalysisError::StaleStateError => "stale_state",
            AnalysisError::NoCycleFound => "no_cycle",
            AnalysisError::NotProfitable => "not_profitable",
            AnalysisError::SearchTimeout => "search_timeout",
            AnalysisError::FeedDisconnected => "feed_disconnected",
        }
    }
}

} // verus!
