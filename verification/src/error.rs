//! The unified error surface for percentile queries.

use vstd::prelude::*;

verus! {

/// Every percentile-query failure, of either backend kind, is reported
/// through this one closed taxonomy, so callers never match on a
/// backend-specific error shape.
#[derive(Clone, Copy, Debug, PartialEq, Eq, Structural)]
pub enum SummaryError {
    /// The percentile argument lies outside the accepted range.
    InvalidPercentile,
    /// No observation has been recorded yet; absence of data is reported
    /// distinctly rather than as a meaningless numeric default.
    InsufficientData,
    /// An unexpected internal failure of a backend.
    BackendInternal,
}

} // verus!
