//! Timers of vector search.
use super::{Timer, TimerStatus};
use vstd::prelude::*;
use vstd::string::*;

verus! {

/// Time to run a single vector search, not including retries due to
/// bootstrapping.
pub fn vector_search_timer() -> (r: Timer)
    ensures
        r@ == super::status_timing("DATABASE_VECTOR_SEARCH_QUERY_SECONDS"@, super::unlabelled()),
{
    Timer { metric: "DATABASE_VECTOR_SEARCH_QUERY_SECONDS", labels: super::no_labels(), status: TimerStatus::ErrorUnlessFinished }
}

/// Time to run a vector search, including retries.
pub fn vector_search_with_retries_timer() -> (r: Timer)
    ensures
        r@ == super::cancelable_timing("DATABASE_VECTOR_SEARCH_WITH_RETRIES_QUERY_SECONDS"@, super::unlabelled()),
{
    Timer { metric: "DATABASE_VECTOR_SEARCH_WITH_RETRIES_QUERY_SECONDS", labels: super::no_labels(), status: TimerStatus::CanceledUnlessFinished }
}

} // verus!
