//! Timers of text search.
use super::{Timer, TimerStatus};
use vstd::prelude::*;
use vstd::string::*;

verus! {

/// Time to fetch the next document in a search query iterator.
pub fn iterator_next_timer() -> (r: Timer)
    ensures
        r@ == super::status_timing("DATABASE_SEARCH_ITERATOR_NEXT_SECONDS"@, super::unlabelled()),
{
    Timer { metric: "DATABASE_SEARCH_ITERATOR_NEXT_SECONDS", labels: super::no_labels(), status: TimerStatus::ErrorUnlessFinished }
}

} // verus!
