//! Taking in what was built in the background: search indexes, table summaries,
//! indexes kept in memory.
use super::{CommitError, Committer, CommitterState, Refusal, SnapshotId};
use super::publish;
use crate::metrics;
use crate::metrics::MetricsRecorder;
use vstd::prelude::*;
use vstd::string::*;

verus! {

/// Said when indexes that are still being built are to be brought up to date.
pub open spec fn still_building(vector: bool) -> Refusal {
    super::refused(
        if vector {
            "Trying to update vector index while it's still bootstrapping"@
        } else {
            "Trying to update search index while it's still bootstrapping"@
        },
    )
}

/// How much has been taken in while indexes are brought up to date.
#[derive(Clone, Copy, Debug, PartialEq, Eq, Structural)]
pub struct IndexUpdate {
    pub num_revisions: usize,
    pub total_size: usize,
}

impl IndexUpdate {
    /// Begins to bring indexes up to date, which takes both of them to have been
    /// built.
    pub fn start(text_is_bootstrapping: bool, vector_is_bootstrapping: bool) -> (r: Result<
        Self,
        CommitError,
    >)
        ensures
            super::outcome(r) == (if text_is_bootstrapping {
                Err(still_building(false))
            } else if vector_is_bootstrapping {
                Err(still_building(true))
            } else {
                Ok(IndexUpdate { num_revisions: 0, total_size: 0 })
            }),
    {
        if text_is_bootstrapping {
            return Err(
                CommitError::new(
                    "Trying to update search index while it's still bootstrapping".to_owned(),
                ),
            );
        }
        if vector_is_bootstrapping {
            return Err(
                CommitError::new(
                    "Trying to update vector index while it's still bootstrapping".to_owned(),
                ),
            );
        }
        Ok(IndexUpdate { num_revisions: 0, total_size: 0 })
    }

    /// Counts one revision, with the size of the document, if there still is one.
    pub fn count(&mut self, size: Option<usize>)
        requires
            old(self).num_revisions < usize::MAX,
            size matches Some(n) ==> old(self).total_size + n <= usize::MAX,
        ensures
            final(self).num_revisions == old(self).num_revisions + 1,
            final(self).total_size == old(self).total_size + match size {
                Some(n) => n as int,
                None => 0,
            },
    {
        self.num_revisions = self.num_revisions + 1;
        if let Some(n) = size {
            self.total_size = self.total_size + n;
        }
    }

    /// Records how much was taken in.
    pub fn finish(self, metrics: &mut MetricsRecorder)
        ensures
            final(metrics)@ == old(metrics)@.push(
                metrics::counted(
                    "SEARCH_AND_VECTOR_BOOTSTRAP_COMMITTER_UPDATE_REVISIONS_TOTAL"@,
                    self.num_revisions as int,
                    metrics::unlabelled(),
                ),
            ).push(
                metrics::counted(
                    "SEARCH_AND_VECTOR_BOOTSTRAP_COMMITTER_UPDATE_REVISIONS_BYTES"@,
                    self.total_size as int,
                    metrics::unlabelled(),
                ),
            ),
    {
        metrics::finish_bootstrap_update(metrics, self.num_revisions, self.total_size);
    }
}

impl Committer {
    /// The revisions that indexes built up to `bootstrap_ts` lack: those after
    /// the first timestamp, up to the second. None, if they lack nothing.
    pub fn revisions_since_bootstrap(&self, bootstrap_ts: u64) -> (r: Option<(u64, u64)>)
        ensures
            r == (if self@.latest_ts > bootstrap_ts {
                Some((bootstrap_ts, self@.latest_ts))
            } else {
                None
            }),
    {
        if self.latest_ts > bootstrap_ts {
            Some((bootstrap_ts, self.latest_ts))
        } else {
            None
        }
    }

    /// Replaces the latest snapshot, and those of pending commits that build on
    /// it, by ones with the newly built parts. The committer does nothing else
    /// meanwhile, so the parts are those of the latest snapshot still.
    pub fn overwrite_latest_snapshot(
        &mut self,
        built_at: u64,
        snapshot: SnapshotId,
        pending: &Vec<SnapshotId>,
    )
        requires
            built_at == old(self)@.latest_ts,
            pending@.len() == old(self)@.pending.len(),
        ensures
            final(self)@ == (CommitterState {
                latest_snapshot: snapshot,
                pending: publish::rebased(old(self)@.pending, pending@),
                ..old(self)@
            }),
    {
        self.rebase_pending(pending);
        self.latest_snapshot = snapshot;
    }
}

} // verus!
