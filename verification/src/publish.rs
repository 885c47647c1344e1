//! The index publisher adapter's error discipline. Publishing is a full
//! replace — clear the downstream index, then insert the whole catalog —
//! and a failure of either step must stay distinguishable for diagnosis.
//! The network calls themselves are the caller's business; it reports
//! which steps succeeded.

use vstd::prelude::*;

verus! {

/// Why a publish cycle left the index behind, step by step.
#[derive(Clone, Copy, Debug, PartialEq, Eq, Structural)]
pub enum PublishError {
    /// The target index could not be obtained or created; the index is out
    /// of reach and unchanged.
    IndexUnavailable,
    /// Clearing the old documents failed; the index still holds the
    /// previous catalog.
    DeleteFailed,
    /// Inserting the new documents failed; the index was left empty.
    InsertFailed,
}

/// The status a full-replace publish ends in, given which steps succeeded;
/// the first failing step decides.
pub open spec fn publish_status(index_ok: bool, delete_ok: bool, insert_ok: bool) -> Result<
    (),
    PublishError,
> {
    if !index_ok {
        Err(PublishError::IndexUnavailable)
    } else if !delete_ok {
        Err(PublishError::DeleteFailed)
    } else if !insert_ok {
        Err(PublishError::InsertFailed)
    } else {
        Ok(())
    }
}

/// Classify one publish attempt from the outcome of its three steps. An
/// error never rolls anything back: the catalog on disk stays
/// authoritative and the next successful cycle corrects the index.
pub fn classify_publish(index_ok: bool, delete_ok: bool, insert_ok: bool) -> (r: Result<
    (),
    PublishError,
>)
    ensures
        r == publish_status(index_ok, delete_ok, insert_ok),
{
    if !index_ok {
        Err(PublishError::IndexUnavailable)
    } else if !delete_ok {
        Err(PublishError::DeleteFailed)
    } else if !insert_ok {
        Err(PublishError::InsertFailed)
    } else {
        Ok(())
    }
}

} // verus!
