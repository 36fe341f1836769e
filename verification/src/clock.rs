//! The one clock read the ledger makes: the creation timestamp written
//! into a fresh ledger's metadata.

use vstd::prelude::*;

verus! {

/// Relies on chrono's `Utc::now` and `DateTime::to_rfc3339`: the current
/// time as an RFC 3339 string. Nothing is promised of the value itself —
/// it depends on the clock — only that the RFC 3339 writer emits digits
/// and punctuation, never a newline, so the value sits on one line of the
/// persisted document.
#[verifier::external_body]
pub fn now_rfc3339() -> (r: String)
    ensures
        forall|i: int| 0 <= i < r@.len() ==> r@[i] != '\n',
{
    chrono::Utc::now().to_rfc3339()
}

} // verus!
