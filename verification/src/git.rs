//! The version-control gateway boundary. The gateway itself — resolving
//! the repository root, the head revision, a file's latest revision and
//! diff text — shells out to the VCS and lives with the caller; the core
//! takes its answers as plain values.

use vstd::prelude::*;

verus! {

/// The gateway's namespace marker. The commands themselves run outside
/// the verified core, which receives only their resolved answers.
pub fn git() {
}

} // verus!
