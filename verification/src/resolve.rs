//! Failures of artifact resolution.
//!
//! The build tooling resolves manifest references to local build artifacts,
//! building them on demand.  The distinct ways that can fail are carried
//! here as plain values; the filesystem and process work stays with the
//! tooling around the library.

use vstd::prelude::*;

verus! {

/// Why a manifest reference could not be resolved to a local artifact.
#[derive(Clone, Debug, PartialEq, Eq)]
pub enum ResolveError {
    /// An input/output failure while copying or linking the artifact.
    Io,
    /// The reference names a scheme the tooling does not implement.
    UnimplementedScheme(String),
    /// A query parameter (first field) had a value outside the accepted
    /// set (second field, the accepted values joined with `|`).
    InvalidQueryParameter(String, String),
    /// Building the named artifact failed with the given exit code.
    BuildFailed(String, i32),
}

} // verus!
