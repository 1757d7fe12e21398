//! Schema versioning for a persistent backing store.
//!
//! A persistent deployment records a schema version; on start-up the
//! recorded version decides whether the store can be used as it is, must
//! first be installed, or must be refused. The decision is pure and
//! verified here; reading and writing the marker is the embedder's I/O.

use vstd::prelude::*;

verus! {

/// The schema version this crate expects.
pub const SCHEMA_VERSION: i32 = 1;

/// What to do about a backing store's recorded schema version.
#[derive(Debug, Clone, Copy, PartialEq, Eq, Structural)]
pub enum SchemaAction {
    /// The recorded version matches: use the store as it is.
    UpToDate,
    /// No version is recorded: install the schema and record the version.
    Install,
    /// Another version is recorded: refuse to start, never migrate
    /// silently.
    Mismatch,
}

/// Decide from the recorded version (if any) how start-up proceeds.
pub fn plan_schema(found: Option<i32>) -> (r: SchemaAction)
    ensures
        r == SchemaAction::UpToDate <==> found == Some(SCHEMA_VERSION),
        r == SchemaAction::Install <==> found is None,
        r == SchemaAction::Mismatch <==> (found is Some && found != Some(SCHEMA_VERSION)),
{
    match found {
        None => SchemaAction::Install,
        Some(v) => {
            if v == SCHEMA_VERSION {
                SchemaAction::UpToDate
            } else {
                SchemaAction::Mismatch
            }
        },
    }
}

} // verus!
