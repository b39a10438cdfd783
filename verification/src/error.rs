//! The migration's error taxonomy: engine-level store failures and
//! fixed-width fields that do not decode to the expected byte length.

use vstd::prelude::*;

verus! {

/// Why a migration pass aborted.  Every error aborts the whole pass; durable
/// mutation of the record table happens only in the terminal atomic batch
/// apply, so an abort before that leaves the table untouched.
#[derive(Debug)]
pub enum MigrateError {
    /// An I/O or engine-level failure reported by the store.
    Store(sled::Error),
    /// A fixed-width field (a stored short id or the counter scalar) was not
    /// exactly eight bytes: fatal corruption, never silently coerced.
    Encoding,
}

} // verus!
