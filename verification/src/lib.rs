//! Offline migration of an ordered key-value store: legacy record keys of the
//! form `hash-prefix ++ marker ++ suffix` are rewritten to
//! `hash-prefix ++ 0xFF ++ short-id`, where each distinct suffix is assigned a
//! short 8-byte big-endian id, allocated monotonically from a persisted
//! counter and memoized in a mapping tree.  All record rewrites are staged in
//! a batch and applied together in one terminal step at the end of the pass.

pub mod codec;
pub mod counter;
pub mod engine;
pub mod error;
pub mod laws;
pub mod resolver;
pub mod rewrite;
pub mod store;
