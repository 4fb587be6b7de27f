//! A small record-management library: an in-memory item store with
//! monotonic identity assignment, a byte-level snapshot codec for
//! durability, and a user directory issuing bearer tokens that gate
//! mutating operations.

pub mod credentials;
pub mod directory;
pub mod record;
pub mod snapshot;
pub mod store;
