//! Core of a durable key/value storage adapter over a record-oriented cloud
//! datastore whose atomic write primitive is bounded in item count and byte
//! size and which offers no range delete.
//!
//! The verified core covers the write path: batch validation and
//! normalization (including prefix-delete expansion), the single-transaction
//! fast path, the journaled path that chunks oversized batches into persisted
//! blocks, and the idempotent reverse-order replay that drains a journal
//! after a crash.  An in-memory backend with the same record schema serves as
//! the executable model of the remote datastore; the planning and decision
//! functions it exercises are the same ones an I/O driver uses against the
//! real backend.

use vstd::prelude::*;

pub mod batch;
pub mod codec;
pub mod errors;
pub mod journal;
pub mod record;
pub mod store;
pub mod table;
pub mod transaction;

verus! {

/// Maximum size in bytes of a single stored value (backend-imposed, 400 KiB).
pub const MAX_VALUE_BYTES: usize = 409600;

/// Maximum number of operations in one atomic backend transaction.
pub const MAX_TRANSACT_WRITE_ITEM_SIZE: usize = 100;

/// Byte-footprint ceiling of one journal block (chunking threshold, 16 MiB).
pub const MAX_BATCH_WRITE_ITEM_BYTES: usize = 16777216;

/// Ceiling on simultaneous backend connections.
pub const MAX_CONNECTIONS: usize = 50;

/// Tag byte that roots the journal namespace inside a region.
pub const JOURNAL_TAG: u8 = 0;

/// Lowest tag byte reachable by user keys directly under a base key.
pub const MIN_VIEW_TAG: u8 = 1;

/// The journal tag lies strictly below every user-reachable tag, so journal
/// keys can never collide with user keys of a well-formed region.
pub proof fn journal_tag_below_user_tags()
    ensures
        JOURNAL_TAG < MIN_VIEW_TAG,
{
}

} // verus!
