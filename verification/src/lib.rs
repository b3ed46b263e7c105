//! A log-structured, single-file key/value store in the Bitcask style.
//!
//! Every write appends one checksummed record to a byte log; an in-memory
//! index maps each key to the offset of its most recent record. The index is
//! a derived structure: it can always be rebuilt by one forward scan of the
//! log. The store itself operates on the log as plain bytes; reading the log
//! from disk and appending new bytes to it are the caller's concern.

pub mod checksum;
pub mod codec;
pub mod keyindex;
pub mod laws;
pub mod recovery;
pub mod store;

pub use codec::DecodeOutcome;
pub use codec::KeyValuePair;
pub use codec::StoreError;
pub use store::MiniRedis;
