//! A key-value map whose reads can be replayed from recorded hints.
//!
//! In recording mode the map keeps one sorted snapshot of its entries per
//! insert-epoch (a run of inserts with no read between them) and logs, for
//! every read, where the key was found in the current snapshot. Those hints
//! are exported as bytes. A fresh map that imports them answers the same
//! sequence of reads by indexing into the recorded snapshots, with no search
//! and no hashing.
//!
//! Keys are strings, ordered by code point (the order of `String`); values
//! are `u32`.

pub mod hints;
pub mod key_order;
pub mod map;
pub mod search;

pub use key_order::{compare_keys, KeyOrder};
pub use map::{MapError, Mode, SovereignMap};
pub use search::{search_snapshot, IndexProof, MAX_SNAPSHOT_LEN};
