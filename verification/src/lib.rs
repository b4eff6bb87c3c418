//! Deduplicating file-synchronization core: content-defined chunking, a
//! content-addressed block/file index mutated through transactions, and a
//! transport-agnostic source/sink replication engine.

use vstd::prelude::*;

pub mod chunker;
pub mod digest;
pub mod index;
pub mod location;
pub mod ssh;
pub mod sync;

verus! {

/// The error kinds the library reports.
///
/// `Io` carries the path the failing operation was about. `StorageCorrupt`
/// means the index data is inconsistent (no auto-repair is attempted).
/// `TransactionConflict` is returned when a second write transaction is
/// requested while one is active. `LocationParse` marks a malformed
/// source/destination string, `UnsupportedDirection` a transport pairing
/// that is rejected by design, and `Transport` a connection-level failure
/// of a remote peer.
#[derive(Debug)]
pub enum Error {
    Io { path: Vec<u8> },
    StorageCorrupt,
    TransactionConflict,
    LocationParse,
    UnsupportedDirection,
    Transport,
}

} // verus!
