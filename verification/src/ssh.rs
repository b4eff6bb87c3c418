//! Source-side state for synchronization over SSH. Establishing the session
//! itself (TCP, handshake, key authentication) is transport plumbing outside
//! the library; once connected, the remote side serves its index through the
//! same source capability as any other transport.

use vstd::prelude::*;

use crate::Error;
use crate::index::{Index, IndexTransaction};

verus! {

/// The source role of an SSH endpoint: the index of the remote tree, rooted
/// at a path on the remote host.
pub struct SshSourceWrapper {
    pub index: Index,
    pub path: Vec<u8>,
}

impl SshSourceWrapper {
    /// Wrap the remote tree's index, rooted at `path`, as a source.
    pub fn new(index: Index, path: Vec<u8>) -> (r: SshSourceWrapper)
        ensures
            r.index == index,
            r.path == path,
    {
        SshSourceWrapper { index, path }
    }

    /// Open the source: a read snapshot of the index, taken through the
    /// single write handle so that nothing mutates it while it is served.
    pub fn open(&mut self) -> (r: Result<IndexTransaction, Error>)
        requires
            old(self).index.wf(),
        ensures
            final(self).index.wf(),
            final(self).index.files == old(self).index.files,
            final(self).index.blocks == old(self).index.blocks,
            final(self).index.next_file_id == old(self).index.next_file_id,
            final(self).path == old(self).path,
            old(self).index.tx_active ==> (r matches Err(e) && e is TransactionConflict),
            !old(self).index.tx_active ==> (r matches Ok(tx) && tx.wf()
                && crate::index::entries_equiv(tx.files@, old(self).index.files@)
                && crate::index::blocks_equiv(tx.blocks@, old(self).index.blocks@)),
    {
        self.index.transaction()
    }
}

} // verus!
