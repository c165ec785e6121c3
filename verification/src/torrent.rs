//! What every peer session of a torrent shares: the torrent's identity and
//! its storage layout, immutable after construction.

use vstd::prelude::*;

use crate::storage_info::StorageInfo;
use crate::TorrentId;

verus! {

/// The torrent's shared, read-only status.
pub struct SharedStatus {
    /// The torrent's id, unique within the application.
    pub id: TorrentId,
    /// The SHA-1 digest of the metainfo's `info` dictionary, twenty bytes,
    /// which identifies the torrent to trackers and peers.
    pub info_hash: Vec<u8>,
    /// Our own arbitrary twenty byte peer id.
    pub client_id: Vec<u8>,
    /// The torrent's storage layout.
    pub storage: StorageInfo,
}

impl SharedStatus {
    /// The identifiers have their wire lengths and the layout is well
    /// formed.
    pub open spec fn wf(self) -> bool {
        &&& self.info_hash@.len() == 20
        &&& self.client_id@.len() == 20
        &&& self.storage.wf()
    }
}

} // verus!
