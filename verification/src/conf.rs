//! Types used to configure the engine and its parts.

use vstd::prelude::*;

verus! {

/// The default client id: `cbt-` followed by sixteen zero digits.
pub open spec fn spec_default_client_id() -> Seq<u8> {
    seq![
        99u8, 98u8, 116u8, 45u8, 48u8, 48u8, 48u8, 48u8, 48u8, 48u8, 48u8, 48u8, 48u8, 48u8,
        48u8, 48u8, 48u8, 48u8, 48u8, 48u8,
    ]
}

/// The default cratetorrent client id as an owned buffer, twenty bytes.
pub fn cratetorrent_client_id() -> (id: Vec<u8>)
    ensures
        id@ == spec_default_client_id(),
        id@.len() == 20,
{
    let id: Vec<u8> = vec![
        99u8, 98u8, 116u8, 45u8, 48u8, 48u8, 48u8, 48u8, 48u8, 48u8, 48u8, 48u8, 48u8, 48u8,
        48u8, 48u8, 48u8, 48u8, 48u8, 48u8,
    ];
    proof {
        assert(id@ =~= spec_default_client_id());
    }
    id
}

/// The global configuration for the torrent engine and all its parts.
#[derive(Debug)]
pub struct Conf {
    /// Configuration of the engine itself.
    pub engine: EngineConf,
    /// Configuration applied to each torrent.
    pub torrent: TorrentConf,
}

impl Conf {
    /// Returns the configuration with reasonable defaults and the default
    /// client id; only the download directory must be given, as it cannot
    /// sensibly be guessed.
    pub fn new(download_dir: String) -> (c: Conf)
        ensures
            c.engine.client_id@ == spec_default_client_id(),
            c.torrent.download_dir == download_dir,
            c.torrent.min_requested_peer_count == 10,
            c.torrent.max_connected_peer_count == 50,
            c.torrent.announce_interval == 3600,
            c.torrent.tracker_error_threshold == 15,
    {
        Conf {
            engine: EngineConf { client_id: cratetorrent_client_id() },
            torrent: TorrentConf::new(download_dir),
        }
    }
}

/// Configuration related to the engine itself.
#[derive(Debug)]
pub struct EngineConf {
    /// The id of the client to announce to trackers and other peers,
    /// twenty bytes.
    pub client_id: Vec<u8>,
}

/// Configuration for a torrent.
#[derive(Debug)]
pub struct TorrentConf {
    /// The directory in which the torrent's files are placed on download.
    pub download_dir: String,
    /// The minimum number of peers to keep in torrent at all times.
    pub min_requested_peer_count: usize,
    /// The most peers the torrent connects at once.
    pub max_connected_peer_count: usize,
    /// How often to announce to the tracker when it names no interval of
    /// its own, in seconds.
    pub announce_interval: u64,
    /// After this many failed announces the torrent stops announcing.
    pub tracker_error_threshold: usize,
}

impl TorrentConf {
    /// Returns the torrent configuration with reasonable defaults; only
    /// the download directory must be given.
    pub fn new(download_dir: String) -> (c: TorrentConf)
        ensures
            c.download_dir == download_dir,
            c.min_requested_peer_count == 10,
            c.max_connected_peer_count == 50,
            c.announce_interval == 3600,
            c.tracker_error_threshold == 15,
    {
        TorrentConf {
            download_dir,
            min_requested_peer_count: 10,
            max_connected_peer_count: 50,
            announce_interval: 3600,
            tracker_error_threshold: 15,
        }
    }
}

} // verus!
