//! The error kinds that the library's components report.

use vstd::prelude::*;

verus! {

/// The errors that may occur while downloading a torrent.
#[derive(Clone, Copy, Debug, PartialEq, Eq, Structural)]
pub enum Error {
    /// A peer session was asked about, or a disk write referred to, a piece
    /// index that is outside the torrent.
    InvalidPieceIndex,
    /// A block's offset or length does not fit the piece it names.
    InvalidBlock,
    /// A disk command named a torrent id that the disk task does not know.
    InvalidTorrentId,
    /// A torrent with the same id has already been allocated on disk.
    AlreadyExists,
    /// The metainfo document names neither a single length nor a file list.
    InvalidMetainfo,
    /// The concatenated piece hashes are not a multiple of twenty bytes.
    InvalidPieces,
    /// The info hash in the peer's handshake differs from the torrent's.
    InvalidPeerInfoHash,
    /// A bitfield's length does not equal the torrent's piece count.
    InvalidBitfield,
    /// The peer does not hold every piece, so the download cannot finish
    /// through it.
    PeerNotSeed,
    /// The peer sent a bitfield at some point other than right after the
    /// handshake.
    BitfieldNotAfterHandshake,
    /// The peer's message could not be decoded: a bad length or an unknown
    /// message id.
    InvalidMessage,
}

} // verus!
