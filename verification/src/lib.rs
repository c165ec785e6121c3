//! Core of a BitTorrent leecher: storage layout, piece assembly and
//! verification, the peer wire protocol, and the piece picker.
//!
//! The library is pure logic. Sockets, files and channels live outside it;
//! callers hand it plain values (bytes, indices, decoded messages) and act on
//! the values it returns.

use vstd::prelude::*;

pub mod conf;
pub mod error;
pub mod metainfo;
pub mod storage_info;
pub mod iovecs;
pub mod piece;
pub mod disk;
pub mod piece_picker;
pub mod download;
pub mod codec;
pub mod torrent;
pub mod peer;

verus! {

/// The index of a piece within the torrent.
pub type PieceIndex = usize;

/// The index of a file within the torrent.
pub type FileIndex = usize;

/// An identifier of a torrent, unique within the application.
pub type TorrentId = u32;

/// A peer id is an arbitrary 20 byte string.
pub type PeerId = [u8; 20];

/// A SHA-1 digest, 20 bytes long.
pub type Sha1Hash = [u8; 20];

/// The length of all blocks except possibly the last one of a piece: 16 KiB.
pub const BLOCK_LEN: u32 = 0x4000;

/// A block is a fixed size chunk of a piece, which in turn is a fixed size
/// chunk of a torrent. Downloading happens at this block granularity.
#[derive(Clone, Copy, Debug, PartialEq, Eq, Structural)]
pub struct BlockInfo {
    /// The index of the piece of which this is a block.
    pub piece_index: PieceIndex,
    /// The zero-based byte offset into the piece.
    pub offset: u32,
    /// The block's length in bytes. At most 16 KiB.
    pub len: u32,
}

impl BlockInfo {
    /// Returns the index of the block within its piece, assuming the default
    /// block length of 16 KiB.
    pub fn index_in_piece(&self) -> (index: PieceIndex)
        requires
            0 < self.len <= BLOCK_LEN,
        ensures
            index == self.offset as int / BLOCK_LEN as int,
    {
        (self.offset / BLOCK_LEN) as PieceIndex
    }
}

/// The number of blocks in a piece of the given length: the piece length
/// divided by the block length, rounded up for a possible short last block.
pub fn block_count(piece_len: u32) -> (count: usize)
    ensures
        count == spec_block_count(piece_len),
{
    let count: u64 = (piece_len as u64 + (BLOCK_LEN as u64 - 1)) / BLOCK_LEN as u64;
    count as usize
}

/// The number of blocks in a piece of the given length, as a ceiling division.
pub open spec fn spec_block_count(piece_len: u32) -> int {
    (piece_len + BLOCK_LEN - 1) as int / BLOCK_LEN as int
}

/// The length of the block at the given index within a piece: the full block
/// length for all blocks but the last, which may be shorter.
pub fn block_len(piece_len: u32, index: usize) -> (len: u32)
    requires
        index * BLOCK_LEN < piece_len,
    ensures
        len == spec_block_len(piece_len, index as int),
{
    let index = index as u32;
    let block_offset = index * BLOCK_LEN;
    assert(piece_len > block_offset);
    if piece_len - block_offset < BLOCK_LEN {
        piece_len - block_offset
    } else {
        BLOCK_LEN
    }
}

/// The length of the block at the given index within a piece.
pub open spec fn spec_block_len(piece_len: u32, index: int) -> int
    recommends
        index * BLOCK_LEN < piece_len,
{
    if piece_len - index * BLOCK_LEN < BLOCK_LEN {
        piece_len - index * BLOCK_LEN
    } else {
        BLOCK_LEN as int
    }
}

/// How a block's length relates to its piece: every block but the last has
/// the full block length, the last makes up the rest of the piece, and all
/// are positive.
pub proof fn lemma_block_len_values(piece_len: u32, k: int)
    requires
        piece_len > 0,
        0 <= k < spec_block_count(piece_len),
    ensures
        k < spec_block_count(piece_len) - 1 ==> spec_block_len(piece_len, k) == BLOCK_LEN,
        k == spec_block_count(piece_len) - 1 ==> spec_block_len(piece_len, k) == piece_len - k
            * BLOCK_LEN,
        k * BLOCK_LEN < piece_len,
        0 < spec_block_len(piece_len, k) <= BLOCK_LEN,
{
    let b = BLOCK_LEN as int;
    let count = spec_block_count(piece_len);
    assert(count == (piece_len + b - 1) / b);
    assert((k * b < piece_len) && (k < count - 1 ==> piece_len - k * b >= b) && (k == count - 1
        ==> piece_len - k * b <= b) && (piece_len - k * b >= 1)) by (nonlinear_arith)
        requires
            b == 0x4000,
            count == (piece_len + b - 1) / b,
            0 <= k < count,
            piece_len >= 1;
}

} // verus!
