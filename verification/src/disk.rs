//! The disk subsystem's bookkeeping: one write buffer per torrent, block
//! admission, and hashing a piece once all its blocks are here. The actual
//! file writes happen outside the library; a completed piece comes back as
//! a plan of positional writes together with the result of its hash check.

use vstd::prelude::*;

use crate::error::Error;
use crate::iovecs::{concat_bufs, copy_byte_range};
use crate::piece::{plan_bytes, sha1_of, write_bytes, FileWrite, Piece};
use crate::storage_info::{FileInfo, FsStructure, StorageInfo};
use crate::{
    block_len, spec_block_count, spec_block_len, BlockInfo, PieceIndex, TorrentId, BLOCK_LEN,
};

verus! {

/// Disk write statistics for one torrent.
#[derive(Clone, Copy, Debug)]
pub struct Stats {
    /// The number of bytes of validated pieces handed over for writing.
    pub write_count: u64,
    /// The number of times a piece failed its hash check.
    pub write_failure_count: u64,
}

/// What the disk tells a torrent after a batch of blocks has been handled:
/// which blocks were persisted and whether their piece's hash matched.
pub struct BatchWrite {
    /// The blocks that were persisted; empty if the piece was invalid.
    pub blocks: Vec<BlockInfo>,
    /// Whether the piece the blocks belong to had the expected hash.
    pub is_piece_valid: Option<bool>,
}

/// The outcome of handing one block to a torrent's write buffer.
pub enum WriteOutcome {
    /// The block names nothing in the torrent and was dropped; the error is
    /// reported to the torrent and the disk task goes on.
    Rejected(Error),
    /// The block was buffered (or was a duplicate and dropped); its piece is
    /// not complete yet.
    Buffered,
    /// The block completed its piece. If the piece's hash matched, `writes`
    /// holds the positional file writes that persist it and the batch lists
    /// its blocks; otherwise both are empty.
    PieceComplete {
        /// The alert for the owning torrent.
        batch: BatchWrite,
        /// The file writes to perform, in order.
        writes: Vec<FileWrite>,
    },
}

/// Whether a write plan lays the given bytes down at the piece's place in
/// the torrent's files: the writes walk consecutive files, each stays inside
/// its file, each starts where the piece's bytes continue in that file, and
/// together they persist exactly `bytes`.
pub open spec fn writes_follow_layout(
    info: StorageInfo,
    piece_index: int,
    bytes: Seq<u8>,
    writes: Seq<FileWrite>,
) -> bool {
    let pto = info.spec_piece_offset(piece_index);
    let files = info.structure.spec_files();
    &&& plan_bytes(writes) == bytes
    &&& writes.len() >= 1
    &&& (forall|j: int|
        0 <= j < writes.len() ==> (#[trigger] writes[j]).file_index == writes[0].file_index + j)
    &&& writes[0].file_index + writes.len() <= files.len()
    &&& files[writes[0].file_index as int].spec_contains(pto)
    &&& (forall|j: int|
        0 <= j < writes.len() ==> (#[trigger] writes[j]).offset == pto + plan_bytes(
            writes.take(j),
        ).len() - files[writes[j].file_index as int].torrent_offset)
    &&& (forall|j: int|
        0 <= j < writes.len() ==> (#[trigger] writes[j]).offset + write_bytes(writes[j]).len()
            <= files[writes[j].file_index as int].len)
}

/// How one call of `write_block` relates the torrent's state before
/// (`pre`) and after (`post`) to the block handed in and the outcome
/// returned. A block naming no piece or no block of its piece is rejected
/// with the state untouched; a duplicate offset is dropped silently; an
/// admitted block is buffered, and if it completes its piece the piece
/// leaves the buffer and the outcome carries the result of the hash
/// check, the write plan and the block list.
pub open spec fn write_block_post(
    pre: Torrent,
    post: Torrent,
    info: BlockInfo,
    data: Vec<u8>,
    r: WriteOutcome,
) -> bool {
    &&& post.info == pre.info
    &&& post.piece_hashes == pre.piece_hashes
    &&& (!pre.spec_valid_piece_index(info.piece_index as int) ==> r == WriteOutcome::Rejected(
        Error::InvalidPieceIndex,
    ) && post == pre)
    &&& (pre.spec_valid_piece_index(info.piece_index as int) && !pre.spec_valid_block(info) ==> r
        == WriteOutcome::Rejected(Error::InvalidBlock) && post == pre)
    &&& (pre.spec_valid_block(info) ==> {
        let i = info.piece_index as int;
        let k = info.offset as int / BLOCK_LEN as int;
        let blocks_after = pre.blocks_before(i).update(k, Some(data));
        let complete = forall|j: int|
            0 <= j < blocks_after.len() ==> (#[trigger] blocks_after[j]) is Some;
        &&& (pre.blocks_before(i)[k] is Some ==> r == WriteOutcome::Buffered && post == pre)
        &&& (pre.blocks_before(i)[k] is None && !complete ==> {
            &&& r == WriteOutcome::Buffered
            &&& post.pieces@[i] matches Some(p) && p.blocks@ == blocks_after
            &&& (forall|j: int|
                0 <= j < pre.pieces@.len() && j != i ==> (#[trigger] post.pieces@[j])
                    == pre.pieces@[j])
            &&& post.stats == pre.stats
        })
        &&& (pre.blocks_before(i)[k] is None && complete ==> {
            let bytes = concat_bufs(blocks_after.map_values(|b: Option<Vec<u8>>| b->0));
            let expected = pre.piece_hashes@.subrange(20 * i, 20 * i + 20);
            let hash_ok = sha1_of(bytes) == expected;
            &&& (r matches WriteOutcome::PieceComplete { batch, writes } ==> {
                &&& batch.is_piece_valid == Some(hash_ok)
                &&& (hash_ok ==> writes_follow_layout(pre.info, i, bytes, writes@)
                    && batch.blocks@ == Seq::new(
                    spec_block_count(pre.info.spec_piece_len(i) as u32) as nat,
                    |j: int|
                        BlockInfo {
                            piece_index: info.piece_index,
                            offset: (j * BLOCK_LEN) as u32,
                            len: spec_block_len(pre.info.spec_piece_len(i) as u32, j) as u32,
                        },
                ) && post.stats.write_count == vstd::math::min(
                    pre.stats.write_count + pre.info.spec_piece_len(i),
                    u64::MAX as int,
                ))
                &&& (!hash_ok ==> writes@.len() == 0 && batch.blocks@.len() == 0 && post.stats
                    == pre.stats)
            })
            &&& (r is PieceComplete)
            &&& post.pieces@[i] is None
            &&& (forall|j: int|
                0 <= j < pre.pieces@.len() && j != i ==> (#[trigger] post.pieces@[j])
                    == pre.pieces@[j])
        })
    })
}

/// Torrent information related to disk writes: the in-progress pieces (the
/// write buffer), the storage layout, and the expected piece hashes.
pub struct Torrent {
    /// All information concerning this torrent's storage.
    pub info: StorageInfo,
    /// The in-progress pieces, one slot per piece of the torrent.
    pub pieces: Vec<Option<Piece>>,
    /// The concatenation of all expected piece hashes.
    pub piece_hashes: Vec<u8>,
    /// Disk write statistics.
    pub stats: Stats,
}

impl Torrent {
    /// The write buffer has one slot per piece and every buffered piece
    /// belongs where its slot says: its length, expected hash and file range
    /// are those of the piece index.
    pub open spec fn wf(self) -> bool {
        &&& self.info.wf()
        &&& self.pieces@.len() == self.info.piece_count
        &&& (forall|i: int|
            0 <= i < self.pieces@.len() && self.pieces@[i] is Some ==> {
                let p = (#[trigger] self.pieces@[i])->0;
                &&& p.wf()
                &&& p.len == self.info.spec_piece_len(i)
                &&& 20 * i + 20 <= self.piece_hashes@.len()
                &&& p.expected_hash@ == self.piece_hashes@.subrange(20 * i, 20 * i + 20)
                &&& self.info.structure.spec_files_intersecting(
                    self.info.spec_piece_offset(i),
                    self.info.spec_piece_offset(i) + self.info.spec_piece_len(i),
                    p.files,
                )
            })
    }

    /// The blocks buffered for the piece: the piece's slots, or all empty
    /// slots if nothing is buffered for it yet.
    pub open spec fn blocks_before(self, i: int) -> Seq<Option<Vec<u8>>> {
        if self.pieces@[i] is Some {
            self.pieces@[i]->0.blocks@
        } else {
            Seq::new(
                spec_block_count(self.info.spec_piece_len(i) as u32) as nat,
                |k: int| None::<Vec<u8>>,
            )
        }
    }

    /// Whether the block names a piece of the torrent, for which an expected
    /// hash exists.
    pub open spec fn spec_valid_piece_index(self, i: int) -> bool {
        &&& 0 <= i < self.info.piece_count
        &&& 20 * i + 20 <= self.piece_hashes@.len()
    }

    /// Whether the block's offset and length name one of its piece's blocks.
    pub open spec fn spec_valid_block(self, info: BlockInfo) -> bool {
        &&& self.spec_valid_piece_index(info.piece_index as int)
        &&& info.offset % BLOCK_LEN == 0
        &&& info.offset < self.info.spec_piece_len(info.piece_index as int)
        &&& info.len == spec_block_len(
            self.info.spec_piece_len(info.piece_index as int) as u32,
            info.offset as int / BLOCK_LEN as int,
        )
    }

    /// Creates the torrent's disk bookkeeping: an empty write buffer slot
    /// for each piece.
    pub fn new(info: StorageInfo, piece_hashes: Vec<u8>) -> (t: Torrent)
        requires
            info.wf(),
        ensures
            t.wf(),
            t.info == info,
            t.piece_hashes == piece_hashes,
            forall|i: int| 0 <= i < t.pieces@.len() ==> (#[trigger] t.pieces@[i]) is None,
            t.stats.write_count == 0,
            t.stats.write_failure_count == 0,
    {
        let piece_count = info.piece_count;
        let mut pieces: Vec<Option<Piece>> = Vec::new();
        let mut i: usize = 0;
        while i < piece_count
            invariant
                0 <= i <= piece_count,
                pieces@.len() == i,
                forall|j: int| 0 <= j < i ==> (#[trigger] pieces@[j]) is None,
            decreases piece_count - i,
        {
            pieces.push(None);
            i = i + 1;
        }
        Torrent { info, pieces, piece_hashes, stats: Stats { write_count: 0, write_failure_count: 0 } }
    }

    /// Starts a new in-progress piece: looks up the expected hash of the
    /// piece and its length, and computes the files it intersects. Fails
    /// with `InvalidPieceIndex` when the index names no piece or no hash.
    fn start_new_piece(&mut self, piece_index: PieceIndex) -> (r: Result<(), Error>)
        requires
            old(self).wf(),
        ensures
            final(self).wf(),
            final(self).info == old(self).info,
            final(self).piece_hashes == old(self).piece_hashes,
            final(self).stats == old(self).stats,
            !old(self).spec_valid_piece_index(piece_index as int) ==> r == Err::<(), Error>(
                Error::InvalidPieceIndex,
            ) && *final(self) == *old(self),
            old(self).spec_valid_piece_index(piece_index as int) ==> {
                &&& r == Ok::<(), Error>(())
                &&& final(self).pieces@.len() == old(self).pieces@.len()
                &&& (forall|j: int|
                    0 <= j < old(self).pieces@.len() && j != piece_index
                        ==> (#[trigger] final(self).pieces@[j]) == old(self).pieces@[j])
                &&& final(self).pieces@[piece_index as int] matches Some(p) && p.blocks@
                    == Seq::new(
                    spec_block_count(old(self).info.spec_piece_len(piece_index as int) as u32)
                        as nat,
                    |k: int| None::<Vec<u8>>,
                )
            },
    {
        // the position of the piece's hash in the concatenated hash string:
        // the index is valid only if hashes reach to its end
        if piece_index >= self.piece_hashes.len() / 20 {
            proof {
                lemma_hash_pos(piece_index as int, self.piece_hashes@.len() as int);
            }
            return Err(Error::InvalidPieceIndex);
        }
        proof {
            lemma_hash_pos(piece_index as int, self.piece_hashes@.len() as int);
        }
        let hash_pos = piece_index * 20;
        let expected_hash = copy_byte_range(&self.piece_hashes, hash_pos, hash_pos + 20);

        let len = match self.info.piece_len(piece_index) {
            Ok(len) => len,
            Err(e) => {
                return Err(e);
            },
        };

        let files = match self.info.files_intersecting_piece(piece_index) {
            Ok(files) => files,
            Err(e) => {
                return Err(e);
            },
        };

        let count = crate::block_count(len);
        let mut blocks: Vec<Option<Vec<u8>>> = Vec::new();
        let mut k: usize = 0;
        while k < count
            invariant
                0 <= k <= count,
                blocks@.len() == k,
                forall|j: int| 0 <= j < k ==> (#[trigger] blocks@[j]) is None,
            decreases count - k,
        {
            blocks.push(None);
            k = k + 1;
        }
        proof {
            assert(blocks@ =~= Seq::new(
                spec_block_count(self.info.spec_piece_len(piece_index as int) as u32) as nat,
                |j: int| None::<Vec<u8>>,
            ));
            self.info.lemma_piece_in_download(piece_index as int);
        }

        let piece = Piece { expected_hash, len, blocks, files };
        self.pieces[piece_index] = Some(piece);
        Ok(())
    }

    /// Hands one downloaded block to the torrent's write buffer.
    ///
    /// A block that names no piece of the torrent, or whose offset or
    /// length fit no block of that piece, is rejected with the error to
    /// report. A block at an offset already buffered is silently dropped.
    /// Otherwise the block is buffered; if it was the piece's last missing
    /// block the piece leaves the buffer, is hashed, and the outcome carries
    /// whether the hash matched: if it did, the positional file writes that
    /// persist the piece and the list of its blocks; for a mismatch, empty
    /// writes and a negative answer.
    #[verifier::rlimit(60)]
    pub fn write_block(&mut self, info: BlockInfo, data: Vec<u8>) -> (r: WriteOutcome)
        requires
            old(self).wf(),
            info.len == data@.len(),
        ensures
            final(self).wf(),
            write_block_post(*old(self), *final(self), info, data, r),
    {
        let i = info.piece_index;

        // the piece index must name a piece and reach a whole hash
        if i >= self.info.piece_count || i >= self.piece_hashes.len() / 20 {
            proof {
                lemma_hash_pos(i as int, self.piece_hashes@.len() as int);
            }
            return WriteOutcome::Rejected(Error::InvalidPieceIndex);
        }
        proof {
            lemma_hash_pos(i as int, self.piece_hashes@.len() as int);
        }
        let piece_len = match self.info.piece_len(i) {
            Ok(len) => len,
            Err(_) => {
                proof {
                    assert(false);
                }
                vstd::pervasive::unreached()
            },
        };

        // the offset and length must name one of the piece's blocks
        if info.offset % BLOCK_LEN != 0 || info.offset >= piece_len {
            return WriteOutcome::Rejected(Error::InvalidBlock);
        }
        proof {
            crate::piece::lemma_block_index_in_range(piece_len, info.offset);
        }
        let k = (info.offset / BLOCK_LEN) as usize;
        if info.len != block_len(piece_len, k) {
            return WriteOutcome::Rejected(Error::InvalidBlock);
        }

        // a duplicate block offset is silently dropped; otherwise make sure
        // the piece has a write buffer entry
        match &self.pieces[i] {
            Some(existing) => {
                if existing.blocks[k].is_some() {
                    return WriteOutcome::Buffered;
                }
            },
            None => {
                let created = self.start_new_piece(i);
                proof {
                    assert(created is Ok);
                }
            },
        }
        let ghost blocks_at_entry = old(self).blocks_before(i as int);

        let slot = &mut self.pieces[i];
        let mut piece = match slot.take() {
            Some(piece) => piece,
            None => {
                proof {
                    assert(false);
                }
                vstd::pervasive::unreached()
            },
        };
        proof {
            assert(piece.blocks@ == blocks_at_entry);
        }

        piece.enqueue_block(info.offset, data);
        let ghost blocks_after = blocks_at_entry.update(
            info.offset as int / BLOCK_LEN as int,
            Some(data),
        );
        proof {
            assert(piece.blocks@ == blocks_after);
        }

        if piece.is_complete() {
            // the piece leaves the write buffer: hash it, and if it is
            // valid plan the writes that persist it
            let is_piece_valid = piece.matches_hash();
            if is_piece_valid {
                proof {
                    lemma_write_plan_pre(self.info, i as int, piece);
                    self.info.lemma_piece_in_download(i as int);
                }
                let piece_torrent_offset = (i as u64) * (self.info.piece_len as u64);
                let writes = match &self.info.structure {
                    FsStructure::Archive { files } => piece.write_plan(
                        piece_torrent_offset,
                        files,
                    ),
                    FsStructure::File(file) => {
                        let single = FileInfo {
                            path: file.path.clone(),
                            len: file.len,
                            torrent_offset: file.torrent_offset,
                        };
                        let mut one_file: Vec<FileInfo> = Vec::new();
                        one_file.push(single);
                        let ghost fs = self.info.structure.spec_files();
                        proof {
                            assert(fs.len() == 1);
                            assert(one_file@[0].len == fs[0].len);
                            assert(one_file@[0].torrent_offset == fs[0].torrent_offset);
                        }
                        piece.write_plan(piece_torrent_offset, &one_file)
                    },
                };
                let blocks = block_infos(i, piece_len);
                if self.stats.write_count <= u64::MAX - piece_len as u64 {
                    self.stats.write_count = self.stats.write_count + piece_len as u64;
                } else {
                    self.stats.write_count = u64::MAX;
                }
                WriteOutcome::PieceComplete {
                    batch: BatchWrite { blocks, is_piece_valid: Some(true) },
                    writes,
                }
            } else {
                WriteOutcome::PieceComplete {
                    batch: BatchWrite { blocks: Vec::new(), is_piece_valid: Some(false) },
                    writes: Vec::new(),
                }
            }
        } else {
            self.pieces[i] = Some(piece);
            WriteOutcome::Buffered
        }
    }
}

/// The entity responsible for keeping the downloaded blocks of every
/// torrent until their pieces are validated. One instance multiplexes all
/// torrents; the command loop that feeds it lives outside the library and
/// performs the file writes it plans.
pub struct Disk {
    /// The torrents' disk state, each under its id.
    pub torrents: Vec<(TorrentId, Torrent)>,
}

impl Disk {
    /// Every torrent is well formed and no id occurs twice.
    pub open spec fn wf(self) -> bool {
        &&& (forall|i: int|
            0 <= i < self.torrents@.len() ==> (#[trigger] self.torrents@[i]).1.wf())
        &&& (forall|i: int, j: int|
            0 <= i < j < self.torrents@.len() ==> (#[trigger] self.torrents@[i]).0 != (
            #[trigger] self.torrents@[j]).0)
    }

    /// Whether a torrent with the id is allocated.
    pub open spec fn spec_has_torrent(self, id: TorrentId) -> bool {
        exists|i: int| 0 <= i < self.torrents@.len() && (#[trigger] self.torrents@[i]).0 == id
    }

    /// Creates a disk with no torrents.
    pub fn new() -> (d: Disk)
        ensures
            d.wf(),
            d.torrents@.len() == 0,
    {
        Disk { torrents: Vec::new() }
    }

    /// Allocates the torrent's disk state under its id, or fails with
    /// `AlreadyExists` if the id is taken.
    pub fn new_torrent(&mut self, id: TorrentId, info: StorageInfo, piece_hashes: Vec<u8>) -> (r:
        Result<(), Error>)
        requires
            old(self).wf(),
            info.wf(),
        ensures
            final(self).wf(),
            old(self).spec_has_torrent(id) ==> r == Err::<(), Error>(Error::AlreadyExists)
                && *final(self) == *old(self),
            !old(self).spec_has_torrent(id) ==> {
                &&& r == Ok::<(), Error>(())
                &&& final(self).torrents@.len() == old(self).torrents@.len() + 1
                &&& (forall|i: int|
                    0 <= i < old(self).torrents@.len() ==> (#[trigger] final(self).torrents@[i])
                        == old(self).torrents@[i])
                &&& final(self).torrents@.last().0 == id
                &&& final(self).torrents@.last().1.info == info
                &&& final(self).torrents@.last().1.piece_hashes == piece_hashes
                &&& (forall|i: int|
                    0 <= i < final(self).torrents@.last().1.pieces@.len() ==> (#[trigger] final(self).torrents@.last().1.pieces@[i]) is None)
            },
    {
        let mut i: usize = 0;
        let mut found = false;
        while i < self.torrents.len() && !found
            invariant
                0 <= i <= self.torrents@.len(),
                !found ==> (forall|j: int| 0 <= j < i ==> (#[trigger] self.torrents@[j]).0 != id),
                found ==> i < self.torrents@.len() && self.torrents@[i as int].0 == id,
            decreases self.torrents@.len() - i + (if found {
                0int
            } else {
                1int
            }),
        {
            if self.torrents[i].0 == id {
                found = true;
            } else {
                i = i + 1;
            }
        }
        if found {
            return Err(Error::AlreadyExists);
        }
        let torrent = Torrent::new(info, piece_hashes);
        self.torrents.push((id, torrent));
        Ok(())
    }

    /// Hands a block to the torrent with the given id, or fails with
    /// `InvalidTorrentId` if no torrent has it. The outcome is that of the
    /// torrent's own `write_block`.
    pub fn write_block(&mut self, id: TorrentId, info: BlockInfo, data: Vec<u8>) -> (r: Result<
        WriteOutcome,
        Error,
    >)
        requires
            old(self).wf(),
            info.len == data@.len(),
        ensures
            final(self).wf(),
            !old(self).spec_has_torrent(id) ==> r == Err::<WriteOutcome, Error>(
                Error::InvalidTorrentId,
            ) && *final(self) == *old(self),
            old(self).spec_has_torrent(id) ==> {
                &&& r matches Ok(outcome)
                &&& final(self).torrents@.len() == old(self).torrents@.len()
                &&& (forall|x: int|
                    0 <= x < old(self).torrents@.len() && (#[trigger] old(self).torrents@[x]).0
                        != id ==> final(self).torrents@[x] == old(self).torrents@[x])
                &&& (forall|x: int|
                    0 <= x < old(self).torrents@.len() && (#[trigger] old(self).torrents@[x]).0
                        == id ==> final(self).torrents@[x].0 == id && write_block_post(
                        old(self).torrents@[x].1,
                        final(self).torrents@[x].1,
                        info,
                        data,
                        r->Ok_0,
                    ))
            },
    {
        let mut i: usize = 0;
        let mut found = false;
        while i < self.torrents.len() && !found
            invariant
                0 <= i <= self.torrents@.len(),
                !found ==> (forall|j: int| 0 <= j < i ==> (#[trigger] self.torrents@[j]).0 != id),
                found ==> i < self.torrents@.len() && self.torrents@[i as int].0 == id,
            decreases self.torrents@.len() - i + (if found {
                0int
            } else {
                1int
            }),
        {
            if self.torrents[i].0 == id {
                found = true;
            } else {
                i = i + 1;
            }
        }
        if !found {
            return Err(Error::InvalidTorrentId);
        }
        let entry = &mut self.torrents[i];
        let outcome = entry.1.write_block(info, data);
        Ok(outcome)
    }
}

/// One `BlockInfo` for every block of the piece, in ascending offset order.
fn block_infos(piece_index: PieceIndex, piece_len: u32) -> (blocks: Vec<BlockInfo>)
    requires
        piece_len > 0,
    ensures
        blocks@ == Seq::new(
            spec_block_count(piece_len) as nat,
            |k: int|
                BlockInfo {
                    piece_index,
                    offset: (k * BLOCK_LEN) as u32,
                    len: spec_block_len(piece_len, k) as u32,
                },
        ),
{
    let ghost target = Seq::new(
        spec_block_count(piece_len) as nat,
        |k: int|
            BlockInfo {
                piece_index,
                offset: (k * BLOCK_LEN) as u32,
                len: spec_block_len(piece_len, k) as u32,
            },
    );
    let count = crate::block_count(piece_len);
    let mut blocks: Vec<BlockInfo> = Vec::new();
    let mut k: usize = 0;
    while k < count
        invariant
            0 <= k <= count,
            count == spec_block_count(piece_len),
            piece_len > 0,
            target == Seq::new(
                spec_block_count(piece_len) as nat,
                |j: int|
                    BlockInfo {
                        piece_index,
                        offset: (j * BLOCK_LEN) as u32,
                        len: spec_block_len(piece_len, j) as u32,
                    },
            ),
            blocks@ == target.take(k as int),
        decreases count - k,
    {
        proof {
            crate::lemma_block_len_values(piece_len, k as int);
        }
        let offset = (k as u32) * BLOCK_LEN;
        let len = block_len(piece_len, k);
        blocks.push(BlockInfo { piece_index, offset, len });
        proof {
            assert(target.take(k + 1) =~= target.take(k as int).push(target[k as int]));
        }
        k = k + 1;
    }
    proof {
        assert(target.take(count as int) =~= target);
    }
    blocks
}

/// A buffered piece of a well formed torrent meets the preconditions of its
/// own write plan: the files it intersects exist, are contiguous and non
/// empty, the first holds the piece's first byte, and the last reaches to
/// the piece's end.
proof fn lemma_write_plan_pre(info: StorageInfo, i: int, p: Piece)
    requires
        info.wf(),
        0 <= i < info.piece_count,
        p.len == info.spec_piece_len(i),
        info.structure.spec_files_intersecting(
            info.spec_piece_offset(i),
            info.spec_piece_offset(i) + info.spec_piece_len(i),
            p.files,
        ),
    ensures
        p.files.start < p.files.end <= info.structure.spec_files().len(),
        forall|j: int|
            p.files.start <= j < p.files.end ==> (#[trigger] info.structure.spec_files()[j]).wf(),
        forall|j: int|
            p.files.start <= j < p.files.end ==> (#[trigger] info.structure.spec_files()[j]).len
                > 0,
        forall|j: int|
            p.files.start < j < p.files.end
                ==> (#[trigger] info.structure.spec_files()[j]).torrent_offset
                == info.structure.spec_files()[j - 1].spec_end(),
        info.structure.spec_files()[p.files.start as int].spec_contains(info.spec_piece_offset(i)),
        forall|j: int|
            p.files.start < j < p.files.end
                ==> (#[trigger] info.structure.spec_files()[j]).torrent_offset
                < info.spec_piece_offset(i) + info.spec_piece_len(i),
        info.spec_piece_offset(i) + info.spec_piece_len(i) <= info.structure.spec_files()[
            p.files.end - 1].spec_end(),
        info.spec_piece_offset(i) >= 0,
        info.spec_piece_offset(i) + info.spec_piece_len(i) <= info.download_len,
{
    let b0 = info.spec_piece_offset(i);
    let b1 = b0 + info.spec_piece_len(i);
    info.lemma_piece_in_download(i);
    crate::storage_info::lemma_files_intersecting_piece_covers(info, i, p.files);
    vstd::arithmetic::mul::lemma_mul_nonnegative(info.piece_count - 1, info.piece_len as int);
    match info.structure {
        FsStructure::File(file) => {
            assert(info.structure.spec_files() == seq![file]);
            assert(file.len == info.download_len);
            assert(file.spec_contains(b0));
        },
        FsStructure::Archive { files } => {
            assert(files@[p.files.start as int].spec_contains(b0));
        },
    }
}

/// A piece index reaches its hash in the concatenated hash string exactly
/// when it is below the number of whole twenty byte hashes.
proof fn lemma_hash_pos(i: int, hashes_len: int)
    requires
        i >= 0,
        hashes_len >= 0,
    ensures
        (i < hashes_len / 20) == (20 * i + 20 <= hashes_len),
{
    assert((i < hashes_len / 20) == (20 * i + 20 <= hashes_len)) by (nonlinear_arith)
        requires
            i >= 0,
            hashes_len >= 0;
}


/// Within a plan's persisted bytes, the byte `t` of write `j` sits right
/// after the bytes of the writes before it.
proof fn lemma_plan_bytes_index(writes: Seq<FileWrite>, j: int, t: int)
    requires
        0 <= j < writes.len(),
        0 <= t < write_bytes(writes[j]).len(),
    ensures
        plan_bytes(writes.take(j)).len() + t < plan_bytes(writes).len(),
        plan_bytes(writes)[plan_bytes(writes.take(j)).len() + t] == write_bytes(writes[j])[t],
    decreases writes.len(),
{
    if j == writes.len() - 1 {
        assert(writes.take(j) == writes.drop_last());
        assert(writes.last() == writes[j]);
    } else {
        lemma_plan_bytes_index(writes.drop_last(), j, t);
        assert(writes.drop_last().take(j) == writes.take(j));
        assert(writes.drop_last()[j] == writes[j]);
    }
}

/// In a well formed layout only one file holds a given byte offset.
proof fn lemma_containing_file_unique(info: StorageInfo, off: int, f1: int, f2: int)
    requires
        info.wf(),
        0 <= f1 < info.structure.spec_files().len(),
        0 <= f2 < info.structure.spec_files().len(),
        info.structure.spec_files()[f1].spec_contains(off),
        info.structure.spec_files()[f2].spec_contains(off),
    ensures
        f1 == f2,
{
    let files = info.structure.spec_files();
    match info.structure {
        FsStructure::File(_) => {
        },
        FsStructure::Archive { files: fs } => {
            if f1 < f2 {
                lemma_offsets_chain(fs@, f1, f2);
            } else if f2 < f1 {
                lemma_offsets_chain(fs@, f2, f1);
            }
        },
    }
}

/// In a contiguous file list an earlier file ends at or before a later
/// file's start.
proof fn lemma_offsets_chain(files: Seq<FileInfo>, i: int, j: int)
    requires
        forall|x: int|
            0 < x < files.len() ==> (#[trigger] files[x]).torrent_offset == files[
            x - 1].spec_end(),
        forall|x: int| 0 <= x < files.len() ==> (#[trigger] files[x]).wf(),
        0 <= i < j < files.len(),
    ensures
        files[i].spec_end() <= files[j].torrent_offset,
    decreases j - i,
{
    if j == i + 1 {
    } else {
        lemma_offsets_chain(files, i, j - 1);
        assert(files[j].torrent_offset == files[j - 1].spec_end());
    }
}

/// Downloading the same torrent with the same content again persists the
/// same bytes: two write plans for a piece with identical bytes persist
/// identical byte strings, begin in the same file at the same offset, and
/// wherever they touch the same position of the same file they write the
/// same byte.
pub proof fn lemma_redownload_identical(
    info: StorageInfo,
    piece_index: int,
    bytes: Seq<u8>,
    w1: Seq<FileWrite>,
    w2: Seq<FileWrite>,
)
    requires
        info.wf(),
        0 <= piece_index < info.piece_count,
        writes_follow_layout(info, piece_index, bytes, w1),
        writes_follow_layout(info, piece_index, bytes, w2),
    ensures
        plan_bytes(w1) == plan_bytes(w2),
        w1[0].file_index == w2[0].file_index,
        w1[0].offset == w2[0].offset,
        forall|j1: int, j2: int, t1: int, t2: int|
            #![trigger write_bytes(w1[j1])[t1], write_bytes(w2[j2])[t2]]
            0 <= j1 < w1.len() && 0 <= j2 < w2.len() && 0 <= t1 < write_bytes(w1[j1]).len() && 0
                <= t2 < write_bytes(w2[j2]).len() && w1[j1].file_index == w2[j2].file_index && w1[
            j1].offset + t1 == w2[j2].offset + t2 ==> write_bytes(w1[j1])[t1] == write_bytes(
                w2[j2],
            )[t2],
{
    let pto = info.spec_piece_offset(piece_index);
    let files = info.structure.spec_files();
    lemma_containing_file_unique(
        info,
        pto,
        w1[0].file_index as int,
        w2[0].file_index as int,
    );
    assert(plan_bytes(w1.take(0)).len() == 0);
    assert(plan_bytes(w2.take(0)).len() == 0);
    assert forall|j1: int, j2: int, t1: int, t2: int|
        #![trigger write_bytes(w1[j1])[t1], write_bytes(w2[j2])[t2]]
        0 <= j1 < w1.len() && 0 <= j2 < w2.len() && 0 <= t1 < write_bytes(w1[j1]).len() && 0 <= t2
            < write_bytes(w2[j2]).len() && w1[j1].file_index == w2[j2].file_index && w1[j1].offset
            + t1 == w2[j2].offset + t2 implies write_bytes(w1[j1])[t1] == write_bytes(
        w2[j2],
    )[t2] by {
        // the two writes are the same step of each plan, and the matching
        // file offsets name the same position within the piece's bytes
        assert(w1[j1].file_index == w1[0].file_index + j1);
        assert(w2[j2].file_index == w2[0].file_index + j2);
        assert(j1 == j2);
        let fi = w1[j1].file_index as int;
        let c1 = plan_bytes(w1.take(j1)).len();
        let c2 = plan_bytes(w2.take(j2)).len();
        assert(w1[j1].offset == pto + c1 - files[fi].torrent_offset);
        assert(w2[j2].offset == pto + c2 - files[fi].torrent_offset);
        lemma_plan_bytes_index(w1, j1, t1);
        lemma_plan_bytes_index(w2, j2, t2);
        assert(plan_bytes(w1)[c1 + t1] == write_bytes(w1[j1])[t1]);
        assert(plan_bytes(w2)[c2 + t2] == write_bytes(w2[j2])[t2]);
        assert(c1 + t1 == c2 + t2);
    }
}

} // verus!
