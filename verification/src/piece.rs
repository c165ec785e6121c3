//! An in-progress piece: the blocks downloaded so far, the hash check once
//! all of them are here, and the plan of positional file writes that
//! persists a valid piece.

use vstd::prelude::*;

use crate::iovecs::{concat_bufs, lemma_concat_bufs_push, split_at_bound};
use crate::storage_info::FileInfo;
use crate::{spec_block_count, spec_block_len, FileIndex, BLOCK_LEN};

use core::ops::Range;

use sha1::Digest;

verus! {

/// The SHA-1 digest of a byte string, as the `sha1` crate computes it.
pub uninterp spec fn sha1_of(data: Seq<u8>) -> Seq<u8>;

/// Relies on `sha1::Sha1` through `Digest::digest`: the digest is a function
/// of the input bytes alone and is twenty bytes long.
#[verifier::external_body]
fn sha1_digest(data: &Vec<u8>) -> (r: Vec<u8>)
    ensures
        r@ == sha1_of(data@),
        r@.len() == 20,
{
    sha1::Sha1::digest(data.as_slice()).as_slice().to_vec()
}

/// One positional write of a piece's bytes into one file: the buffers are
/// written back to back starting at the given offset within the file.
pub struct FileWrite {
    /// The index of the file written to, within the torrent's file list.
    pub file_index: FileIndex,
    /// The byte offset within the file at which the first buffer starts.
    pub offset: u64,
    /// The byte buffers to write, in order.
    pub bufs: Vec<Vec<u8>>,
}

/// The bytes that one write persists.
pub open spec fn write_bytes(w: FileWrite) -> Seq<u8> {
    concat_bufs(w.bufs@)
}

/// The bytes that a write plan persists, over all its writes, in order.
pub open spec fn plan_bytes(plan: Seq<FileWrite>) -> Seq<u8>
    decreases plan.len(),
{
    if plan.len() == 0 {
        Seq::empty()
    } else {
        plan_bytes(plan.drop_last()) + write_bytes(plan.last())
    }
}

/// Appending one write appends its bytes.
pub proof fn lemma_plan_bytes_push(plan: Seq<FileWrite>, w: FileWrite)
    ensures
        plan_bytes(plan.push(w)) == plan_bytes(plan) + write_bytes(w),
{
    assert(plan.push(w).drop_last() == plan);
    assert(plan.push(w).last() == w);
}

/// Buffer lists with pointwise equal bytes concatenate to the same bytes.
proof fn lemma_concat_pointwise(a: Seq<Vec<u8>>, b: Seq<Vec<u8>>)
    requires
        a.len() == b.len(),
        forall|k: int| 0 <= k < a.len() ==> (#[trigger] a[k])@ == b[k]@,
    ensures
        concat_bufs(a) == concat_bufs(b),
    decreases a.len(),
{
    if a.len() > 0 {
        lemma_concat_pointwise(a.drop_last(), b.drop_last());
    }
}

/// An in-progress piece download that keeps in memory the blocks downloaded
/// so far and the expected hash of the piece.
pub struct Piece {
    /// The expected SHA-1 digest of the whole piece, twenty bytes.
    pub expected_hash: Vec<u8>,
    /// The length of the piece, in bytes.
    pub len: u32,
    /// The blocks downloaded so far, one slot per block of the piece, in
    /// ascending offset order. The piece is complete when every slot is
    /// filled.
    pub blocks: Vec<Option<Vec<u8>>>,
    /// The left-inclusive range of indices of the files this piece overlaps
    /// with.
    pub files: Range<FileIndex>,
}

impl Piece {
    /// One slot per block, and every downloaded block has its block's exact
    /// length.
    pub open spec fn wf(self) -> bool {
        &&& 0 < self.len
        &&& self.blocks@.len() == spec_block_count(self.len)
        &&& (forall|k: int|
            0 <= k < self.blocks@.len() && self.blocks@[k] is Some
                ==> (#[trigger] self.blocks@[k])->0@.len() == spec_block_len(self.len, k))
        &&& self.expected_hash@.len() == 20
    }

    /// Whether every block of the piece has been downloaded.
    pub open spec fn spec_is_complete(self) -> bool {
        forall|k: int| 0 <= k < self.blocks@.len() ==> (#[trigger] self.blocks@[k]) is Some
    }

    /// The downloaded blocks' bytes, one sequence per block.
    pub open spec fn block_datas(self) -> Seq<Vec<u8>> {
        self.blocks@.map_values(|b: Option<Vec<u8>>| b->0)
    }

    /// The piece's bytes: the concatenation of its blocks in ascending
    /// offset order.
    pub open spec fn assembled(self) -> Seq<u8> {
        concat_bufs(self.block_datas())
    }

    /// Places the block into the piece's write buffer, unless a block at the
    /// same offset is already there, in which case the duplicate is dropped
    /// and the piece is left as it was.
    pub fn enqueue_block(&mut self, offset: u32, data: Vec<u8>)
        requires
            old(self).wf(),
            offset % BLOCK_LEN == 0,
            offset < old(self).len,
            data@.len() == spec_block_len(old(self).len, offset as int / BLOCK_LEN as int),
        ensures
            final(self).wf(),
            old(self).blocks@[offset as int / BLOCK_LEN as int] is Some ==> *final(self) == *old(
                self,
            ),
            old(self).blocks@[offset as int / BLOCK_LEN as int] is None ==> {
                &&& final(self).blocks@ == old(self).blocks@.update(
                    offset as int / BLOCK_LEN as int,
                    Some(data),
                )
                &&& final(self).expected_hash == old(self).expected_hash
                &&& final(self).len == old(self).len
                &&& final(self).files == old(self).files
            },
    {
        proof {
            lemma_block_index_in_range(self.len, offset);
        }
        let index = (offset / BLOCK_LEN) as usize;
        if self.blocks[index].is_none() {
            self.blocks[index] = Some(data);
        }
    }

    /// Returns true if the piece has all its blocks in its write buffer.
    pub fn is_complete(&self) -> (r: bool)
        ensures
            r == self.spec_is_complete(),
    {
        let mut k: usize = 0;
        while k < self.blocks.len()
            invariant
                0 <= k <= self.blocks@.len(),
                forall|j: int| 0 <= j < k ==> (#[trigger] self.blocks@[j]) is Some,
            decreases self.blocks@.len() - k,
        {
            if self.blocks[k].is_none() {
                return false;
            }
            k = k + 1;
        }
        true
    }

    /// The piece's bytes as one owned buffer.
    fn assembled_bytes(&self) -> (data: Vec<u8>)
        requires
            self.wf(),
            self.spec_is_complete(),
        ensures
            data@ == self.assembled(),
    {
        let bufs = self.assemble_bufs();
        let ghost all = bufs@;
        let mut data: Vec<u8> = Vec::new();
        let mut k: usize = 0;
        while k < bufs.len()
            invariant
                bufs@ == all,
                0 <= k <= all.len(),
                data@ == concat_bufs(all.take(k as int)),
            decreases all.len() - k,
        {
            let buf = &bufs[k];
            let mut i: usize = 0;
            while i < buf.len()
                invariant
                    bufs@ == all,
                    0 <= k < all.len(),
                    buf == all[k as int],
                    0 <= i <= buf@.len(),
                    data@ == concat_bufs(all.take(k as int)) + buf@.take(i as int),
                decreases buf@.len() - i,
            {
                data.push(buf[i]);
                i = i + 1;
                proof {
                    assert(buf@.take(i as int) == buf@.take(i - 1).push(buf@[i - 1]));
                }
            }
            proof {
                lemma_concat_bufs_push(all.take(k as int), all[k as int]);
                assert(all.take(k + 1) == all.take(k as int).push(all[k as int]));
                assert(buf@.take(buf@.len() as int) == buf@);
            }
            k = k + 1;
        }
        proof {
            assert(all.take(all.len() as int) == all);
        }
        data
    }

    /// The piece's blocks as owned buffers, in ascending offset order.
    fn assemble_bufs(&self) -> (bufs: Vec<Vec<u8>>)
        requires
            self.wf(),
            self.spec_is_complete(),
        ensures
            bufs@.len() == self.blocks@.len(),
            forall|k: int| 0 <= k < bufs@.len() ==> (#[trigger] bufs@[k])@ == self.block_datas()[k]@,
            concat_bufs(bufs@) == self.assembled(),
    {
        let mut bufs: Vec<Vec<u8>> = Vec::new();
        let mut k: usize = 0;
        while k < self.blocks.len()
            invariant
                self.wf(),
                self.spec_is_complete(),
                0 <= k <= self.blocks@.len(),
                bufs@.len() == k,
                forall|j: int|
                    0 <= j < k ==> (#[trigger] bufs@[j])@ == self.block_datas()[j]@,
            decreases self.blocks@.len() - k,
        {
            let block = match &self.blocks[k] {
                Some(block) => block,
                None => {
                    proof {
                        assert(false);
                    }
                    vstd::pervasive::unreached()
                },
            };
            let mut copy: Vec<u8> = Vec::new();
            let mut i: usize = 0;
            while i < block.len()
                invariant
                    0 <= i <= block@.len(),
                    copy@ == block@.take(i as int),
                decreases block@.len() - i,
            {
                copy.push(block[i]);
                i = i + 1;
                proof {
                    assert(block@.take(i as int) == block@.take(i - 1).push(block@[i - 1]));
                }
            }
            proof {
                assert(block@.take(block@.len() as int) == block@);
            }
            bufs.push(copy);
            k = k + 1;
        }
        proof {
            lemma_concat_pointwise(bufs@, self.block_datas());
        }
        bufs
    }

    /// Calculates the piece's hash over all its blocks in ascending offset
    /// order and returns whether it matches the expected hash.
    pub fn matches_hash(&self) -> (r: bool)
        requires
            self.wf(),
            self.spec_is_complete(),
        ensures
            r == (sha1_of(self.assembled()) == self.expected_hash@),
    {
        let data = self.assembled_bytes();
        let digest = sha1_digest(&data);
        bytes_eq(&digest, &self.expected_hash)
    }

    /// Plans the positional writes that persist the piece: one write per
    /// file the piece overlaps with, each write staying within its file, and
    /// the writes together persisting exactly the piece's bytes in order.
    ///
    /// `piece_torrent_offset` is the offset of the piece's first byte in the
    /// torrent and `all_files` the torrent's file list, of which
    /// `self.files` must name the contiguous files that cover the piece's
    /// byte range.
    pub fn write_plan(&self, piece_torrent_offset: u64, all_files: &Vec<FileInfo>) -> (plan: Vec<
        FileWrite,
    >)
        requires
            self.wf(),
            self.spec_is_complete(),
            self.files.start < self.files.end <= all_files@.len(),
            forall|i: int|
                self.files.start <= i < self.files.end ==> (#[trigger] all_files@[i]).wf(),
            forall|i: int|
                self.files.start <= i < self.files.end ==> (#[trigger] all_files@[i]).len > 0,
            forall|i: int|
                self.files.start < i < self.files.end ==> (#[trigger] all_files@[i]).torrent_offset
                    == all_files@[i - 1].spec_end(),
            all_files@[self.files.start as int].spec_contains(piece_torrent_offset as int),
            forall|i: int|
                self.files.start < i < self.files.end ==> (#[trigger] all_files@[i]).torrent_offset
                    < piece_torrent_offset + self.len,
            piece_torrent_offset + self.len <= all_files@[self.files.end - 1].spec_end(),
        ensures
            plan@.len() == self.files.end - self.files.start,
            plan_bytes(plan@) == self.assembled(),
            forall|j: int|
                0 <= j < plan@.len() ==> (#[trigger] plan@[j]).file_index == self.files.start + j,
            forall|j: int|
                0 <= j < plan@.len() ==> (#[trigger] plan@[j]).offset
                    == piece_torrent_offset + plan_bytes(plan@.take(j)).len() - all_files@[
                    self.files.start + j].torrent_offset,
            forall|j: int|
                0 <= j < plan@.len() ==> (#[trigger] plan@[j]).offset + write_bytes(plan@[j]).len()
                    <= all_files@[self.files.start + j].len,
    {
        proof {
            lemma_assembled_len(*self);
        }
        let ghost piece_bytes = self.assembled();
        let ghost start = self.files.start as int;
        let ghost fend = self.files.end as int;
        let ghost pto = piece_torrent_offset as int;
        let mut bufs = self.assemble_bufs();
        let mut plan: Vec<FileWrite> = Vec::new();
        let mut write_offset: u64 = piece_torrent_offset;
        let mut remaining: u64 = self.len as u64;
        let mut idx: usize = self.files.start;
        while idx < self.files.end
            invariant
                self.wf(),
                self.spec_is_complete(),
                piece_bytes == self.assembled(),
                piece_bytes.len() == self.len,
                start == self.files.start,
                fend == self.files.end,
                pto == piece_torrent_offset,
                start < fend <= all_files@.len(),
                forall|i: int| start <= i < fend ==> (#[trigger] all_files@[i]).wf(),
                forall|i: int| start <= i < fend ==> (#[trigger] all_files@[i]).len > 0,
                forall|i: int|
                    start < i < fend ==> (#[trigger] all_files@[i]).torrent_offset == all_files@[i
                        - 1].spec_end(),
                forall|i: int|
                    start < i < fend ==> (#[trigger] all_files@[i]).torrent_offset < pto
                        + self.len,
                pto + self.len <= all_files@[fend - 1].spec_end(),
                start <= idx <= fend,
                plan@.len() == idx - start,
                remaining <= self.len,
                write_offset == pto + self.len - remaining,
                concat_bufs(bufs@) == piece_bytes.skip(self.len - remaining),
                plan_bytes(plan@) == piece_bytes.take(self.len - remaining),
                idx < fend ==> all_files@[idx as int].spec_contains(write_offset as int),
                idx < fend ==> remaining > 0,
                idx == fend ==> remaining == 0,
                forall|j: int|
                    0 <= j < plan@.len() ==> (#[trigger] plan@[j]).file_index == start + j,
                forall|j: int|
                    0 <= j < plan@.len() ==> (#[trigger] plan@[j]).offset == pto + plan_bytes(
                        plan@.take(j),
                    ).len() - all_files@[start + j].torrent_offset,
                forall|j: int|
                    0 <= j < plan@.len() ==> (#[trigger] plan@[j]).offset + write_bytes(
                        plan@[j],
                    ).len() <= all_files@[start + j].len,
            decreases fend - idx,
        {
            let ghost consumed_before = self.len - remaining;
            let file = &all_files[idx];
            let slice = file.get_slice(write_offset, remaining);
            let pair = split_at_bound(bufs, slice.len);
            let ghost plan_before = plan@;
            let ghost head_bytes = concat_bufs(pair.0@);
            proof {
                assert(head_bytes =~= piece_bytes.subrange(
                    consumed_before,
                    consumed_before + slice.len,
                ));
                assert(concat_bufs(pair.1@) =~= piece_bytes.skip(consumed_before + slice.len));
            }
            plan.push(FileWrite { file_index: idx, offset: slice.offset, bufs: pair.0 });
            bufs = pair.1;
            write_offset = write_offset + slice.len;
            remaining = remaining - slice.len;
            idx = idx + 1;
            proof {
                lemma_plan_bytes_push(plan_before, plan@.last());
                assert(plan@.drop_last() == plan_before);
                assert(plan_bytes(plan@) =~= piece_bytes.take(consumed_before + slice.len));
                assert forall|j: int| 0 <= j < plan_before.len() implies plan@.take(j)
                    == plan_before.take(j) by {
                    assert(plan@.take(j) =~= plan_before.take(j));
                }
                assert(plan@.take(plan@.len() - 1) =~= plan_before);
                if idx < fend {
                    assert(all_files@[idx as int].torrent_offset == all_files@[idx
                        - 1].spec_end());
                    assert(all_files@[idx as int].torrent_offset < pto + self.len);
                    assert(all_files@[idx as int].spec_contains(write_offset as int));
                } else {
                    assert(pto + self.len <= all_files@[fend - 1].spec_end());
                    assert(remaining == 0);
                }
            }
        }
        proof {
            assert(piece_bytes.take(self.len as int) =~= piece_bytes);
        }
        plan
    }
}

/// The first `k` blocks of a complete piece hold `k` full block lengths of
/// bytes, or the whole piece once the last block is among them.
proof fn lemma_assembled_prefix_len(p: Piece, k: int)
    requires
        p.wf(),
        p.spec_is_complete(),
        0 <= k <= p.blocks@.len(),
    ensures
        concat_bufs(p.block_datas().take(k)).len() == if k == p.blocks@.len() {
            p.len as int
        } else {
            k * BLOCK_LEN
        },
    decreases k,
{
    let datas = p.block_datas();
    let b = BLOCK_LEN as int;
    if k == 0 {
        assert(0 * b == 0) by (nonlinear_arith);
    } else {
        lemma_assembled_prefix_len(p, k - 1);
        crate::lemma_block_len_values(p.len, k - 1);
        assert(datas.take(k).drop_last() == datas.take(k - 1));
        assert(datas.take(k).last() == datas[k - 1]);
        assert(datas[k - 1]@.len() == spec_block_len(p.len, k - 1));
        if k < p.blocks@.len() {
            assert(k * b == (k - 1) * b + b) by (nonlinear_arith);
        } else {
            assert((k - 1) * b + (p.len - (k - 1) * b) == p.len as int);
        }
    }
}

/// A complete piece's assembled bytes are exactly as long as the piece.
pub proof fn lemma_assembled_len(p: Piece)
    requires
        p.wf(),
        p.spec_is_complete(),
    ensures
        p.assembled().len() == p.len,
{
    lemma_assembled_prefix_len(p, p.blocks@.len() as int);
    assert(p.block_datas().take(p.blocks@.len() as int) == p.block_datas());
}

/// Whether two byte buffers hold the same bytes.
pub(crate) fn bytes_eq(a: &Vec<u8>, b: &Vec<u8>) -> (r: bool)
    ensures
        r == (a@ == b@),
{
    if a.len() != b.len() {
        proof {
            assert(a@ != b@);
        }
        return false;
    }
    let mut i: usize = 0;
    while i < a.len()
        invariant
            a@.len() == b@.len(),
            0 <= i <= a@.len(),
            forall|j: int| 0 <= j < i ==> a@[j] == b@[j],
        decreases a@.len() - i,
    {
        if a[i] != b[i] {
            proof {
                assert(a@ != b@);
            }
            return false;
        }
        i = i + 1;
    }
    proof {
        assert(a@ =~= b@);
    }
    true
}

/// A block's offset within its piece names one of the piece's blocks.
pub proof fn lemma_block_index_in_range(piece_len: u32, offset: u32)
    requires
        offset < piece_len,
        offset % BLOCK_LEN == 0,
    ensures
        0 <= offset as int / (BLOCK_LEN as int),
        (offset as int / (BLOCK_LEN as int)) < spec_block_count(piece_len),
        (offset as int / (BLOCK_LEN as int)) * (BLOCK_LEN as int) <= offset,
{
    let b = BLOCK_LEN as int;
    let k = offset as int / b;
    let count = spec_block_count(piece_len);
    assert(count == (piece_len + b - 1) / b);
    assert(k >= 0 && k * b <= offset && k < count) by (nonlinear_arith)
        requires
            b == 0x4000,
            k == offset as int / b,
            count == (piece_len + b - 1) / b,
            offset as int % b == 0,
            offset < piece_len;
}


/// What enqueuing a block does to the buffered slots: fills the block's
/// slot, unless it is already filled, in which case the duplicate is
/// dropped.
pub open spec fn spec_enqueue(
    blocks: Seq<Option<Vec<u8>>>,
    k: int,
    data: Vec<u8>,
) -> Seq<Option<Vec<u8>>> {
    if blocks[k] is Some {
        blocks
    } else {
        blocks.update(k, Some(data))
    }
}

/// Delivery order does not matter: enqueuing two blocks of different
/// offsets in either order leaves the same buffer, so any permutation of a
/// piece's block set assembles the same bytes and hashes to the same
/// digest.
pub proof fn lemma_enqueue_order_irrelevant(
    blocks: Seq<Option<Vec<u8>>>,
    k1: int,
    data1: Vec<u8>,
    k2: int,
    data2: Vec<u8>,
)
    requires
        0 <= k1 < blocks.len(),
        0 <= k2 < blocks.len(),
        k1 != k2,
    ensures
        spec_enqueue(spec_enqueue(blocks, k1, data1), k2, data2) == spec_enqueue(
            spec_enqueue(blocks, k2, data2),
            k1,
            data1,
        ),
{
    assert(spec_enqueue(spec_enqueue(blocks, k1, data1), k2, data2) =~= spec_enqueue(
        spec_enqueue(blocks, k2, data2),
        k1,
        data1,
    ));
}

/// Delivering the same block twice changes nothing the second time.
pub proof fn lemma_enqueue_duplicate_dropped(
    blocks: Seq<Option<Vec<u8>>>,
    k: int,
    data1: Vec<u8>,
    data2: Vec<u8>,
)
    requires
        0 <= k < blocks.len(),
    ensures
        spec_enqueue(spec_enqueue(blocks, k, data1), k, data2) == spec_enqueue(blocks, k, data1),
{
    assert(spec_enqueue(spec_enqueue(blocks, k, data1), k, data2) =~= spec_enqueue(
        blocks,
        k,
        data1,
    ));
}

} // verus!
