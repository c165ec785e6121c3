//! A piece download in progress on a peer session: which of the piece's
//! blocks are still free, have been requested, or have been received.

use vstd::prelude::*;

use crate::{block_len, spec_block_count, spec_block_len, BlockInfo, PieceIndex, BLOCK_LEN};

verus! {

/// The status of one block within a piece download.
#[derive(Clone, Copy, Debug, PartialEq, Eq, Structural)]
pub enum BlockStatus {
    /// The block has not been requested yet.
    Free,
    /// A request for the block is outstanding.
    Requested,
    /// The block has arrived.
    Received,
}

/// The number of `Free` entries among the first `k`.
pub open spec fn free_before(s: Seq<BlockStatus>, k: int) -> int
    decreases k,
{
    if k <= 0 {
        0
    } else {
        free_before(s, k - 1) + if s[k - 1] is Free {
            1int
        } else {
            0int
        }
    }
}

/// The number of entries that are not `Received` among the first `k`.
pub open spec fn missing_before(s: Seq<BlockStatus>, k: int) -> int
    decreases k,
{
    if k <= 0 {
        0
    } else {
        missing_before(s, k - 1) + if s[k - 1] is Received {
            0int
        } else {
            1int
        }
    }
}

/// Counting free entries never decreases as the prefix grows, and grows at
/// most one per entry.
pub proof fn lemma_free_before_monotone(s: Seq<BlockStatus>, a: int, b: int)
    requires
        0 <= a <= b,
    ensures
        free_before(s, a) <= free_before(s, b),
    decreases b - a,
{
    if a < b {
        lemma_free_before_monotone(s, a, b - 1);
    }
}

/// Counting missing entries never decreases as the prefix grows.
pub proof fn lemma_missing_before_monotone(s: Seq<BlockStatus>, a: int, b: int)
    requires
        0 <= a <= b,
    ensures
        missing_before(s, a) <= missing_before(s, b),
    decreases b - a,
{
    if a < b {
        lemma_missing_before_monotone(s, a, b - 1);
    }
}

/// An entry that has not been received counts as missing.
pub proof fn lemma_missing_at(s: Seq<BlockStatus>, k: int)
    requires
        0 <= k < s.len(),
        !(s[k] is Received),
    ensures
        missing_before(s, s.len() as int) >= 1,
{
    lemma_missing_before_monotone(s, 0, k);
    assert(missing_before(s, k + 1) == missing_before(s, k) + 1);
    lemma_missing_before_monotone(s, k + 1, s.len() as int);
}

/// With no free entry at all, the free count is zero.
proof fn lemma_free_before_zero(s: Seq<BlockStatus>, m: int)
    requires
        0 <= m <= s.len(),
        forall|k: int| 0 <= k < s.len() ==> !((#[trigger] s[k]) is Free),
    ensures
        free_before(s, m) == 0,
    decreases m,
{
    if m > 0 {
        lemma_free_before_zero(s, m - 1);
    }
}

/// When picking was allowed to take at least as many blocks as were free,
/// no block is left free afterwards.
pub proof fn lemma_no_free_left(pre: Seq<BlockStatus>, post: Seq<BlockStatus>, count: int)
    requires
        pre.len() == post.len(),
        free_before(pre, pre.len() as int) <= count,
        forall|k: int|
            0 <= k < pre.len() ==> (#[trigger] post[k]) == (if pre[k] is Free && free_before(
                pre,
                k,
            ) < count {
                BlockStatus::Requested
            } else {
                pre[k]
            }),
    ensures
        free_before(post, post.len() as int) == 0,
{
    assert forall|k: int| 0 <= k < post.len() implies !((#[trigger] post[k]) is Free) by {
        if pre[k] is Free {
            lemma_free_before_monotone(pre, k + 1, pre.len() as int);
            assert(free_before(pre, k + 1) == free_before(pre, k) + 1);
        }
    }
    lemma_free_before_zero(post, post.len() as int);
}

/// Whether `b` is the block info of the `rank`-th free block of the
/// download's piece.
pub open spec fn is_free_block_at_rank(d: PieceDownload, rank: int, b: BlockInfo) -> bool {
    exists|k: int|
        0 <= k < d.blocks@.len() && d.blocks@[k] is Free && free_before(d.blocks@, k) == rank
            && b == d.spec_block_at(k)
}

/// A download of one piece: tracks which blocks have been requested from
/// the peer and which have arrived.
pub struct PieceDownload {
    /// The index of the piece being downloaded.
    pub index: PieceIndex,
    /// The length of the piece, in bytes.
    pub len: u32,
    /// One status per block of the piece.
    pub blocks: Vec<BlockStatus>,
}

impl PieceDownload {
    /// One status slot per block of the piece.
    pub open spec fn wf(self) -> bool {
        &&& 0 < self.len
        &&& self.blocks@.len() == spec_block_count(self.len)
    }

    /// The block info of the piece's `k`-th block.
    pub open spec fn spec_block_at(self, k: int) -> BlockInfo {
        BlockInfo {
            piece_index: self.index,
            offset: (k * BLOCK_LEN) as u32,
            len: spec_block_len(self.len, k) as u32,
        }
    }

    /// The `k`-th block's info names a block of the piece: its offset is
    /// aligned, inside the piece, and maps back to `k`, and its length is
    /// the block's.
    pub proof fn lemma_block_at_valid(self, k: int)
        requires
            self.wf(),
            0 <= k < self.blocks@.len(),
        ensures
            self.spec_block_at(k).piece_index == self.index,
            self.spec_block_at(k).offset % BLOCK_LEN == 0,
            self.spec_block_at(k).offset < self.len,
            self.spec_block_at(k).offset as int / (BLOCK_LEN as int) == k,
            self.spec_block_at(k).len == spec_block_len(self.len, k),
    {
        crate::lemma_block_len_values(self.len, k);
        let b = BLOCK_LEN as int;
        assert(k * b < self.len);
        assert((k * b) % b == 0 && (k * b) / b == k) by (nonlinear_arith)
            requires
                b == 0x4000,
                0 <= k;
        assert(self.spec_block_at(k).offset == k * b);
    }

    /// Starts a download of the piece with all blocks free.
    pub fn new(index: PieceIndex, len: u32) -> (d: PieceDownload)
        requires
            len > 0,
        ensures
            d.wf(),
            d.index == index,
            d.len == len,
            forall|k: int| 0 <= k < d.blocks@.len() ==> (#[trigger] d.blocks@[k]) is Free,
    {
        let count = crate::block_count(len);
        let mut blocks: Vec<BlockStatus> = Vec::new();
        let mut k: usize = 0;
        while k < count
            invariant
                0 <= k <= count,
                blocks@.len() == k,
                forall|j: int| 0 <= j < k ==> (#[trigger] blocks@[j]) is Free,
            decreases count - k,
        {
            blocks.push(BlockStatus::Free);
            k = k + 1;
        }
        PieceDownload { index, len, blocks }
    }

    /// Returns the index of the piece being downloaded.
    pub fn piece_index(&self) -> (i: PieceIndex)
        ensures
            i == self.index,
    {
        self.index
    }

    /// Picks at most `count` free blocks in ascending order, marks them
    /// requested, and appends their block infos to `blocks`: exactly the
    /// first free blocks, as many as are free but no more than `count`.
    pub fn pick_blocks(&mut self, count: usize, blocks: &mut Vec<BlockInfo>)
        requires
            old(self).wf(),
        ensures
            final(self).wf(),
            final(self).index == old(self).index,
            final(self).len == old(self).len,
            final(self).blocks@.len() == old(self).blocks@.len(),
            forall|k: int|
                0 <= k < old(self).blocks@.len() ==> (#[trigger] final(self).blocks@[k]) == (
                if old(self).blocks@[k] is Free && free_before(old(self).blocks@, k) < count {
                    BlockStatus::Requested
                } else {
                    old(self).blocks@[k]
                }),
            final(blocks)@.len() == old(blocks)@.len() + vstd::math::min(
                count as int,
                free_before(old(self).blocks@, old(self).blocks@.len() as int),
            ),
            forall|j: int| 0 <= j < old(blocks)@.len() ==> final(blocks)@[j] == old(blocks)@[j],
            forall|k: int|
                0 <= k < old(self).blocks@.len() && old(self).blocks@[k] is Free && free_before(
                    old(self).blocks@,
                    k,
                ) < count ==> final(blocks)@[old(blocks)@.len() + free_before(
                    old(self).blocks@,
                    k,
                )] == (#[trigger] old(self).spec_block_at(k)),
            forall|j: int|
                old(blocks)@.len() <= j < final(blocks)@.len() ==> is_free_block_at_rank(
                    *old(self),
                    j - old(blocks)@.len(),
                    #[trigger] final(blocks)@[j],
                ),
    {
        let ghost orig = self.blocks@;
        let ghost appended_at = blocks@.len() as int;
        let mut picked: usize = 0;
        let mut k: usize = 0;
        while k < self.blocks.len() && picked < count
            invariant
                self.wf(),
                self.index == old(self).index,
                self.len == old(self).len,
                self.blocks@.len() == orig.len(),
                orig == old(self).blocks@,
                appended_at == old(blocks)@.len(),
                0 <= k <= orig.len(),
                picked == free_before(orig, k as int),
                picked <= count,
                picked == count || k == orig.len() || free_before(orig, k as int) < count,
                blocks@.len() == appended_at + picked,
                forall|j: int| 0 <= j < appended_at ==> blocks@[j] == old(blocks)@[j],
                forall|j: int|
                    0 <= j < orig.len() ==> (#[trigger] self.blocks@[j]) == (if orig[j] is Free
                        && free_before(orig, j) < count && j < k {
                        BlockStatus::Requested
                    } else {
                        orig[j]
                    }),
                forall|j: int|
                    0 <= j < k && orig[j] is Free && free_before(orig, j) < count
                        ==> blocks@[appended_at + free_before(orig, j)] == (#[trigger] old(
                        self,
                    ).spec_block_at(j)),
                forall|j: int|
                    appended_at <= j < blocks@.len() ==> is_free_block_at_rank(
                        *old(self),
                        j - appended_at,
                        #[trigger] blocks@[j],
                    ),
            decreases orig.len() - k,
        {
            let status = self.blocks[k];
            if matches!(status, BlockStatus::Free) {
                proof {
                    crate::lemma_block_len_values(self.len, k as int);
                }
                let offset = (k as u32) * BLOCK_LEN;
                let len = block_len(self.len, k);
                let ghost blocks_pre = blocks@;
                let ghost pushed = BlockInfo { piece_index: self.index, offset, len };
                blocks.push(BlockInfo { piece_index: self.index, offset, len });
                self.blocks[k] = BlockStatus::Requested;
                picked = picked + 1;
                proof {
                    assert(blocks@ == blocks_pre.push(pushed));
                    assert forall|j: int|
                        0 <= j < k && orig[j] is Free && free_before(orig, j)
                            < count implies blocks@[appended_at + free_before(orig, j)] == old(
                        self,
                    ).spec_block_at(j) by {
                        assert(free_before(orig, j + 1) == free_before(orig, j) + 1);
                        lemma_free_before_monotone(orig, 0, j);
                        lemma_free_before_monotone(orig, j + 1, k as int);
                        assert(appended_at + free_before(orig, j) < blocks_pre.len());
                        assert(blocks_pre[appended_at + free_before(orig, j)] == old(
                            self,
                        ).spec_block_at(j));
                        vstd::seq::lemma_seq_push_index_different_alt(
                            blocks_pre,
                            pushed,
                            appended_at + free_before(orig, j),
                        );
                    }
                    assert(free_before(orig, k + 1) == free_before(orig, k as int) + 1);
                    assert(blocks@[appended_at + free_before(orig, k as int)] == old(
                        self,
                    ).spec_block_at(k as int));
                    assert forall|j: int|
                        appended_at <= j < blocks@.len() implies is_free_block_at_rank(
                        *old(self),
                        j - appended_at,
                        blocks@[j],
                    ) by {
                        if j < blocks@.len() - 1 {
                            vstd::seq::lemma_seq_push_index_different_alt(blocks_pre, pushed, j);
                            assert(blocks@[j] == blocks_pre[j]);
                            assert(is_free_block_at_rank(*old(self), j - appended_at, blocks_pre[j]));
                        } else {
                            assert(blocks@[j] == pushed);
                            assert(pushed == old(self).spec_block_at(k as int));
                            assert(orig[k as int] is Free && free_before(orig, k as int) == j
                                - appended_at);
                        }
                    }
                }
            }
            k = k + 1;
        }
        proof {
            let total_free = free_before(orig, orig.len() as int);
            if picked < count {
                assert(k == orig.len());
                assert(picked == total_free);
            } else {
                lemma_free_before_monotone(orig, k as int, orig.len() as int);
                assert(picked <= total_free);
            }
            assert forall|j: int|
                0 <= j < orig.len() && orig[j] is Free && free_before(orig, j) < count implies j
                < k by {
                if j >= k {
                    lemma_free_before_monotone(orig, k as int, j);
                }
            }
        }
    }

    /// Marks a requested block as received.
    pub fn received_block(&mut self, block: BlockInfo)
        requires
            old(self).wf(),
            block.piece_index == old(self).index,
            block.offset % BLOCK_LEN == 0,
            block.offset < old(self).len,
            old(self).blocks@[block.offset as int / BLOCK_LEN as int] is Requested,
        ensures
            final(self).wf(),
            final(self).index == old(self).index,
            final(self).len == old(self).len,
            final(self).blocks@ == old(self).blocks@.update(
                block.offset as int / BLOCK_LEN as int,
                BlockStatus::Received,
            ),
    {
        proof {
            crate::piece::lemma_block_index_in_range(self.len, block.offset);
        }
        let k = (block.offset / BLOCK_LEN) as usize;
        self.blocks[k] = BlockStatus::Received;
    }

    /// Returns the number of blocks that have not been received yet.
    pub fn count_missing_blocks(&self) -> (missing: usize)
        requires
            self.wf(),
        ensures
            missing == missing_before(self.blocks@, self.blocks@.len() as int),
    {
        let mut missing: usize = 0;
        let mut k: usize = 0;
        while k < self.blocks.len()
            invariant
                self.wf(),
                0 <= k <= self.blocks@.len(),
                missing == missing_before(self.blocks@, k as int),
                missing <= k,
            decreases self.blocks@.len() - k,
        {
            if !matches!(self.blocks[k], BlockStatus::Received) {
                missing = missing + 1;
            }
            k = k + 1;
        }
        missing
    }
}

} // verus!
