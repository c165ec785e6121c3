//! Lists of byte buffers as handed to vectored positional writes: splitting
//! such a list at a byte bound (the part of a piece that fits the current
//! file) and advancing it past bytes that a short write already persisted.

use vstd::prelude::*;

verus! {

/// The bytes of the buffers, concatenated in order.
pub open spec fn concat_bufs(bufs: Seq<Vec<u8>>) -> Seq<u8>
    decreases bufs.len(),
{
    if bufs.len() == 0 {
        Seq::empty()
    } else {
        concat_bufs(bufs.drop_last()) + bufs.last()@
    }
}

/// Concatenation can be unfolded at the front as well as at the back.
pub proof fn lemma_concat_bufs_first(bufs: Seq<Vec<u8>>)
    requires
        bufs.len() > 0,
    ensures
        concat_bufs(bufs) == bufs.first()@ + concat_bufs(bufs.drop_first()),
    decreases bufs.len(),
{
    if bufs.len() == 1 {
        assert(bufs.drop_last().len() == 0);
        assert(bufs.drop_first().len() == 0);
        assert(bufs.last() == bufs.first());
        assert(concat_bufs(bufs.drop_last()) =~= Seq::<u8>::empty());
        assert(concat_bufs(bufs.drop_first()) =~= Seq::<u8>::empty());
        assert(concat_bufs(bufs) =~= bufs.first()@ + concat_bufs(bufs.drop_first()));
    } else {
        lemma_concat_bufs_first(bufs.drop_last());
        assert(bufs.drop_last().first() == bufs.first());
        assert(bufs.drop_last().drop_first() == bufs.drop_first().drop_last());
        assert(concat_bufs(bufs) =~= bufs.first()@ + concat_bufs(bufs.drop_first()));
    }
}

/// Concatenation distributes over appending one buffer.
pub proof fn lemma_concat_bufs_push(bufs: Seq<Vec<u8>>, buf: Vec<u8>)
    ensures
        concat_bufs(bufs.push(buf)) == concat_bufs(bufs) + buf@,
{
    assert(bufs.push(buf).drop_last() == bufs);
    assert(bufs.push(buf).last() == buf);
}

/// Copies the bytes of `v` from `from` (inclusive) to `to` (exclusive).
pub(crate) fn copy_byte_range(v: &Vec<u8>, from: usize, to: usize) -> (r: Vec<u8>)
    requires
        from <= to <= v@.len(),
    ensures
        r@ == v@.subrange(from as int, to as int),
{
    let mut r: Vec<u8> = Vec::new();
    let mut i: usize = from;
    while i < to
        invariant
            from <= i <= to <= v@.len(),
            r@ == v@.subrange(from as int, i as int),
        decreases to - i,
    {
        r.push(v[i]);
        proof {
            assert(v@.subrange(from as int, i + 1) == v@.subrange(from as int, i as int).push(
                v@[i as int],
            ));
        }
        i = i + 1;
    }
    r
}

/// Splits the buffer list in two at the byte bound: the first holds the
/// first `min(bound, total)` bytes, the second the rest. A buffer stretching
/// over the bound is cut in two.
pub fn split_at_bound(bufs: Vec<Vec<u8>>, bound: u64) -> (r: (Vec<Vec<u8>>, Vec<Vec<u8>>))
    requires
        concat_bufs(bufs@).len() <= u64::MAX,
    ensures
        concat_bufs(r.0@) == concat_bufs(bufs@).take(
            vstd::math::min(bound as int, concat_bufs(bufs@).len() as int),
        ),
        concat_bufs(r.1@) == concat_bufs(bufs@).skip(
            vstd::math::min(bound as int, concat_bufs(bufs@).len() as int),
        ),
        concat_bufs(r.0@).len() == vstd::math::min(bound as int, concat_bufs(bufs@).len() as int),
{
    let ghost orig = concat_bufs(bufs@);
    let mut rest = bufs;
    let mut head: Vec<Vec<u8>> = Vec::new();
    let mut head_len: u64 = 0;
    while rest.len() > 0 && head_len < bound
        invariant
            head_len <= bound,
            orig.len() <= u64::MAX,
            head_len == concat_bufs(head@).len(),
            concat_bufs(head@) + concat_bufs(rest@) == orig,
        decreases rest@.len() + (if head_len < bound {
            1int
        } else {
            0int
        }),
    {
        let ghost head_before = concat_bufs(head@);
        proof {
            lemma_concat_bufs_first(rest@);
        }
        let buf = rest.remove(0);
        let ghost rest_after_view = rest@;
        let ghost rest_after_bytes = concat_bufs(rest@);
        if buf.len() as u64 <= bound - head_len {
            let buf_len = buf.len();
            proof {
                lemma_concat_bufs_push(head@, buf);
            }
            head.push(buf);
            head_len = head_len + buf_len as u64;
            proof {
                assert(concat_bufs(head@) + concat_bufs(rest@) =~= orig);
            }
        } else {
            // the bound falls inside this buffer: cut it in two
            let cut = (bound - head_len) as usize;
            let front = copy_byte_range(&buf, 0, cut);
            let back = copy_byte_range(&buf, cut, buf.len());
            proof {
                lemma_concat_bufs_push(head@, front);
            }
            head.push(front);
            rest.insert(0, back);
            head_len = bound;
            proof {
                lemma_concat_bufs_first(rest@);
                assert(rest@.first() == back);
                assert(rest@.drop_first() =~= rest_after_view);
                assert(concat_bufs(rest@) == back@ + rest_after_bytes);
                assert(buf@ =~= front@ + back@);
                assert(concat_bufs(head@) + concat_bufs(rest@) =~= orig);
            }
        }
    }
    proof {
        let m = vstd::math::min(bound as int, orig.len() as int);
        if rest.len() == 0 {
            assert(concat_bufs(rest@).len() == 0);
            assert(head_len == orig.len());
        }
        assert(head_len == m);
        assert(concat_bufs(head@) =~= orig.take(m));
        assert(concat_bufs(rest@) =~= orig.skip(m));
    }
    (head, rest)
}

/// Drops the first `count` bytes from the front of the buffer list, as after
/// a positional write that persisted only part of it: buffers wholly written
/// disappear and a partly written one keeps only its tail.
pub fn advance(bufs: Vec<Vec<u8>>, count: usize) -> (r: Vec<Vec<u8>>)
    requires
        count <= concat_bufs(bufs@).len(),
        concat_bufs(bufs@).len() <= u64::MAX,
    ensures
        concat_bufs(r@) == concat_bufs(bufs@).skip(count as int),
{
    let (_, rest) = split_at_bound(bufs, count as u64);
    rest
}

} // verus!
