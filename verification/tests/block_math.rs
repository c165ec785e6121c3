use cratetorrent::{block_count, block_len, BLOCK_LEN};

// An arbitrary piece length that is an exact multiple of the canonical
// block length (16 KiB).
const BLOCK_LEN_MULTIPLE_PIECE_LEN: u32 = 2 * BLOCK_LEN;

// An arbitrary piece length that is _not_ a multiple of the canonical block
// length and the amount with which it overlaps the nearest exact multiple
// value.
const OVERLAP: u32 = 234;
const UNEVEN_PIECE_LEN: u32 = 2 * BLOCK_LEN + OVERLAP;

#[test]
fn test_block_len() {
    assert_eq!(block_len(BLOCK_LEN_MULTIPLE_PIECE_LEN, 0), BLOCK_LEN);
    assert_eq!(block_len(BLOCK_LEN_MULTIPLE_PIECE_LEN, 1), BLOCK_LEN);

    assert_eq!(block_len(UNEVEN_PIECE_LEN, 0), BLOCK_LEN);
    assert_eq!(block_len(UNEVEN_PIECE_LEN, 1), BLOCK_LEN);
    assert_eq!(block_len(UNEVEN_PIECE_LEN, 2), OVERLAP);
}

#[test]
fn test_block_count() {
    assert_eq!(block_count(BLOCK_LEN_MULTIPLE_PIECE_LEN), 2);

    assert_eq!(block_count(UNEVEN_PIECE_LEN), 3);
}

#[test]
fn test_index_in_piece() {
    let block = cratetorrent::BlockInfo { piece_index: 3, offset: 2 * BLOCK_LEN, len: OVERLAP };
    assert_eq!(block.index_in_piece(), 2);
    let first = cratetorrent::BlockInfo { piece_index: 0, offset: 0, len: BLOCK_LEN };
    assert_eq!(first.index_in_piece(), 0);
}
