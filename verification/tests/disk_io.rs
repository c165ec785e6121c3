use cratetorrent::disk::{Disk, Torrent, WriteOutcome};
use cratetorrent::error::Error;
use cratetorrent::storage_info::{FileInfo, FsStructure, StorageInfo};
use cratetorrent::{BlockInfo, BLOCK_LEN};
use sha1::{Digest, Sha1};

fn single_file_info(piece_count: usize, piece_len: u32, last_piece_len: u32) -> StorageInfo {
    let download_len =
        (piece_count as u64 - 1) * piece_len as u64 + last_piece_len as u64;
    StorageInfo {
        piece_count,
        piece_len,
        last_piece_len,
        download_len,
        download_dir: String::from("/downloads"),
        structure: FsStructure::File(FileInfo {
            path: String::from("one"),
            torrent_offset: 0,
            len: download_len,
        }),
    }
}

fn sha1_of(data: &[u8]) -> Vec<u8> {
    Sha1::digest(data).as_slice().to_vec()
}

fn flatten(bufs: &[Vec<u8>]) -> Vec<u8> {
    let mut out = Vec::new();
    for b in bufs {
        out.extend_from_slice(b);
    }
    out
}

// Single file, single block piece: the one block completes the piece, the
// hash matches, and one write of 16 KiB lands at the file's start.
#[test]
fn test_single_file_single_block_piece() {
    let info = single_file_info(1, BLOCK_LEN, BLOCK_LEN);
    let data = vec![7u8; BLOCK_LEN as usize];
    let mut torrent = Torrent::new(info, sha1_of(&data));

    let block = BlockInfo { piece_index: 0, offset: 0, len: BLOCK_LEN };
    match torrent.write_block(block, data.clone()) {
        WriteOutcome::PieceComplete { batch, writes } => {
            assert_eq!(batch.is_piece_valid, Some(true));
            assert_eq!(batch.blocks.len(), 1);
            assert_eq!(batch.blocks[0], block);
            assert_eq!(writes.len(), 1);
            assert_eq!(writes[0].file_index, 0);
            assert_eq!(writes[0].offset, 0);
            assert_eq!(flatten(&writes[0].bufs), data);
        },
        _ => panic!("expected the piece to complete"),
    }
    assert_eq!(torrent.stats.write_count, BLOCK_LEN as u64);
}

// Single file with one piece of two full blocks and a short last block,
// delivered out of order: assembly is by offset, not arrival.
#[test]
fn test_uneven_piece_out_of_order_blocks() {
    let piece_len = 2 * BLOCK_LEN + 234;
    let info = single_file_info(1, piece_len, piece_len);
    let mut payload = Vec::new();
    for i in 0..piece_len as usize {
        payload.push((i % 251) as u8);
    }
    let mut torrent = Torrent::new(info, sha1_of(&payload));

    let b0 = BlockInfo { piece_index: 0, offset: 0, len: BLOCK_LEN };
    let b1 = BlockInfo { piece_index: 0, offset: BLOCK_LEN, len: BLOCK_LEN };
    let b2 = BlockInfo { piece_index: 0, offset: 2 * BLOCK_LEN, len: 234 };
    let d0 = payload[..BLOCK_LEN as usize].to_vec();
    let d1 = payload[BLOCK_LEN as usize..2 * BLOCK_LEN as usize].to_vec();
    let d2 = payload[2 * BLOCK_LEN as usize..].to_vec();

    assert!(matches!(torrent.write_block(b2, d2), WriteOutcome::Buffered));
    assert!(matches!(torrent.write_block(b0, d0), WriteOutcome::Buffered));
    match torrent.write_block(b1, d1) {
        WriteOutcome::PieceComplete { batch, writes } => {
            assert_eq!(batch.is_piece_valid, Some(true));
            assert_eq!(batch.blocks.len(), 3);
            assert_eq!(batch.blocks[0], b0);
            assert_eq!(batch.blocks[1], b1);
            assert_eq!(batch.blocks[2], b2);
            let mut bytes = Vec::new();
            for w in &writes {
                bytes.extend_from_slice(&flatten(&w.bufs));
            }
            assert_eq!(bytes, payload);
        },
        _ => panic!("expected the piece to complete"),
    }
}

// Archive whose first piece spans two files: the piece's first nine bytes
// go to file a, the rest to the start of file b.
#[test]
fn test_archive_piece_spans_two_files() {
    let files = vec![
        FileInfo { path: String::from("a"), torrent_offset: 0, len: 9 },
        FileInfo { path: String::from("b"), torrent_offset: 9, len: 11 },
    ];
    let info = StorageInfo {
        piece_count: 2,
        piece_len: 16,
        last_piece_len: 4,
        download_len: 20,
        download_dir: String::from("/downloads/ab"),
        structure: FsStructure::Archive { files },
    };
    let payload: Vec<u8> = (0u8..16).collect();
    let mut hashes = sha1_of(&payload);
    hashes.extend_from_slice(&sha1_of(&[0u8; 4]));
    let mut torrent = Torrent::new(info, hashes);

    let block = BlockInfo { piece_index: 0, offset: 0, len: 16 };
    match torrent.write_block(block, payload.clone()) {
        WriteOutcome::PieceComplete { batch, writes } => {
            assert_eq!(batch.is_piece_valid, Some(true));
            assert_eq!(writes.len(), 2);
            assert_eq!(writes[0].file_index, 0);
            assert_eq!(writes[0].offset, 0);
            assert_eq!(flatten(&writes[0].bufs), payload[..9].to_vec());
            assert_eq!(writes[1].file_index, 1);
            assert_eq!(writes[1].offset, 0);
            assert_eq!(flatten(&writes[1].bufs), payload[9..].to_vec());
        },
        _ => panic!("expected the piece to complete"),
    }
}

// Hash failure: one flipped byte makes the piece invalid; nothing is
// written and the batch says so.
#[test]
fn test_hash_failure_writes_nothing() {
    let info = single_file_info(1, BLOCK_LEN, BLOCK_LEN);
    let good = vec![7u8; BLOCK_LEN as usize];
    let mut bad = good.clone();
    bad[100] ^= 0xff;
    let mut torrent = Torrent::new(info, sha1_of(&good));

    let block = BlockInfo { piece_index: 0, offset: 0, len: BLOCK_LEN };
    match torrent.write_block(block, bad) {
        WriteOutcome::PieceComplete { batch, writes } => {
            assert_eq!(batch.is_piece_valid, Some(false));
            assert!(batch.blocks.is_empty());
            assert!(writes.is_empty());
        },
        _ => panic!("expected the piece to complete with an invalid hash"),
    }
    assert_eq!(torrent.stats.write_count, 0);
}

// A duplicate block offset is silently dropped: the second delivery
// changes nothing and the stale bytes do not poison the piece.
#[test]
fn test_duplicate_block_offset_dropped() {
    let piece_len = 2 * BLOCK_LEN;
    let info = single_file_info(1, piece_len, piece_len);
    let mut payload = vec![1u8; BLOCK_LEN as usize];
    payload.extend_from_slice(&vec![2u8; BLOCK_LEN as usize]);
    let mut torrent = Torrent::new(info, sha1_of(&payload));

    let b0 = BlockInfo { piece_index: 0, offset: 0, len: BLOCK_LEN };
    let b1 = BlockInfo { piece_index: 0, offset: BLOCK_LEN, len: BLOCK_LEN };
    assert!(matches!(
        torrent.write_block(b0, vec![1u8; BLOCK_LEN as usize]),
        WriteOutcome::Buffered
    ));
    // the duplicate carries different bytes, which must be ignored
    assert!(matches!(
        torrent.write_block(b0, vec![9u8; BLOCK_LEN as usize]),
        WriteOutcome::Buffered
    ));
    match torrent.write_block(b1, vec![2u8; BLOCK_LEN as usize]) {
        WriteOutcome::PieceComplete { batch, .. } => {
            assert_eq!(batch.is_piece_valid, Some(true));
        },
        _ => panic!("expected the piece to complete"),
    }
}

// An invalid piece index is rejected without touching the buffer.
#[test]
fn test_invalid_piece_index_rejected() {
    let info = single_file_info(1, BLOCK_LEN, BLOCK_LEN);
    let mut torrent = Torrent::new(info, vec![0u8; 20]);
    let block = BlockInfo { piece_index: 5, offset: 0, len: BLOCK_LEN };
    match torrent.write_block(block, vec![0u8; BLOCK_LEN as usize]) {
        WriteOutcome::Rejected(e) => assert_eq!(e, Error::InvalidPieceIndex),
        _ => panic!("expected a rejection"),
    }
}

// A block whose offset fits no block of the piece is rejected.
#[test]
fn test_invalid_block_offset_rejected() {
    let info = single_file_info(1, BLOCK_LEN, BLOCK_LEN);
    let mut torrent = Torrent::new(info, vec![0u8; 20]);
    let misaligned = BlockInfo { piece_index: 0, offset: 7, len: 100 };
    match torrent.write_block(misaligned, vec![0u8; 100]) {
        WriteOutcome::Rejected(e) => assert_eq!(e, Error::InvalidBlock),
        _ => panic!("expected a rejection"),
    }
}

// The disk multiplexes torrents by id: duplicate allocation and unknown
// ids fail, blocks reach the right torrent.
#[test]
fn test_disk_torrent_registry() {
    let mut disk = Disk::new();
    let info = single_file_info(1, BLOCK_LEN, BLOCK_LEN);
    let data = vec![3u8; BLOCK_LEN as usize];
    disk.new_torrent(7, info.clone(), sha1_of(&data)).unwrap();
    assert_eq!(
        disk.new_torrent(7, info, vec![0u8; 20]),
        Err(Error::AlreadyExists)
    );

    let block = BlockInfo { piece_index: 0, offset: 0, len: BLOCK_LEN };
    match disk.write_block(9, block, data.clone()) {
        Err(e) => assert_eq!(e, Error::InvalidTorrentId),
        Ok(_) => panic!("expected an unknown torrent id to fail"),
    }
    match disk.write_block(7, block, data) {
        Ok(WriteOutcome::PieceComplete { batch, .. }) => {
            assert_eq!(batch.is_piece_valid, Some(true));
        },
        _ => panic!("expected the piece to complete"),
    }
}
