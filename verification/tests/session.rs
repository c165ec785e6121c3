use cratetorrent::codec::{Handshake, Message};
use cratetorrent::disk::{Torrent, WriteOutcome};
use sha1::{Digest, Sha1};
use cratetorrent::error::Error;
use cratetorrent::peer::{PeerSession, State};
use cratetorrent::piece_picker::PiecePicker;
use cratetorrent::storage_info::{FileInfo, FsStructure, StorageInfo};
use cratetorrent::torrent::SharedStatus;
use cratetorrent::{BlockInfo, BLOCK_LEN};

fn shared_status(piece_count: usize, piece_len: u32, last_piece_len: u32) -> SharedStatus {
    let download_len =
        (piece_count as u64 - 1) * piece_len as u64 + last_piece_len as u64;
    SharedStatus {
        id: 0,
        info_hash: vec![0xab; 20],
        client_id: vec![0x61; 20],
        storage: StorageInfo {
            piece_count,
            piece_len,
            last_piece_len,
            download_len,
            download_dir: String::from("/downloads"),
            structure: FsStructure::File(FileInfo {
                path: String::from("one"),
                torrent_offset: 0,
                len: download_len,
            }),
        },
    }
}

// Brings a fresh session into the connected state with a seed peer.
fn connected_session(piece_count: usize, piece_len: u32) -> (PeerSession, PiecePicker) {
    let torrent = shared_status(piece_count, piece_len, piece_len);
    let mut picker = PiecePicker::new(piece_count);
    let mut session = PeerSession::outbound(torrent);
    let their_handshake = Handshake::new(vec![0xab; 20], vec![0x62; 20]);
    session.on_handshake(&their_handshake).unwrap();
    let msgs = session
        .handle_bitfield_msg(&mut picker, vec![true; piece_count])
        .unwrap();
    assert!(matches!(msgs[0], Message::Interested));
    assert_eq!(session.status.state, State::Connected);
    (session, picker)
}

// A handshake with a different info hash aborts the session.
#[test]
fn test_handshake_info_hash_mismatch() {
    let torrent = shared_status(1, BLOCK_LEN, BLOCK_LEN);
    let mut session = PeerSession::outbound(torrent);
    let wrong = Handshake::new(vec![0xcd; 20], vec![0x62; 20]);
    assert_eq!(session.on_handshake(&wrong), Err(Error::InvalidPeerInfoHash));
}

// A bitfield with fewer bits than the piece count reads as missing pieces
// and the peer is rejected as not a seed.
#[test]
fn test_short_bitfield_rejected() {
    let torrent = shared_status(9, BLOCK_LEN, BLOCK_LEN);
    let mut picker = PiecePicker::new(9);
    let mut session = PeerSession::outbound(torrent);
    let their_handshake = Handshake::new(vec![0xab; 20], vec![0x62; 20]);
    session.on_handshake(&their_handshake).unwrap();
    // eight bits for nine pieces: the missing bit pads to unset
    let r = session.handle_bitfield_msg(&mut picker, vec![true; 8]);
    assert_eq!(r.err(), Some(Error::PeerNotSeed));
}

// A peer that is missing a piece cannot serve the download.
#[test]
fn test_non_seed_rejected() {
    let torrent = shared_status(2, BLOCK_LEN, BLOCK_LEN);
    let mut picker = PiecePicker::new(2);
    let mut session = PeerSession::outbound(torrent);
    let their_handshake = Handshake::new(vec![0xab; 20], vec![0x62; 20]);
    session.on_handshake(&their_handshake).unwrap();
    let r = session.handle_bitfield_msg(&mut picker, vec![true, false]);
    assert_eq!(r.err(), Some(Error::PeerNotSeed));
}

// A second bitfield after the handshake is fatal.
#[test]
fn test_bitfield_after_handshake_fatal() {
    let (mut session, mut picker) = connected_session(1, BLOCK_LEN);
    let r = session.handle_msg(&mut picker, Message::Bitfield(vec![true]));
    assert!(matches!(r, Err(Error::BitfieldNotAfterHandshake)));
}

// Unchoking starts the request pipeline: one request per block, up to the
// queue cap of four.
#[test]
fn test_unchoke_fills_pipeline() {
    // one piece of two full blocks and a short third block
    let (mut session, mut picker) = connected_session(1, 2 * BLOCK_LEN + 234);
    assert!(session.status.is_choked);
    let (msgs, disk) = session.handle_msg(&mut picker, Message::Unchoke).unwrap();
    assert!(!session.status.is_choked);
    assert!(disk.is_none());
    assert_eq!(msgs.len(), 3);
    let expected = [
        BlockInfo { piece_index: 0, offset: 0, len: BLOCK_LEN },
        BlockInfo { piece_index: 0, offset: BLOCK_LEN, len: BLOCK_LEN },
        BlockInfo { piece_index: 0, offset: 2 * BLOCK_LEN, len: 234 },
    ];
    for (msg, want) in msgs.iter().zip(expected.iter()) {
        match msg {
            Message::Request(b) => assert_eq!(b, want),
            _ => panic!("expected a request message"),
        }
    }
    assert_eq!(session.outgoing_requests, expected.to_vec());
}

// An unsolicited block is dropped: no disk command, requests unchanged.
#[test]
fn test_unsolicited_block_dropped() {
    let (mut session, mut picker) = connected_session(1, BLOCK_LEN);
    session.handle_msg(&mut picker, Message::Unchoke).unwrap();
    assert_eq!(session.outgoing_requests.len(), 1);

    let stray = Message::Block {
        piece_index: 1,
        offset: 0,
        data: vec![0u8; BLOCK_LEN as usize],
    };
    let (msgs, disk) = session.handle_msg(&mut picker, stray).unwrap();
    assert!(disk.is_none());
    assert!(msgs.is_empty());
    assert_eq!(
        session.outgoing_requests,
        vec![BlockInfo { piece_index: 0, offset: 0, len: BLOCK_LEN }]
    );
}

// A solicited block settles its request and is forwarded to disk.
#[test]
fn test_solicited_block_forwarded() {
    let (mut session, mut picker) = connected_session(1, BLOCK_LEN);
    session.handle_msg(&mut picker, Message::Unchoke).unwrap();

    let data = vec![5u8; BLOCK_LEN as usize];
    let block = Message::Block { piece_index: 0, offset: 0, data: data.clone() };
    let (_, disk) = session.handle_msg(&mut picker, block).unwrap();
    let (info, payload) = disk.expect("the block was requested");
    assert_eq!(info, BlockInfo { piece_index: 0, offset: 0, len: BLOCK_LEN });
    assert_eq!(payload, data);
    assert!(session.outgoing_requests.is_empty());
    assert!(session.downloads.is_empty());
}

// Choke mid-flight clears the outstanding requests; a later unchoke
// continues requesting from the same in-progress piece downloads.
#[test]
fn test_choke_clears_requests() {
    // two pieces of three blocks each; the cap of four requests all of the
    // first piece and one block of the second
    let (mut session, mut picker) = connected_session(2, 3 * BLOCK_LEN);
    session.handle_msg(&mut picker, Message::Unchoke).unwrap();
    assert_eq!(session.outgoing_requests.len(), 4);

    let (msgs, disk) = session.handle_msg(&mut picker, Message::Choke).unwrap();
    assert!(msgs.is_empty() && disk.is_none());
    assert!(session.status.is_choked);
    assert!(session.outgoing_requests.is_empty());
    let downloads_before = session.downloads.len();

    let (msgs, _) = session.handle_msg(&mut picker, Message::Unchoke).unwrap();
    assert!(!session.status.is_choked);
    // the still free blocks of the in-progress downloads are requested
    assert_eq!(msgs.len(), 2);
    assert_eq!(session.downloads.len(), downloads_before);
}

// Interest flags follow the peer's announcements; stray seed messages are
// ignored.
#[test]
fn test_flag_and_noop_messages() {
    let (mut session, mut picker) = connected_session(1, BLOCK_LEN);
    session.handle_msg(&mut picker, Message::Interested).unwrap();
    assert!(session.status.is_peer_interested);
    session.handle_msg(&mut picker, Message::NotInterested).unwrap();
    assert!(!session.status.is_peer_interested);
    let before = session.outgoing_requests.clone();
    session.handle_msg(&mut picker, Message::KeepAlive).unwrap();
    session.handle_msg(&mut picker, Message::Have { piece_index: 0 }).unwrap();
    session
        .handle_msg(
            &mut picker,
            Message::Request(BlockInfo { piece_index: 0, offset: 0, len: BLOCK_LEN }),
        )
        .unwrap();
    assert_eq!(session.outgoing_requests, before);
}

// The picker hands out each piece once and reports interest only while
// something is missing.
#[test]
fn test_piece_picker() {
    let mut picker = PiecePicker::new(3);
    assert_eq!(picker.pick_piece(), None);
    let interested = picker.register_availability(&vec![true, true, true]).unwrap();
    assert!(interested);
    assert_eq!(
        picker.register_availability(&vec![true, true]),
        Err(Error::InvalidBitfield)
    );
    assert_eq!(picker.pick_piece(), Some(0));
    assert_eq!(picker.pick_piece(), Some(1));
    picker.received_piece(2);
    assert_eq!(picker.pick_piece(), None);
}

// The whole single file, single block download: the session requests the
// piece's one block, the peer serves it, and the disk validates it and
// plans the write of the full 16 KiB at the file's start.
#[test]
fn test_end_to_end_single_block_download() {
    let (mut session, mut picker) = connected_session(1, BLOCK_LEN);
    let storage = session.torrent.storage.clone();
    let data = vec![7u8; BLOCK_LEN as usize];
    let hashes = Sha1::digest(&data).as_slice().to_vec();
    let mut torrent = Torrent::new(storage, hashes);

    let (msgs, _) = session.handle_msg(&mut picker, Message::Unchoke).unwrap();
    assert_eq!(msgs.len(), 1);
    let block = Message::Block { piece_index: 0, offset: 0, data: data.clone() };
    let (_, to_disk) = session.handle_msg(&mut picker, block).unwrap();
    let (info, payload) = to_disk.expect("the block was requested");

    match torrent.write_block(info, payload) {
        WriteOutcome::PieceComplete { batch, writes } => {
            assert_eq!(batch.is_piece_valid, Some(true));
            assert_eq!(batch.blocks, vec![info]);
            assert_eq!(writes.len(), 1);
            assert_eq!(writes[0].file_index, 0);
            assert_eq!(writes[0].offset, 0);
            let bytes: Vec<u8> = writes[0].bufs.concat();
            assert_eq!(bytes, data);
        },
        _ => panic!("expected the piece to complete"),
    }
}
