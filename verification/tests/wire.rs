use cratetorrent::codec::{
    decode_handshake, decode_message, encode_handshake, encode_message, pack_bits, unpack_bits,
    Handshake, Message,
};
use cratetorrent::error::Error;
use cratetorrent::iovecs::{advance, split_at_bound};
use cratetorrent::BlockInfo;

#[test]
fn test_handshake_round_trip() {
    let ours = Handshake::new(vec![0x11; 20], vec![0x22; 20]);
    let wire = encode_handshake(&ours);
    assert_eq!(wire.len(), 68);
    assert_eq!(wire[0], 19);
    assert_eq!(&wire[1..20], b"BitTorrent protocol");

    let (back, used) = decode_handshake(&wire).unwrap().unwrap();
    assert_eq!(used, 68);
    assert_eq!(back.info_hash, vec![0x11; 20]);
    assert_eq!(back.peer_id, vec![0x22; 20]);
}

#[test]
fn test_handshake_needs_more_data_or_rejects() {
    let ours = Handshake::new(vec![0x11; 20], vec![0x22; 20]);
    let mut wire = encode_handshake(&ours);
    // a partial handshake decodes to nothing yet
    assert!(decode_handshake(&wire[..67].to_vec()).unwrap().is_none());
    // a corrupt protocol string drops the connection
    wire[3] = b'X';
    assert!(matches!(decode_handshake(&wire), Err(Error::InvalidMessage)));
}

#[test]
fn test_message_round_trips() {
    let block = BlockInfo { piece_index: 2, offset: 0x4000, len: 0x4000 };
    let messages = vec![
        Message::KeepAlive,
        Message::Choke,
        Message::Unchoke,
        Message::Interested,
        Message::NotInterested,
        Message::Have { piece_index: 0x01020304 },
        Message::Request(block),
        Message::Cancel(block),
        Message::Block { piece_index: 7, offset: 0x8000, data: vec![9u8; 50] },
        Message::Bitfield(vec![true, false, true, false, false, false, false, true]),
    ];
    for msg in messages {
        let wire = encode_message(&msg);
        let (back, used) = decode_message(&wire).unwrap().unwrap();
        assert_eq!(used, wire.len());
        match (&msg, &back) {
            (Message::KeepAlive, Message::KeepAlive) => {},
            (Message::Choke, Message::Choke) => {},
            (Message::Unchoke, Message::Unchoke) => {},
            (Message::Interested, Message::Interested) => {},
            (Message::NotInterested, Message::NotInterested) => {},
            (Message::Have { piece_index: a }, Message::Have { piece_index: b }) => {
                assert_eq!(a, b)
            },
            (Message::Request(a), Message::Request(b)) => assert_eq!(a, b),
            (Message::Cancel(a), Message::Cancel(b)) => assert_eq!(a, b),
            (
                Message::Block { piece_index: a, offset: ao, data: ad },
                Message::Block { piece_index: b, offset: bo, data: bd },
            ) => {
                assert_eq!(a, b);
                assert_eq!(ao, bo);
                assert_eq!(ad, bd);
            },
            (Message::Bitfield(a), Message::Bitfield(b)) => assert_eq!(a, b),
            _ => panic!("message changed kind on the wire"),
        }
    }
}

#[test]
fn test_message_wire_layout() {
    // request: u32 length 13, id 6, then three big-endian u32s
    let block = BlockInfo { piece_index: 1, offset: 0x4000, len: 0x4000 };
    let wire = encode_message(&Message::Request(block));
    assert_eq!(
        wire,
        vec![0, 0, 0, 13, 6, 0, 0, 0, 1, 0, 0, 0x40, 0, 0, 0, 0x40, 0]
    );
    // keep alive is a zero length alone
    assert_eq!(encode_message(&Message::KeepAlive), vec![0, 0, 0, 0]);
}

#[test]
fn test_message_decode_errors() {
    // unknown id
    assert!(matches!(
        decode_message(&vec![0, 0, 0, 1, 42]),
        Err(Error::InvalidMessage)
    ));
    // choke with a payload
    assert!(matches!(
        decode_message(&vec![0, 0, 0, 2, 0, 0]),
        Err(Error::InvalidMessage)
    ));
    // incomplete frame decodes to nothing yet
    assert!(decode_message(&vec![0, 0, 0, 5, 4, 0]).unwrap().is_none());
}

#[test]
fn test_bitfield_packing() {
    let bits = vec![
        true, true, false, false, false, false, false, true, false, false, false, false, false,
        false, true, false,
    ];
    let packed = pack_bits(&bits);
    assert_eq!(packed, vec![0b1100_0001, 0b0000_0010]);
    assert_eq!(unpack_bits(&packed), bits);
}

#[test]
fn test_iovecs_split_and_advance() {
    let bufs = vec![vec![1u8, 2, 3], vec![4u8, 5], vec![6u8, 7, 8, 9]];
    // the bound falls inside the second buffer
    let (head, tail) = split_at_bound(bufs.clone(), 4);
    assert_eq!(head, vec![vec![1u8, 2, 3], vec![4u8]]);
    assert_eq!(tail, vec![vec![5u8], vec![6u8, 7, 8, 9]]);
    // a bound past the total takes everything
    let (head, tail) = split_at_bound(bufs.clone(), 100);
    assert_eq!(head, bufs);
    assert!(tail.is_empty());
    // a short write consumes whole buffers and trims the next
    let rest = advance(bufs, 5);
    assert_eq!(rest, vec![vec![6u8, 7, 8, 9]]);
}
