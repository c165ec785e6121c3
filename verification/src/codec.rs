//! The peer wire protocol's framing, as functions on bytes: the fixed 68
//! byte handshake, and the length-prefixed peer messages with big-endian
//! integers. Reading from and writing to the socket happens outside the
//! library; it hands buffered bytes in and sends encoded bytes out.

use vstd::prelude::*;

use crate::error::Error;
use crate::iovecs::copy_byte_range;
use crate::{BlockInfo, PieceIndex};

verus! {

/// The bytes of the protocol identifier string `BitTorrent protocol`.
pub open spec fn protocol_bytes() -> Seq<u8> {
    seq![
        66u8, 105u8, 116u8, 84u8, 111u8, 114u8, 114u8, 101u8, 110u8, 116u8, 32u8, 112u8, 114u8,
        111u8, 116u8, 111u8, 99u8, 111u8, 108u8,
    ]
}

/// The protocol identifier string as an owned buffer.
pub fn protocol_vec() -> (v: Vec<u8>)
    ensures
        v@ == protocol_bytes(),
{
    let v: Vec<u8> = vec![
        66u8, 105u8, 116u8, 84u8, 111u8, 114u8, 114u8, 101u8, 110u8, 116u8, 32u8, 112u8, 114u8,
        111u8, 116u8, 111u8, 99u8, 111u8, 108u8,
    ];
    proof {
        assert(v@ =~= protocol_bytes());
    }
    v
}

/// A `u32` as four big-endian bytes.
pub open spec fn spec_u32_to_be_bytes(x: u32) -> Seq<u8> {
    seq![
        (x / 0x1000000) as u8,
        ((x / 0x10000) % 0x100) as u8,
        ((x / 0x100) % 0x100) as u8,
        (x % 0x100) as u8,
    ]
}

/// The value of four big-endian bytes.
pub open spec fn spec_u32_from_be_bytes(s: Seq<u8>) -> int
    recommends
        s.len() == 4,
{
    s[0] * 0x1000000 + s[1] * 0x10000 + s[2] * 0x100 + s[3]
}

/// Reading back the four big-endian bytes of a value gives the value.
pub proof fn lemma_u32_be_round_trip(x: u32)
    ensures
        spec_u32_from_be_bytes(spec_u32_to_be_bytes(x)) == x,
        0 <= spec_u32_from_be_bytes(spec_u32_to_be_bytes(x)) <= u32::MAX,
{
    assert((x as int / 0x1000000) * 0x1000000 + ((x as int / 0x10000) % 0x100) * 0x10000 + ((
    x as int / 0x100) % 0x100) * 0x100 + (x as int % 0x100) == x as int) by (nonlinear_arith);
}

/// Appends the four big-endian bytes of `x`.
fn push_u32_be(out: &mut Vec<u8>, x: u32)
    ensures
        final(out)@ == old(out)@ + spec_u32_to_be_bytes(x),
{
    out.push((x / 0x1000000) as u8);
    out.push(((x / 0x10000) % 0x100) as u8);
    out.push(((x / 0x100) % 0x100) as u8);
    out.push((x % 0x100) as u8);
    proof {
        assert(final(out)@ =~= old(out)@ + spec_u32_to_be_bytes(x));
    }
}

/// The value of four big-endian bytes.
fn u32_from_be(b0: u8, b1: u8, b2: u8, b3: u8) -> (x: u32)
    ensures
        x == spec_u32_from_be_bytes(seq![b0, b1, b2, b3]),
{
    (b0 as u32) * 0x1000000 + (b1 as u32) * 0x10000 + (b2 as u32) * 0x100 + (b3 as u32)
}

/// Appends every byte of `src`.
fn push_bytes(out: &mut Vec<u8>, src: &Vec<u8>)
    ensures
        final(out)@ == old(out)@ + src@,
{
    let mut i: usize = 0;
    while i < src.len()
        invariant
            0 <= i <= src@.len(),
            out@ == old(out)@ + src@.take(i as int),
        decreases src@.len() - i,
    {
        out.push(src[i]);
        i = i + 1;
        proof {
            assert(old(out)@ + src@.take(i as int) =~= (old(out)@ + src@.take(i - 1)).push(
                src@[i - 1],
            ));
        }
    }
    proof {
        assert(src@.take(src@.len() as int) =~= src@);
    }
}

/// The handshake that either side sends when a connection opens.
pub struct Handshake {
    /// The protocol identifier, nineteen bytes.
    pub prot: Vec<u8>,
    /// Eight reserved bytes, all zero in this scope.
    pub reserved: Vec<u8>,
    /// The torrent's info hash, twenty bytes.
    pub info_hash: Vec<u8>,
    /// The sender's arbitrary peer id, twenty bytes.
    pub peer_id: Vec<u8>,
}

/// A handshake's bytes on the wire: the identifier's length, the
/// identifier, the reserved bytes, the info hash and the peer id.
pub open spec fn spec_encode_handshake(h: Handshake) -> Seq<u8> {
    seq![19u8] + h.prot@ + h.reserved@ + h.info_hash@ + h.peer_id@
}

impl Handshake {
    /// The fields have their wire lengths.
    pub open spec fn wf(self) -> bool {
        &&& self.prot@.len() == 19
        &&& self.reserved@.len() == 8
        &&& self.info_hash@.len() == 20
        &&& self.peer_id@.len() == 20
    }

    /// Creates our own handshake for the torrent: the protocol identifier,
    /// zeroed reserved bytes, the info hash and our peer id.
    pub fn new(info_hash: Vec<u8>, peer_id: Vec<u8>) -> (h: Handshake)
        requires
            info_hash@.len() == 20,
            peer_id@.len() == 20,
        ensures
            h.wf(),
            h.prot@ == protocol_bytes(),
            h.reserved@ == Seq::new(8nat, |i: int| 0u8),
            h.info_hash == info_hash,
            h.peer_id == peer_id,
    {
        let prot = protocol_vec();
        let mut reserved: Vec<u8> = Vec::new();
        let mut i: usize = 0;
        while i < 8
            invariant
                0 <= i <= 8,
                reserved@.len() == i,
                forall|j: int| 0 <= j < i ==> reserved@[j] == 0u8,
            decreases 8 - i,
        {
            reserved.push(0u8);
            i = i + 1;
        }
        proof {
            assert(reserved@ =~= Seq::new(8nat, |j: int| 0u8));
        }
        Handshake { prot, reserved, info_hash, peer_id }
    }
}

/// Encodes a handshake as its 68 wire bytes.
pub fn encode_handshake(h: &Handshake) -> (out: Vec<u8>)
    requires
        h.wf(),
    ensures
        out@ == spec_encode_handshake(*h),
        out@.len() == 68,
{
    let mut out: Vec<u8> = Vec::new();
    out.push(19u8);
    push_bytes(&mut out, &h.prot);
    push_bytes(&mut out, &h.reserved);
    push_bytes(&mut out, &h.info_hash);
    push_bytes(&mut out, &h.peer_id);
    proof {
        assert(out@ =~= spec_encode_handshake(*h));
    }
    out
}

/// Whether the buffer opens with a valid handshake: the identifier length
/// byte and the identifier itself.
pub open spec fn spec_handshake_prefix_valid(buf: Seq<u8>) -> bool {
    buf[0] == 19 && buf.subrange(1, 20) == protocol_bytes()
}

/// Decodes a handshake from the front of the buffer. With fewer than 68
/// bytes nothing is decoded yet; a wrong identifier is an error; otherwise
/// the handshake and the count of consumed bytes come back. Only a
/// handshake whose identifier is the protocol string is ever yielded.
pub fn decode_handshake(buf: &Vec<u8>) -> (r: Result<Option<(Handshake, usize)>, Error>)
    ensures
        buf@.len() < 68 ==> r == Ok::<Option<(Handshake, usize)>, Error>(None),
        buf@.len() >= 68 && !spec_handshake_prefix_valid(buf@) ==> r == Err::<
            Option<(Handshake, usize)>,
            Error,
        >(Error::InvalidMessage),
        buf@.len() >= 68 && spec_handshake_prefix_valid(buf@) ==> (r matches Ok(Some((h, used)))
            && used == 68 && h.wf() && h.prot@ == protocol_bytes() && h.reserved@ == buf@.subrange(
            20,
            28,
        ) && h.info_hash@ == buf@.subrange(28, 48) && h.peer_id@ == buf@.subrange(48, 68)),
{
    if buf.len() < 68 {
        return Ok(None);
    }
    if buf[0] != 19 {
        return Err(Error::InvalidMessage);
    }
    let prot = copy_byte_range(buf, 1, 20);
    let expected = protocol_vec();
    if !crate::piece::bytes_eq(&prot, &expected) {
        return Err(Error::InvalidMessage);
    }
    let reserved = copy_byte_range(buf, 20, 28);
    let info_hash = copy_byte_range(buf, 28, 48);
    let peer_id = copy_byte_range(buf, 48, 68);
    Ok(Some((Handshake { prot, reserved, info_hash, peer_id }, 68)))
}

/// A message of the peer wire protocol, after the handshake.
pub enum Message {
    /// An empty message that only keeps the connection alive.
    KeepAlive,
    /// The peer will not serve our requests.
    Choke,
    /// The peer will serve our requests.
    Unchoke,
    /// The sender wants pieces the receiver has.
    Interested,
    /// The sender wants nothing the receiver has.
    NotInterested,
    /// The sender has the piece.
    Have {
        /// The piece the sender announces.
        piece_index: u32,
    },
    /// The pieces the sender has, one bit per piece, most significant bit
    /// first, right-padded to a byte boundary.
    Bitfield(Vec<bool>),
    /// A request for a block.
    Request(BlockInfo),
    /// A block's bytes.
    Block {
        /// The index of the piece the block belongs to.
        piece_index: PieceIndex,
        /// The block's byte offset within its piece.
        offset: u32,
        /// The block's bytes.
        data: Vec<u8>,
    },
    /// The sender no longer wants the block it requested.
    Cancel(BlockInfo),
}

/// The value of the bit `r` positions below the most significant bit.
pub open spec fn spec_bit_of_byte(byte: u8, r: int) -> bool
    recommends
        0 <= r < 8,
{
    if r == 0 {
        byte / 128 % 2 == 1
    } else if r == 1 {
        byte / 64 % 2 == 1
    } else if r == 2 {
        byte / 32 % 2 == 1
    } else if r == 3 {
        byte / 16 % 2 == 1
    } else if r == 4 {
        byte / 8 % 2 == 1
    } else if r == 5 {
        byte / 4 % 2 == 1
    } else if r == 6 {
        byte / 2 % 2 == 1
    } else {
        byte % 2 == 1
    }
}

/// Eight bits as one byte, most significant bit first.
pub open spec fn spec_byte_of_bits(bits: Seq<bool>, start: int) -> int
    recommends
        0 <= start,
        start + 8 <= bits.len(),
{
    (if bits[start] {
        128int
    } else {
        0int
    }) + (if bits[start + 1] {
        64int
    } else {
        0int
    }) + (if bits[start + 2] {
        32int
    } else {
        0int
    }) + (if bits[start + 3] {
        16int
    } else {
        0int
    }) + (if bits[start + 4] {
        8int
    } else {
        0int
    }) + (if bits[start + 5] {
        4int
    } else {
        0int
    }) + (if bits[start + 6] {
        2int
    } else {
        0int
    }) + (if bits[start + 7] {
        1int
    } else {
        0int
    })
}

/// A whole number of bytes as their bits, most significant bit of each
/// byte first.
pub open spec fn spec_unpack_bits(bytes: Seq<u8>) -> Seq<bool> {
    Seq::new((bytes.len() * 8) as nat, |i: int| spec_bit_of_byte(bytes[i / 8], i % 8))
}

/// Bits as bytes, eight per byte, most significant bit first.
pub open spec fn spec_pack_bits(bits: Seq<bool>) -> Seq<u8>
    recommends
        bits.len() % 8 == 0,
{
    Seq::new((bits.len() / 8) as nat, |i: int| spec_byte_of_bits(bits, 8 * i) as u8)
}

/// The value of the bit `r` positions below the byte's most significant
/// bit.
fn bit_of_byte(byte: u8, r: usize) -> (b: bool)
    requires
        r < 8,
    ensures
        b == spec_bit_of_byte(byte, r as int),
{
    if r == 0 {
        byte / 128 % 2 == 1
    } else if r == 1 {
        byte / 64 % 2 == 1
    } else if r == 2 {
        byte / 32 % 2 == 1
    } else if r == 3 {
        byte / 16 % 2 == 1
    } else if r == 4 {
        byte / 8 % 2 == 1
    } else if r == 5 {
        byte / 4 % 2 == 1
    } else if r == 6 {
        byte / 2 % 2 == 1
    } else {
        byte % 2 == 1
    }
}

/// Unpacks bytes into their bits, most significant bit of each byte first.
pub fn unpack_bits(bytes: &Vec<u8>) -> (bits: Vec<bool>)
    requires
        bytes@.len() * 8 <= usize::MAX,
    ensures
        bits@ == spec_unpack_bits(bytes@),
{
    let mut bits: Vec<bool> = Vec::new();
    let mut i: usize = 0;
    while i < bytes.len()
        invariant
            0 <= i <= bytes@.len(),
            bytes@.len() * 8 <= usize::MAX,
            bits@.len() == 8 * i,
            forall|j: int|
                0 <= j < 8 * i ==> bits@[j] == (#[trigger] spec_unpack_bits(bytes@)[j]),
        decreases bytes@.len() - i,
    {
        let byte = bytes[i];
        let mut r: usize = 0;
        while r < 8
            invariant
                0 <= r <= 8,
                0 <= i < bytes@.len(),
                bytes@.len() * 8 <= usize::MAX,
                byte == bytes@[i as int],
                bits@.len() == 8 * i + r,
                forall|j: int|
                    0 <= j < 8 * i + r ==> bits@[j] == (#[trigger] spec_unpack_bits(bytes@)[j]),
            decreases 8 - r,
        {
            let b = bit_of_byte(byte, r);
            bits.push(b);
            proof {
                let j = 8 * (i as int) + r;
                assert(j / 8 == i && j % 8 == r) by (nonlinear_arith)
                    requires
                        j == 8 * (i as int) + r,
                        0 <= r < 8,
                        0 <= i;
            }
            r = r + 1;
        }
        i = i + 1;
    }
    proof {
        assert(bits@ =~= spec_unpack_bits(bytes@));
    }
    bits
}

/// Packs bits into bytes, eight per byte, most significant bit first.
pub fn pack_bits(bits: &Vec<bool>) -> (bytes: Vec<u8>)
    requires
        bits@.len() % 8 == 0,
    ensures
        bytes@ == spec_pack_bits(bits@),
{
    let count = bits.len() / 8;
    let mut bytes: Vec<u8> = Vec::new();
    let mut i: usize = 0;
    proof {
        assert(count * 8 == bits@.len()) by (nonlinear_arith)
            requires
                count == bits@.len() as int / 8,
                bits@.len() % 8 == 0;
    }
    while i < count
        invariant
            0 <= i <= count,
            count * 8 == bits@.len(),
            bits@.len() <= usize::MAX,
            bytes@.len() == i,
            forall|j: int|
                0 <= j < i ==> bytes@[j] == (#[trigger] spec_byte_of_bits(bits@, 8 * j)) as u8,
        decreases count - i,
    {
        proof {
            assert(8 * (i as int) + 8 <= bits@.len()) by (nonlinear_arith)
                requires
                    0 <= i < count,
                    count * 8 == bits@.len();
        }
        let base = 8 * i;
        let mut byte: u32 = 0;
        if bits[base] {
            byte = byte + 128;
        }
        if bits[base + 1] {
            byte = byte + 64;
        }
        if bits[base + 2] {
            byte = byte + 32;
        }
        if bits[base + 3] {
            byte = byte + 16;
        }
        if bits[base + 4] {
            byte = byte + 8;
        }
        if bits[base + 5] {
            byte = byte + 4;
        }
        if bits[base + 6] {
            byte = byte + 2;
        }
        if bits[base + 7] {
            byte = byte + 1;
        }
        bytes.push(byte as u8);
        i = i + 1;
    }
    proof {
        assert(bytes@ =~= spec_pack_bits(bits@));
    }
    bytes
}

impl Message {
    /// The message fits a frame: its integers fit the wire's four bytes and
    /// a bitfield is a whole number of bytes.
    pub open spec fn wf(self) -> bool {
        match self {
            Message::Bitfield(bits) => bits@.len() % 8 == 0 && 1 + bits@.len() / 8 <= u32::MAX,
            Message::Request(b) => b.piece_index <= u32::MAX,
            Message::Cancel(b) => b.piece_index <= u32::MAX,
            Message::Block { piece_index, offset, data } => piece_index <= u32::MAX && 9
                + data@.len() <= u32::MAX,
            _ => true,
        }
    }
}

/// A message's bytes on the wire: a big-endian length prefix, the message
/// id (absent for `KeepAlive`), and the payload.
pub open spec fn spec_encode_message(m: Message) -> Seq<u8> {
    match m {
        Message::KeepAlive => spec_u32_to_be_bytes(0),
        Message::Choke => spec_u32_to_be_bytes(1) + seq![0u8],
        Message::Unchoke => spec_u32_to_be_bytes(1) + seq![1u8],
        Message::Interested => spec_u32_to_be_bytes(1) + seq![2u8],
        Message::NotInterested => spec_u32_to_be_bytes(1) + seq![3u8],
        Message::Have { piece_index } => spec_u32_to_be_bytes(5) + seq![4u8]
            + spec_u32_to_be_bytes(piece_index),
        Message::Bitfield(bits) => spec_u32_to_be_bytes((1 + bits@.len() / 8) as u32)
            + seq![5u8] + spec_pack_bits(bits@),
        Message::Request(b) => spec_u32_to_be_bytes(13) + seq![6u8] + spec_u32_to_be_bytes(
            b.piece_index as u32,
        ) + spec_u32_to_be_bytes(b.offset) + spec_u32_to_be_bytes(b.len),
        Message::Block { piece_index, offset, data } => spec_u32_to_be_bytes(
            (9 + data@.len()) as u32,
        ) + seq![7u8] + spec_u32_to_be_bytes(piece_index as u32) + spec_u32_to_be_bytes(offset)
            + data@,
        Message::Cancel(b) => spec_u32_to_be_bytes(13) + seq![8u8] + spec_u32_to_be_bytes(
            b.piece_index as u32,
        ) + spec_u32_to_be_bytes(b.offset) + spec_u32_to_be_bytes(b.len),
    }
}

/// Encodes a peer message as its wire bytes.
pub fn encode_message(m: &Message) -> (out: Vec<u8>)
    requires
        m.wf(),
    ensures
        out@ == spec_encode_message(*m),
{
    let mut out: Vec<u8> = Vec::new();
    match m {
        Message::KeepAlive => {
            push_u32_be(&mut out, 0);
        },
        Message::Choke => {
            push_u32_be(&mut out, 1);
            out.push(0u8);
        },
        Message::Unchoke => {
            push_u32_be(&mut out, 1);
            out.push(1u8);
        },
        Message::Interested => {
            push_u32_be(&mut out, 1);
            out.push(2u8);
        },
        Message::NotInterested => {
            push_u32_be(&mut out, 1);
            out.push(3u8);
        },
        Message::Have { piece_index } => {
            push_u32_be(&mut out, 5);
            out.push(4u8);
            push_u32_be(&mut out, *piece_index);
        },
        Message::Bitfield(bits) => {
            push_u32_be(&mut out, 1 + (bits.len() / 8) as u32);
            out.push(5u8);
            let packed = pack_bits(bits);
            push_bytes(&mut out, &packed);
        },
        Message::Request(b) => {
            push_u32_be(&mut out, 13);
            out.push(6u8);
            push_u32_be(&mut out, b.piece_index as u32);
            push_u32_be(&mut out, b.offset);
            push_u32_be(&mut out, b.len);
        },
        Message::Block { piece_index, offset, data } => {
            push_u32_be(&mut out, 9 + data.len() as u32);
            out.push(7u8);
            push_u32_be(&mut out, *piece_index as u32);
            push_u32_be(&mut out, *offset);
            push_bytes(&mut out, data);
        },
        Message::Cancel(b) => {
            push_u32_be(&mut out, 13);
            out.push(8u8);
            push_u32_be(&mut out, b.piece_index as u32);
            push_u32_be(&mut out, b.offset);
            push_u32_be(&mut out, b.len);
        },
    }
    proof {
        assert(out@ =~= spec_encode_message(*m));
    }
    out
}

/// Decodes a peer message from the front of the buffer. With less than a
/// whole frame nothing is decoded yet; an unknown id or a length that fits
/// no message of its id is an error; otherwise the message and the count of
/// consumed bytes come back.
pub fn decode_message(buf: &Vec<u8>) -> (r: Result<Option<(Message, usize)>, Error>)
    requires
        buf@.len() * 8 <= usize::MAX,
    ensures
        buf@.len() < 4 ==> r == Ok::<Option<(Message, usize)>, Error>(None),
        buf@.len() >= 4 ==> {
            let frame_len = spec_u32_from_be_bytes(buf@.subrange(0, 4));
            let used = 4 + frame_len;
            &&& (frame_len == 0 ==> r == Ok::<Option<(Message, usize)>, Error>(
                Some((Message::KeepAlive, 4)),
            ))
            &&& (frame_len > 0 && buf@.len() < used ==> r == Ok::<
                Option<(Message, usize)>,
                Error,
            >(None))
            &&& (frame_len > 0 && buf@.len() >= used ==> {
                let id = buf@[4];
                &&& (id == 0 ==> (if frame_len == 1 {
                    r == Ok::<Option<(Message, usize)>, Error>(Some((Message::Choke, 5)))
                } else {
                    r == Err::<Option<(Message, usize)>, Error>(Error::InvalidMessage)
                }))
                &&& (id == 1 ==> (if frame_len == 1 {
                    r == Ok::<Option<(Message, usize)>, Error>(Some((Message::Unchoke, 5)))
                } else {
                    r == Err::<Option<(Message, usize)>, Error>(Error::InvalidMessage)
                }))
                &&& (id == 2 ==> (if frame_len == 1 {
                    r == Ok::<Option<(Message, usize)>, Error>(Some((Message::Interested, 5)))
                } else {
                    r == Err::<Option<(Message, usize)>, Error>(Error::InvalidMessage)
                }))
                &&& (id == 3 ==> (if frame_len == 1 {
                    r == Ok::<Option<(Message, usize)>, Error>(
                        Some((Message::NotInterested, 5)),
                    )
                } else {
                    r == Err::<Option<(Message, usize)>, Error>(Error::InvalidMessage)
                }))
                &&& (id == 4 ==> (if frame_len == 5 {
                    r == Ok::<Option<(Message, usize)>, Error>(
                        Some(
                            (
                                Message::Have {
                                    piece_index: spec_u32_from_be_bytes(
                                        buf@.subrange(5, 9),
                                    ) as u32,
                                },
                                9,
                            ),
                        ),
                    )
                } else {
                    r == Err::<Option<(Message, usize)>, Error>(Error::InvalidMessage)
                }))
                &&& (id == 5 ==> (r matches Ok(Some((m, n))) && n == used && (
                m matches Message::Bitfield(bits) && bits@ == spec_unpack_bits(
                    buf@.subrange(5, used),
                ))))
                &&& (id == 6 ==> (if frame_len == 13 {
                    r matches Ok(Some((m, n))) && n == 17 && m == Message::Request(
                        BlockInfo {
                            piece_index: spec_u32_from_be_bytes(
                                buf@.subrange(5, 9),
                            ) as PieceIndex,
                            offset: spec_u32_from_be_bytes(buf@.subrange(9, 13)) as u32,
                            len: spec_u32_from_be_bytes(buf@.subrange(13, 17)) as u32,
                        },
                    )
                } else {
                    r == Err::<Option<(Message, usize)>, Error>(Error::InvalidMessage)
                }))
                &&& (id == 7 ==> (if frame_len >= 9 {
                    r matches Ok(Some((m, n))) && n == used && (m matches Message::Block {
                        piece_index,
                        offset,
                        data,
                    } && piece_index == spec_u32_from_be_bytes(buf@.subrange(5, 9))
                        && offset == spec_u32_from_be_bytes(buf@.subrange(9, 13)) && data@
                        == buf@.subrange(13, used))
                } else {
                    r == Err::<Option<(Message, usize)>, Error>(Error::InvalidMessage)
                }))
                &&& (id == 8 ==> (if frame_len == 13 {
                    r matches Ok(Some((m, n))) && n == 17 && m == Message::Cancel(
                        BlockInfo {
                            piece_index: spec_u32_from_be_bytes(
                                buf@.subrange(5, 9),
                            ) as PieceIndex,
                            offset: spec_u32_from_be_bytes(buf@.subrange(9, 13)) as u32,
                            len: spec_u32_from_be_bytes(buf@.subrange(13, 17)) as u32,
                        },
                    )
                } else {
                    r == Err::<Option<(Message, usize)>, Error>(Error::InvalidMessage)
                }))
                &&& (id > 8 ==> r == Err::<Option<(Message, usize)>, Error>(
                    Error::InvalidMessage,
                ))
            })
        },
{
    if buf.len() < 4 {
        return Ok(None);
    }
    let frame_len = u32_from_be(buf[0], buf[1], buf[2], buf[3]);
    proof {
        assert(seq![buf@[0], buf@[1], buf@[2], buf@[3]] =~= buf@.subrange(0, 4));
    }
    if frame_len == 0 {
        return Ok(Some((Message::KeepAlive, 4)));
    }
    if ((buf.len() - 4) as u64) < frame_len as u64 {
        return Ok(None);
    }
    let used = 4 + frame_len as usize;
    let id = buf[4];
    match id {
        0u8 => {
            if frame_len == 1 {
                Ok(Some((Message::Choke, 5)))
            } else {
                Err(Error::InvalidMessage)
            }
        },
        1u8 => {
            if frame_len == 1 {
                Ok(Some((Message::Unchoke, 5)))
            } else {
                Err(Error::InvalidMessage)
            }
        },
        2u8 => {
            if frame_len == 1 {
                Ok(Some((Message::Interested, 5)))
            } else {
                Err(Error::InvalidMessage)
            }
        },
        3u8 => {
            if frame_len == 1 {
                Ok(Some((Message::NotInterested, 5)))
            } else {
                Err(Error::InvalidMessage)
            }
        },
        4u8 => {
            if frame_len == 5 {
                let piece_index = u32_from_be(buf[5], buf[6], buf[7], buf[8]);
                proof {
                    assert(seq![buf@[5], buf@[6], buf@[7], buf@[8]] =~= buf@.subrange(5, 9));
                }
                Ok(Some((Message::Have { piece_index }, 9)))
            } else {
                Err(Error::InvalidMessage)
            }
        },
        5u8 => {
            let payload = copy_byte_range(buf, 5, used);
            let bits = unpack_bits(&payload);
            Ok(Some((Message::Bitfield(bits), used)))
        },
        6u8 => {
            if frame_len == 13 {
                let piece_index = u32_from_be(buf[5], buf[6], buf[7], buf[8]);
                let offset = u32_from_be(buf[9], buf[10], buf[11], buf[12]);
                let len = u32_from_be(buf[13], buf[14], buf[15], buf[16]);
                proof {
                    assert(seq![buf@[5], buf@[6], buf@[7], buf@[8]] =~= buf@.subrange(5, 9));
                    assert(seq![buf@[9], buf@[10], buf@[11], buf@[12]] =~= buf@.subrange(9, 13));
                    assert(seq![buf@[13], buf@[14], buf@[15], buf@[16]] =~= buf@.subrange(
                        13,
                        17,
                    ));
                }
                Ok(
                    Some(
                        (
                            Message::Request(
                                BlockInfo {
                                    piece_index: piece_index as PieceIndex,
                                    offset,
                                    len,
                                },
                            ),
                            17,
                        ),
                    ),
                )
            } else {
                Err(Error::InvalidMessage)
            }
        },
        7u8 => {
            if frame_len >= 9 {
                let piece_index = u32_from_be(buf[5], buf[6], buf[7], buf[8]);
                let offset = u32_from_be(buf[9], buf[10], buf[11], buf[12]);
                let data = copy_byte_range(buf, 13, used);
                proof {
                    assert(seq![buf@[5], buf@[6], buf@[7], buf@[8]] =~= buf@.subrange(5, 9));
                    assert(seq![buf@[9], buf@[10], buf@[11], buf@[12]] =~= buf@.subrange(9, 13));
                }
                Ok(
                    Some(
                        (
                            Message::Block {
                                piece_index: piece_index as PieceIndex,
                                offset,
                                data,
                            },
                            used,
                        ),
                    ),
                )
            } else {
                Err(Error::InvalidMessage)
            }
        },
        8u8 => {
            if frame_len == 13 {
                let piece_index = u32_from_be(buf[5], buf[6], buf[7], buf[8]);
                let offset = u32_from_be(buf[9], buf[10], buf[11], buf[12]);
                let len = u32_from_be(buf[13], buf[14], buf[15], buf[16]);
                proof {
                    assert(seq![buf@[5], buf@[6], buf@[7], buf@[8]] =~= buf@.subrange(5, 9));
                    assert(seq![buf@[9], buf@[10], buf@[11], buf@[12]] =~= buf@.subrange(9, 13));
                    assert(seq![buf@[13], buf@[14], buf@[15], buf@[16]] =~= buf@.subrange(
                        13,
                        17,
                    ));
                }
                Ok(
                    Some(
                        (
                            Message::Cancel(
                                BlockInfo {
                                    piece_index: piece_index as PieceIndex,
                                    offset,
                                    len,
                                },
                            ),
                            17,
                        ),
                    ),
                )
            } else {
                Err(Error::InvalidMessage)
            }
        },
        _ => Err(Error::InvalidMessage),
    }
}

/// Each bit survives packing into bytes and unpacking again.
pub proof fn lemma_pack_unpack_bits(bits: Seq<bool>)
    requires
        bits.len() % 8 == 0,
    ensures
        spec_unpack_bits(spec_pack_bits(bits)) == bits,
{
    let packed = spec_pack_bits(bits);
    assert(packed.len() * 8 == bits.len()) by (nonlinear_arith)
        requires
            packed.len() == bits.len() as int / 8,
            bits.len() % 8 == 0;
    assert forall|j: int| 0 <= j < bits.len() implies spec_unpack_bits(packed)[j] == bits[j] by {
        let i = j / 8;
        let r = j % 8;
        assert(0 <= i < packed.len() && 0 <= r < 8 && j == 8 * i + r && 8 * i + 8
            <= bits.len()) by (nonlinear_arith)
            requires
                i == j / 8,
                r == j % 8,
                0 <= j < bits.len(),
                packed.len() * 8 == bits.len();
        assert(packed[i] == spec_byte_of_bits(bits, 8 * i) as u8);
        lemma_bit_of_packed_byte(bits, 8 * i, r);
    }
    assert(spec_unpack_bits(packed) =~= bits);
}

/// Extracting bit `r` of a packed byte gives the bit that went in.
proof fn lemma_bit_of_packed_byte(bits: Seq<bool>, start: int, r: int)
    requires
        0 <= start,
        start + 8 <= bits.len(),
        0 <= r < 8,
    ensures
        spec_bit_of_byte(spec_byte_of_bits(bits, start) as u8, r) == bits[start + r],
{
    let i0: u8 = if bits[start] { 1 } else { 0 };
    let i1: u8 = if bits[start + 1] { 1 } else { 0 };
    let i2: u8 = if bits[start + 2] { 1 } else { 0 };
    let i3: u8 = if bits[start + 3] { 1 } else { 0 };
    let i4: u8 = if bits[start + 4] { 1 } else { 0 };
    let i5: u8 = if bits[start + 5] { 1 } else { 0 };
    let i6: u8 = if bits[start + 6] { 1 } else { 0 };
    let i7: u8 = if bits[start + 7] { 1 } else { 0 };
    let v = spec_byte_of_bits(bits, start);
    assert(0 <= v < 256);
    let u: u8 = v as u8;
    assert(u == 128 * i0 + 64 * i1 + 32 * i2 + 16 * i3 + 8 * i4 + 4 * i5 + 2 * i6 + i7);
    assert(u / 128 % 2 == i0 && u / 64 % 2 == i1 && u / 32 % 2 == i2 && u / 16 % 2 == i3 && u
        / 8 % 2 == i4 && u / 4 % 2 == i5 && u / 2 % 2 == i6 && u % 2 == i7) by (bit_vector)
        requires
            u == 128 * i0 + 64 * i1 + 32 * i2 + 16 * i3 + 8 * i4 + 4 * i5 + 2 * i6 + i7,
            i0 <= 1,
            i1 <= 1,
            i2 <= 1,
            i3 <= 1,
            i4 <= 1,
            i5 <= 1,
            i6 <= 1,
            i7 <= 1;
}


/// A handshake's wire bytes decode back to its fields: the buffer opens
/// with the identifier length and the protocol string, and the reserved
/// bytes, info hash and peer id sit at their fixed places.
pub proof fn lemma_handshake_round_trip(h: Handshake)
    requires
        h.wf(),
        h.prot@ == protocol_bytes(),
    ensures
        spec_encode_handshake(h).len() == 68,
        spec_handshake_prefix_valid(spec_encode_handshake(h)),
        spec_encode_handshake(h).subrange(20, 28) == h.reserved@,
        spec_encode_handshake(h).subrange(28, 48) == h.info_hash@,
        spec_encode_handshake(h).subrange(48, 68) == h.peer_id@,
{
    let wire = spec_encode_handshake(h);
    assert(wire.subrange(1, 20) =~= h.prot@);
    assert(wire.subrange(20, 28) =~= h.reserved@);
    assert(wire.subrange(28, 48) =~= h.info_hash@);
    assert(wire.subrange(48, 68) =~= h.peer_id@);
}

} // verus!
