//! The peer session state machine: the handshake exchange, the
//! availability exchange, and the request pipeline that downloads blocks
//! from a seed. The socket, the timers and the channels live outside the
//! library; it is handed decoded messages and returns the messages to send
//! and the blocks to forward to disk.

use vstd::prelude::*;

use crate::codec::{Handshake, Message};
use crate::download::{free_before, is_free_block_at_rank, PieceDownload};
use crate::error::Error;
use crate::iovecs::copy_byte_range;
use crate::piece_picker::{PieceAvailability, PiecePicker};
use crate::torrent::SharedStatus;
use crate::{spec_block_len, BlockInfo, BLOCK_LEN};

verus! {

/// Whether some download in the list has the block marked requested.
pub open spec fn request_backed_in(downloads: Seq<PieceDownload>, b: BlockInfo) -> bool {
    exists|di: int|
        0 <= di < downloads.len() && (#[trigger] downloads[di]).index == b.piece_index
            && downloads[di].blocks@[b.offset as int / (BLOCK_LEN as int)] is Requested
}

/// The states a peer connection goes through.
#[derive(Clone, Copy, Debug, PartialEq, Eq, Structural)]
pub enum State {
    /// The connection has not been opened yet, or it has been closed.
    Disconnected,
    /// The TCP connection is being established.
    Connecting,
    /// The handshakes are being exchanged.
    Handshaking,
    /// The handshakes are done; the peer's bitfield must come next, and
    /// nothing else.
    AvailabilityExchange,
    /// The normal state of the session, in which any message but a
    /// handshake or a bitfield may be exchanged.
    Connected,
}

impl Default for State {
    /// A session starts disconnected.
    fn default() -> (s: Self)
        ensures
            s == State::Disconnected,
    {
        State::Disconnected
    }
}

/// The status of a peer session. Both sides start choked and not
/// interested.
#[derive(Clone, Copy, Debug)]
pub struct Status {
    /// The current state of the session.
    pub state: State,
    /// While we are choked the peer does not serve our requests.
    pub is_choked: bool,
    /// Whether the peer has pieces we want.
    pub is_interested: bool,
    /// While the peer is choked we do not serve its requests.
    pub is_peer_choked: bool,
    /// Whether the peer wants pieces we have.
    pub is_peer_interested: bool,
    /// How many block requests to keep outstanding to saturate the link.
    /// Set when the download starts.
    pub best_request_queue_len: Option<usize>,
    /// The total number of bytes downloaded, protocol chatter included.
    pub downloaded_bytes_count: u64,
    /// The number of downloaded piece block bytes.
    pub downloaded_block_bytes_count: u64,
}

impl Default for Status {
    /// Both sides start choked and not interested, with no request queue
    /// yet.
    fn default() -> (s: Self)
        ensures
            s.state == State::Disconnected,
            s.is_choked,
            !s.is_interested,
            s.is_peer_choked,
            !s.is_peer_interested,
            s.best_request_queue_len is None,
            s.downloaded_bytes_count == 0,
            s.downloaded_block_bytes_count == 0,
    {
        Status {
            state: State::Disconnected,
            is_choked: true,
            is_interested: false,
            is_peer_choked: true,
            is_peer_interested: false,
            best_request_queue_len: None,
            downloaded_bytes_count: 0,
            downloaded_block_bytes_count: 0,
        }
    }
}

/// What is known of the peer after a successful handshake.
pub struct PeerInfo {
    /// The peer's twenty byte id, from its handshake.
    pub peer_id: Vec<u8>,
    /// The pieces the peer has, once its bitfield arrived.
    pub pieces: Option<Vec<bool>>,
}

/// A peer session's state: what has been negotiated, which piece downloads
/// it takes part in, and which block requests are outstanding.
pub struct PeerSession {
    /// The shared status of the torrent being downloaded.
    pub torrent: SharedStatus,
    /// Session related information.
    pub status: Status,
    /// The active piece downloads this session participates in.
    pub downloads: Vec<PieceDownload>,
    /// The requests sent to the peer whose blocks have not arrived yet. A
    /// block that arrives without an entry here is dropped. Cleared when we
    /// are choked, as no outstanding request will be served then.
    pub outgoing_requests: Vec<BlockInfo>,
    /// Information about the peer, set after a successful handshake.
    pub peer_info: Option<PeerInfo>,
}

impl PeerSession {
    /// The number of requests the session may keep outstanding.
    pub open spec fn spec_cap(self) -> int {
        match self.status.best_request_queue_len {
            Some(n) => n as int,
            None => 0,
        }
    }

    /// Whether the block info names a block of one of the torrent's pieces.
    pub open spec fn request_valid(self, b: BlockInfo) -> bool {
        &&& b.piece_index < self.torrent.storage.piece_count
        &&& b.offset % BLOCK_LEN == 0
        &&& b.offset < self.torrent.storage.spec_piece_len(b.piece_index as int)
        &&& b.len == spec_block_len(
            self.torrent.storage.spec_piece_len(b.piece_index as int) as u32,
            b.offset as int / BLOCK_LEN as int,
        )
    }

    /// Whether some download of the session has the block marked requested.
    pub open spec fn request_backed(self, b: BlockInfo) -> bool {
        request_backed_in(self.downloads@, b)
    }

    /// Every download belongs to a distinct piece of the torrent and has
    /// its length; every outstanding request names a block of its piece,
    /// marked requested in that piece's download; no request is outstanding
    /// twice; and the pipeline respects its cap.
    pub open spec fn wf(self) -> bool {
        &&& self.torrent.wf()
        &&& (forall|di: int|
            0 <= di < self.downloads@.len() ==> (#[trigger] self.downloads@[di]).wf()
                && self.downloads@[di].index < self.torrent.storage.piece_count
                && self.downloads@[di].len == self.torrent.storage.spec_piece_len(
                self.downloads@[di].index as int,
            ))
        &&& (forall|di: int, dj: int|
            0 <= di < dj < self.downloads@.len() ==> (#[trigger] self.downloads@[di]).index != (
            #[trigger] self.downloads@[dj]).index)
        &&& (forall|ri: int|
            0 <= ri < self.outgoing_requests@.len() ==> self.request_valid(
                #[trigger] self.outgoing_requests@[ri],
            ) && self.request_backed(self.outgoing_requests@[ri]))
        &&& (forall|ri: int, rj: int|
            0 <= ri < rj < self.outgoing_requests@.len() ==> (
            #[trigger] self.outgoing_requests@[ri]) != (#[trigger] self.outgoing_requests@[rj]))
        &&& self.outgoing_requests@.len() <= self.spec_cap()
    }

    /// Whether the picker agrees with the session: it tracks the torrent's
    /// pieces and has every piece the session is downloading marked picked.
    pub open spec fn picker_in_sync(self, picker: PiecePicker) -> bool {
        &&& picker.pieces@.len() == self.torrent.storage.piece_count
        &&& (forall|di: int|
            0 <= di < self.downloads@.len() ==> picker.pieces@[(
            #[trigger] self.downloads@[di]).index as int].is_picked)
    }

    /// Creates a new outbound session with a peer. The session starts
    /// disconnected with nothing requested; the caller opens the
    /// connection.
    pub fn outbound(torrent: SharedStatus) -> (session: PeerSession)
        requires
            torrent.wf(),
        ensures
            session.wf(),
            session.torrent == torrent,
            session.status.state == State::Disconnected,
            session.status.is_choked,
            !session.status.is_interested,
            session.status.best_request_queue_len is None,
            session.downloads@.len() == 0,
            session.outgoing_requests@.len() == 0,
            session.peer_info is None,
    {
        PeerSession {
            torrent,
            status: Status::default(),
            downloads: Vec::new(),
            outgoing_requests: Vec::new(),
            peer_info: None,
        }
    }

    /// The handshake this session sends: the torrent's info hash and our
    /// client id.
    pub fn make_handshake(&self) -> (h: Handshake)
        requires
            self.torrent.wf(),
        ensures
            h.wf(),
            h.prot@ == crate::codec::protocol_bytes(),
            h.info_hash@ == self.torrent.info_hash@,
            h.peer_id@ == self.torrent.client_id@,
    {
        let info_hash = copy_byte_range(&self.torrent.info_hash, 0, 20);
        let peer_id = copy_byte_range(&self.torrent.client_id, 0, 20);
        proof {
            assert(info_hash@ =~= self.torrent.info_hash@);
            assert(peer_id@ =~= self.torrent.client_id@);
        }
        Handshake::new(info_hash, peer_id)
    }

    /// Takes in the peer's handshake: if its info hash differs from the
    /// torrent's the session fails with `InvalidPeerInfoHash`; otherwise
    /// the peer is recorded and the session awaits the availability
    /// exchange.
    pub fn on_handshake(&mut self, peer_handshake: &Handshake) -> (r: Result<(), Error>)
        requires
            old(self).wf(),
            peer_handshake.wf(),
        ensures
            final(self).wf(),
            peer_handshake.info_hash@ != old(self).torrent.info_hash@ ==> r == Err::<(), Error>(
                Error::InvalidPeerInfoHash,
            ) && *final(self) == *old(self),
            peer_handshake.info_hash@ == old(self).torrent.info_hash@ ==> {
                &&& r == Ok::<(), Error>(())
                &&& final(self).status.state == State::AvailabilityExchange
                &&& (final(self).peer_info matches Some(info) && info.peer_id@
                    == peer_handshake.peer_id@ && info.pieces is None)
                &&& final(self).torrent == old(self).torrent
                &&& final(self).downloads == old(self).downloads
                &&& final(self).outgoing_requests == old(self).outgoing_requests
                &&& final(self).status.is_choked == old(self).status.is_choked
                &&& final(self).status.best_request_queue_len == old(self).status.best_request_queue_len
            },
    {
        if !crate::piece::bytes_eq(&peer_handshake.info_hash, &self.torrent.info_hash) {
            return Err(Error::InvalidPeerInfoHash);
        }
        let peer_id = copy_byte_range(&peer_handshake.peer_id, 0, 20);
        proof {
            assert(peer_id@ =~= peer_handshake.peer_id@);
        }
        self.peer_info = Some(PeerInfo { peer_id, pieces: None });
        self.status.state = State::AvailabilityExchange;
        Ok(())
    }

    /// Takes in the peer's bitfield, the one message allowed right after
    /// the handshake. The wire bitfield is resized to the piece count, so a
    /// bitfield with too few bits reads as missing pieces. A peer that does
    /// not hold every piece cannot serve this download and the session
    /// fails with `PeerNotSeed`. Otherwise the availability is registered
    /// with the picker, the request pipeline is sized, the session is
    /// connected, and an `Interested` message goes out.
    pub fn handle_bitfield_msg(&mut self, picker: &mut PiecePicker, bitfield: Vec<bool>) -> (r:
        Result<Vec<Message>, Error>)
        requires
            old(self).wf(),
            old(self).status.state == State::AvailabilityExchange,
            old(self).picker_in_sync(*old(picker)),
            old(self).outgoing_requests@.len() == 0,
            forall|i: int|
                0 <= i < old(picker).pieces@.len() ==> (#[trigger] old(picker).pieces@[i]).peer_count < usize::MAX,
        ensures
            final(self).wf(),
            final(self).picker_in_sync(*final(picker)),
            final(self).torrent == old(self).torrent,
            !(forall|i: int|
                0 <= i < old(self).torrent.storage.piece_count
                    ==> #[trigger] spec_resize_bits(
                    bitfield@,
                    old(self).torrent.storage.piece_count as int,
                )[i]) ==> r == Err::<Vec<Message>, Error>(Error::PeerNotSeed) && *final(self)
                == *old(self) && *final(picker) == *old(picker),
            (forall|i: int|
                0 <= i < old(self).torrent.storage.piece_count
                    ==> #[trigger] spec_resize_bits(
                    bitfield@,
                    old(self).torrent.storage.piece_count as int,
                )[i]) ==> {
                &&& (r matches Ok(msgs) && msgs@ =~= seq![Message::Interested])
                &&& final(self).status.state == State::Connected
                &&& final(self).status.is_interested == (exists|i: int|
                    0 <= i < old(picker).pieces@.len() && !(#[trigger] old(picker).pieces@[i]).is_picked)
                &&& final(self).status.best_request_queue_len == Some(4usize)
                &&& final(self).status.is_choked == old(self).status.is_choked
                &&& final(self).downloads == old(self).downloads
                &&& final(self).outgoing_requests == old(self).outgoing_requests
                &&& (forall|i: int|
                    0 <= i < old(picker).pieces@.len() ==> (#[trigger] final(picker).pieces@[i])
                        == (PieceAvailability {
                        peer_count: (old(picker).pieces@[i].peer_count + 1) as usize,
                        is_picked: old(picker).pieces@[i].is_picked,
                    }))
            },
    {
        let piece_count = self.torrent.storage.piece_count;
        let bits = resize_bits(&bitfield, piece_count);

        // the peer must be a seed: every piece must be there
        let mut all_set = true;
        let mut i: usize = 0;
        while i < bits.len()
            invariant
                0 <= i <= bits@.len(),
                all_set ==> (forall|j: int| 0 <= j < i ==> #[trigger] bits@[j]),
                !all_set ==> (exists|j: int| 0 <= j < i && !(#[trigger] bits@[j])),
            decreases bits@.len() - i,
        {
            if !bits[i] {
                all_set = false;
            }
            i = i + 1;
        }
        if !all_set {
            return Err(Error::PeerNotSeed);
        }

        let interested = match picker.register_availability(&bits) {
            Ok(interested) => interested,
            Err(_) => {
                proof {
                    assert(false);
                }
                vstd::pervasive::unreached()
            },
        };
        self.status.is_interested = interested;
        if let Some(peer_info) = &mut self.peer_info {
            peer_info.pieces = Some(bits);
        }

        // the download may start: size the request pipeline optimistically
        self.status.best_request_queue_len = Some(4);
        self.status.state = State::Connected;
        let mut msgs: Vec<Message> = Vec::new();
        msgs.push(Message::Interested);
        Ok(msgs)
    }

    /// Handles one message in the `Connected` state, following the
    /// protocol's table: a second bitfield is fatal; choking clears the
    /// outstanding requests; unchoking restarts the request pipeline; a
    /// block is settled and the pipeline refilled; availability and
    /// interest flags are recorded; everything else is a no-op. Returns the
    /// messages to send and, for a solicited block, what to forward to the
    /// disk.
    pub fn handle_msg(&mut self, picker: &mut PiecePicker, msg: Message) -> (r: Result<
        (Vec<Message>, Option<(BlockInfo, Vec<u8>)>),
        Error,
    >)
        requires
            old(self).wf(),
            old(self).picker_in_sync(*old(picker)),
            msg matches Message::Block { piece_index, offset, data } ==> data@.len() <= u32::MAX,
        ensures
            final(self).wf(),
            final(self).picker_in_sync(*final(picker)),
            final(self).torrent == old(self).torrent,
            msg is Bitfield ==> r == Err::<(Vec<Message>, Option<(BlockInfo, Vec<u8>)>), Error>(
                Error::BitfieldNotAfterHandshake,
            ) && *final(self) == *old(self) && *final(picker) == *old(picker),
            (msg is KeepAlive || msg is Have || msg is Request || msg is Cancel) ==> (r matches Ok(
                effects,
            ) && effects.0@.len() == 0 && effects.1 is None && *final(self) == *old(self)
                && *final(picker) == *old(picker)),
            msg is Interested ==> (r matches Ok(effects) && effects.0@.len() == 0 && effects.1
                is None && final(self).status.is_peer_interested && final(self).outgoing_requests
                == old(self).outgoing_requests && final(self).downloads == old(self).downloads
                && final(self).status.is_choked == old(self).status.is_choked && *final(picker)
                == *old(picker)),
            msg is NotInterested ==> (r matches Ok(effects) && effects.0@.len() == 0 && effects.1
                is None && !final(self).status.is_peer_interested && final(self).outgoing_requests == old(self).outgoing_requests && final(self).downloads == old(self).downloads && final(self).status.is_choked == old(self).status.is_choked && *final(picker) == *old(picker)),
            msg is Choke ==> (r matches Ok(effects) && effects.0@.len() == 0 && effects.1 is None
                && *final(picker) == *old(picker) && (if old(self).status.is_choked {
                *final(self) == *old(self)
            } else {
                final(self).status.is_choked && final(self).outgoing_requests@.len() == 0
                    && final(self).downloads == old(self).downloads && final(self).status.best_request_queue_len == old(self).status.best_request_queue_len
                    && final(self).status.state == old(self).status.state
            })),
            msg is Unchoke ==> (r matches Ok(effects) && effects.1 is None && (if !old(self).status.is_choked {
                *final(self) == *old(self) && *final(picker) == *old(picker) && effects.0@.len()
                    == 0
            } else {
                &&& !final(self).status.is_choked
                &&& final(self).outgoing_requests@.len() >= old(self).outgoing_requests@.len()
                &&& (forall|j: int|
                    0 <= j < old(self).outgoing_requests@.len() ==> final(self).outgoing_requests@[j] == old(self).outgoing_requests@[j])
                &&& effects.0@.len() == final(self).outgoing_requests@.len() - old(self).outgoing_requests@.len()
                &&& (forall|j: int|
                    0 <= j < effects.0@.len() ==> (#[trigger] effects.0@[j])
                        == Message::Request(
                        final(self).outgoing_requests@[old(self).outgoing_requests@.len() + j],
                    ))
            })),
            msg matches Message::Block { piece_index, offset, data } ==> (r matches Ok(effects)
                && {
                let bi = BlockInfo { piece_index, offset, len: data@.len() as u32 };
                &&& (!old(self).outgoing_requests@.contains(bi) ==> effects.1 is None && (forall|
                    j: int,
                |
                    0 <= j < old(self).outgoing_requests@.len() ==> final(self).outgoing_requests@[j] == old(self).outgoing_requests@[j]))
                &&& (old(self).outgoing_requests@.contains(bi) ==> effects.1 == Some((bi, data)))
                &&& (forall|j: int|
                    0 <= j < effects.0@.len() ==> (#[trigger] effects.0@[j]) is Request)
            }),
    {
        match msg {
            Message::Bitfield(_) => {
                // a bitfield is only allowed right after the handshake
                Err(Error::BitfieldNotAfterHandshake)
            },
            Message::KeepAlive => Ok((Vec::new(), None)),
            Message::Choke => {
                if !self.status.is_choked {
                    // our outstanding requests will not be served while we
                    // are choked
                    self.outgoing_requests.clear();
                    self.status.is_choked = true;
                }
                Ok((Vec::new(), None))
            },
            Message::Unchoke => {
                if self.status.is_choked {
                    self.status.is_choked = false;
                    // we may request blocks again
                    let requests = self.make_requests(picker);
                    let msgs = request_messages(&requests);
                    Ok((msgs, None))
                } else {
                    Ok((Vec::new(), None))
                }
            },
            Message::Interested => {
                self.status.is_peer_interested = true;
                Ok((Vec::new(), None))
            },
            Message::NotInterested => {
                self.status.is_peer_interested = false;
                Ok((Vec::new(), None))
            },
            Message::Block { piece_index, offset, data } => {
                let block_info = BlockInfo { piece_index, offset, len: data.len() as u32 };
                let disk_write = self.handle_block_msg(picker, block_info, data);
                // a block arrived, so the pipeline may have room again
                let requests = self.make_requests(picker);
                let msgs = request_messages(&requests);
                Ok((msgs, disk_write))
            },
            // not expected until seeding is supported: ignored
            Message::Have { .. } => Ok((Vec::new(), None)),
            Message::Request(_) => Ok((Vec::new(), None)),
            Message::Cancel(_) => Ok((Vec::new(), None)),
        }
    }

    /// Takes in a block the peer sent. A block that was never requested
    /// (absent from the outstanding requests) is dropped silently and
    /// nothing changes. Otherwise its request is settled: the request
    /// leaves the queue, the block is marked received in its piece's
    /// download, and if it was the piece's last missing block the piece is
    /// reported to the picker as received and its download ends. The
    /// returned pair is what the caller forwards to the disk; nothing is
    /// forwarded for a dropped block.
    #[verifier::rlimit(60)]
    pub fn handle_block_msg(&mut self, picker: &mut PiecePicker, block_info: BlockInfo, data: Vec<
        u8,
    >) -> (r: Option<(BlockInfo, Vec<u8>)>)
        requires
            old(self).wf(),
            old(self).picker_in_sync(*old(picker)),
        ensures
            final(self).wf(),
            final(self).picker_in_sync(*final(picker)),
            final(self).torrent == old(self).torrent,
            final(self).status.state == old(self).status.state,
            final(self).status.is_choked == old(self).status.is_choked,
            final(self).status.best_request_queue_len == old(self).status.best_request_queue_len,
            !old(self).outgoing_requests@.contains(block_info) ==> r is None && *final(self)
                == *old(self) && *final(picker) == *old(picker),
            old(self).outgoing_requests@.contains(block_info) ==> {
                &&& r == Some((block_info, data))
                &&& (exists|pos: int|
                    0 <= pos < old(self).outgoing_requests@.len() && old(self).outgoing_requests@[pos] == block_info && final(self).outgoing_requests@
                        == old(self).outgoing_requests@.remove(pos))
                &&& !final(self).outgoing_requests@.contains(block_info)
                &&& final(self).status.downloaded_block_bytes_count == vstd::math::min(
                    old(self).status.downloaded_block_bytes_count + block_info.len,
                    u64::MAX as int,
                )
                &&& (exists|di: int|
                    0 <= di < old(self).downloads@.len() && (#[trigger] old(self).downloads@[di]).index == block_info.piece_index && {
                        let updated = old(self).downloads@[di].blocks@.update(
                            block_info.offset as int / (BLOCK_LEN as int),
                            crate::download::BlockStatus::Received,
                        );
                        if crate::download::missing_before(updated, updated.len() as int) == 0 {
                            &&& final(self).downloads@ == old(self).downloads@.remove(di)
                            &&& final(picker).pieces@ == old(picker).pieces@.update(
                                block_info.piece_index as int,
                                PieceAvailability {
                                    peer_count: old(picker).pieces@[
                                    block_info.piece_index as int].peer_count,
                                    is_picked: true,
                                },
                            )
                        } else {
                            &&& final(self).downloads@.len() == old(self).downloads@.len()
                            &&& final(self).downloads@[di].index == old(self).downloads@[di].index
                            &&& final(self).downloads@[di].len == old(self).downloads@[di].len
                            &&& final(self).downloads@[di].blocks@ == updated
                            &&& (forall|dj: int|
                                0 <= dj < old(self).downloads@.len() && dj != di ==> (
                                #[trigger] final(self).downloads@[dj]) == old(self).downloads@[dj])
                            &&& *final(picker) == *old(picker)
                        }
                    })
            },
    {
        let ghost b = BLOCK_LEN as int;

        // find the block among the outstanding requests
        let mut pos: usize = 0;
        let mut found = false;
        while pos < self.outgoing_requests.len() && !found
            invariant
                *self == *old(self),
                *picker == *old(picker),
                0 <= pos <= self.outgoing_requests@.len(),
                !found ==> (forall|j: int|
                    0 <= j < pos ==> (#[trigger] self.outgoing_requests@[j]) != block_info),
                found ==> pos < self.outgoing_requests@.len()
                    && self.outgoing_requests@[pos as int] == block_info,
            decreases self.outgoing_requests@.len() - pos + (if found {
                0int
            } else {
                1int
            }),
        {
            if self.outgoing_requests[pos] == block_info {
                found = true;
            } else {
                pos = pos + 1;
            }
        }
        if !found {
            // silently drop a block we never asked for
            proof {
                assert(!old(self).outgoing_requests@.contains(block_info));
            }
            return None;
        }
        let ghost outgoing_pre = self.outgoing_requests@;
        self.outgoing_requests.remove(pos);
        proof {
            assert(old(self).outgoing_requests@.contains(block_info));
            lemma_remove_keeps_distinct(outgoing_pre, pos as int);
        }

        // find the piece's download; one exists because the request was
        // outstanding
        let mut dpos: usize = 0;
        let mut dfound = false;
        while dpos < self.downloads.len() && !dfound
            invariant
                self.downloads@ == old(self).downloads@,
                0 <= dpos <= self.downloads@.len(),
                !dfound ==> (forall|j: int|
                    0 <= j < dpos ==> (#[trigger] self.downloads@[j]).index
                        != block_info.piece_index),
                dfound ==> dpos < self.downloads@.len() && self.downloads@[dpos as int].index
                    == block_info.piece_index,
            decreases self.downloads@.len() - dpos + (if dfound {
                0int
            } else {
                1int
            }),
        {
            if self.downloads[dpos].piece_index() == block_info.piece_index {
                dfound = true;
            } else {
                dpos = dpos + 1;
            }
        }
        if !dfound {
            proof {
                assert(old(self).request_backed(block_info));
                assert(false);
            }
            vstd::pervasive::unreached()
        }

        // mark the block received in its download
        let ghost d_pre = self.downloads@[dpos as int];
        proof {
            // the backing download is this one, so the block is marked
            // requested in it
            let di = choose|di: int|
                0 <= di < old(self).downloads@.len() && (#[trigger] old(self).downloads@[di]).index == block_info.piece_index && old(self).downloads@[di].blocks@[block_info.offset as int / b] is Requested;
            assert(di == dpos as int);
        }
        let d = &mut self.downloads[dpos];
        d.received_block(block_info);
        let missing = self.downloads[dpos].count_missing_blocks();
        let ghost d_post = self.downloads@[dpos as int];
        let ghost downloads_mid = self.downloads@;

        // no request for this piece is outstanding twice, and requests for
        // other blocks of the piece stay marked requested
        proof {
            crate::piece::lemma_block_index_in_range(d_pre.len, block_info.offset);
            lemma_other_requests_stay_backed(
                *old(self),
                outgoing_pre,
                pos as int,
                dpos as int,
                block_info,
                d_post,
            );
        }

        if missing == 0 {
            // the piece is complete: report it received and end the
            // download
            picker.received_piece(block_info.piece_index);
            self.downloads.remove(dpos);
            proof {
                let ghost b2 = BLOCK_LEN as int;
                assert(downloads_mid.remove(dpos as int) =~= old(self).downloads@.remove(
                    dpos as int,
                ));
                downloads_mid.remove_ensures(dpos as int);
                // the remaining requests name other pieces, whose downloads
                // survive the removal
                assert forall|j: int|
                    0 <= j < self.outgoing_requests@.len() implies self.request_backed(
                    #[trigger] self.outgoing_requests@[j],
                ) by {
                    let r2 = self.outgoing_requests@[j];
                    assert(request_backed_in(downloads_mid, r2));
                    assert(r2.piece_index != block_info.piece_index);
                    let dj = choose|dj: int|
                        0 <= dj < downloads_mid.len() && (#[trigger] downloads_mid[dj]).index
                            == r2.piece_index && downloads_mid[dj].blocks@[r2.offset as int
                            / b2] is Requested;
                    assert(dj != dpos);
                    if dj < dpos {
                        assert(self.downloads@[dj] == downloads_mid[dj]);
                    } else {
                        assert(self.downloads@[dj - 1] == downloads_mid[dj]);
                    }
                }
            }
        }

        // adjust the download statistics
        if self.status.downloaded_block_bytes_count <= u64::MAX - block_info.len as u64 {
            self.status.downloaded_block_bytes_count = self.status.downloaded_block_bytes_count
                + block_info.len as u64;
        } else {
            self.status.downloaded_block_bytes_count = u64::MAX;
        }
        Some((block_info, data))
    }

    /// Fills the session's download pipeline up to its cap: first with free
    /// blocks of the piece downloads already in progress, then with blocks
    /// of pieces newly picked from the picker. The returned block infos
    /// have been appended to the outstanding requests; the caller sends a
    /// `Request` message for each, in order. When fewer requests than the
    /// cap come back, nothing was left to request: no download has a free
    /// block and the picker has no piece to give.
    #[verifier::rlimit(60)]
    pub fn make_requests(&mut self, picker: &mut PiecePicker) -> (requests: Vec<BlockInfo>)
        requires
            old(self).wf(),
            old(self).picker_in_sync(*old(picker)),
        ensures
            final(self).wf(),
            final(self).picker_in_sync(*final(picker)),
            final(self).torrent == old(self).torrent,
            final(self).status == old(self).status,
            final(self).outgoing_requests@ == old(self).outgoing_requests@ + requests@,
            final(picker).pieces@.len() == old(picker).pieces@.len(),
            forall|i: int|
                0 <= i < old(picker).pieces@.len() ==> (#[trigger] final(picker).pieces@[i]).peer_count == old(picker).pieces@[i].peer_count && (old(picker).pieces@[i].is_picked ==> final(picker).pieces@[i].is_picked),
            final(self).downloads@.len() >= old(self).downloads@.len(),
            forall|di: int|
                0 <= di < old(self).downloads@.len() ==> (#[trigger] final(self).downloads@[di]).index == old(self).downloads@[di].index && final(self).downloads@[di].len == old(self).downloads@[di].len,
            final(self).outgoing_requests@.len() == old(self).spec_cap() || ((forall|di: int|
                0 <= di < final(self).downloads@.len() ==> free_before(
                    (#[trigger] final(self).downloads@[di]).blocks@,
                    final(self).downloads@[di].blocks@.len() as int,
                ) == 0) && (forall|pi: int|
                0 <= pi < final(picker).pieces@.len() ==> !((#[trigger] final(picker).pieces@[pi]).peer_count > 0 && !final(picker).pieces@[pi].is_picked))),
    {
        let cap = match self.status.best_request_queue_len {
            Some(n) => n,
            None => 0,
        };
        let mut requests: Vec<BlockInfo> = Vec::new();

        // continue the downloads already in progress first, to keep the
        // number of partly downloaded pieces small
        let mut di: usize = 0;
        while di < self.downloads.len() && self.outgoing_requests.len() + requests.len() < cap
            invariant
                self.wf(),
                self.picker_in_sync(*picker),
                self.torrent == old(self).torrent,
                self.status == old(self).status,
                cap == old(self).spec_cap(),
                *picker == *old(picker),
                self.outgoing_requests == old(self).outgoing_requests,
                self.downloads@.len() == old(self).downloads@.len(),
                forall|dj: int|
                    0 <= dj < old(self).downloads@.len() ==> (#[trigger] self.downloads@[dj]).index
                        == old(self).downloads@[dj].index && self.downloads@[dj].len == old(self).downloads@[dj].len,
                0 <= di <= self.downloads@.len(),
                self.outgoing_requests@.len() + requests@.len() <= cap,
                forall|rj: int|
                    0 <= rj < requests@.len() ==> self.request_valid(#[trigger] requests@[rj])
                        && self.request_backed(requests@[rj]),
                forall|ri: int, rj: int|
                    0 <= ri < self.outgoing_requests@.len() && 0 <= rj < requests@.len() ==> (
                    #[trigger] self.outgoing_requests@[ri]) != (#[trigger] requests@[rj]),
                forall|ri: int, rj: int|
                    0 <= ri < rj < requests@.len() ==> (#[trigger] requests@[ri]) != (
                    #[trigger] requests@[rj]),
                forall|dj: int|
                    0 <= dj < di ==> self.outgoing_requests@.len() + requests@.len() == cap
                        || free_before(
                        (#[trigger] self.downloads@[dj]).blocks@,
                        self.downloads@[dj].blocks@.len() as int,
                    ) == 0,
            decreases self.downloads@.len() - di,
        {
            let remaining = cap - (self.outgoing_requests.len() + requests.len());
            let ghost self_pre = *self;
            let ghost requests_pre = requests@;
            let ghost d_pre = self.downloads@[di as int];
            proof {
                crate::download::lemma_free_before_monotone(
                    d_pre.blocks@,
                    0,
                    d_pre.blocks@.len() as int,
                );
            }
            let d = &mut self.downloads[di];
            d.pick_blocks(remaining, &mut requests);
            proof {
                lemma_requests_extended(
                    self_pre,
                    *self,
                    di as int,
                    d_pre,
                    requests_pre,
                    requests@,
                    remaining as int,
                );
                if requests@.len() < requests_pre.len() + remaining {
                    crate::download::lemma_no_free_left(
                        d_pre.blocks@,
                        self.downloads@[di as int].blocks@,
                        remaining as int,
                    );
                }
            }
            di = di + 1;
        }

        // while the pipeline still has room, start new piece downloads
        let mut pieces_left = true;
        while self.outgoing_requests.len() + requests.len() < cap && pieces_left
            invariant
                self.wf(),
                self.picker_in_sync(*picker),
                self.torrent == old(self).torrent,
                self.status == old(self).status,
                cap == old(self).spec_cap(),
                self.outgoing_requests == old(self).outgoing_requests,
                picker.pieces@.len() == old(picker).pieces@.len(),
                forall|i: int|
                    0 <= i < old(picker).pieces@.len() ==> (#[trigger] picker.pieces@[i]).peer_count
                        == old(picker).pieces@[i].peer_count && (old(picker).pieces@[i].is_picked
                        ==> picker.pieces@[i].is_picked),
                self.downloads@.len() >= old(self).downloads@.len(),
                forall|dj: int|
                    0 <= dj < old(self).downloads@.len() ==> (#[trigger] self.downloads@[dj]).index
                        == old(self).downloads@[dj].index && self.downloads@[dj].len == old(self).downloads@[dj].len,
                self.outgoing_requests@.len() + requests@.len() <= cap,
                forall|rj: int|
                    0 <= rj < requests@.len() ==> self.request_valid(#[trigger] requests@[rj])
                        && self.request_backed(requests@[rj]),
                forall|ri: int, rj: int|
                    0 <= ri < self.outgoing_requests@.len() && 0 <= rj < requests@.len() ==> (
                    #[trigger] self.outgoing_requests@[ri]) != (#[trigger] requests@[rj]),
                forall|ri: int, rj: int|
                    0 <= ri < rj < requests@.len() ==> (#[trigger] requests@[ri]) != (
                    #[trigger] requests@[rj]),
                self.outgoing_requests@.len() + requests@.len() == cap || (forall|dj: int|
                    0 <= dj < self.downloads@.len() ==> free_before(
                        (#[trigger] self.downloads@[dj]).blocks@,
                        self.downloads@[dj].blocks@.len() as int,
                    ) == 0),
                !pieces_left ==> (forall|pi: int|
                    0 <= pi < picker.pieces@.len() ==> !((#[trigger] picker.pieces@[pi]).peer_count
                        > 0 && !picker.pieces@[pi].is_picked)),
            decreases cap - (self.outgoing_requests@.len() + requests@.len()) + (if pieces_left {
                1int
            } else {
                0int
            }),
        {
            match picker.pick_piece() {
                Some(index) => {
                    let piece_len = match self.torrent.storage.piece_len(index) {
                        Ok(len) => len,
                        Err(_) => {
                            proof {
                                assert(false);
                            }
                            vstd::pervasive::unreached()
                        },
                    };
                    let mut download = PieceDownload::new(index, piece_len);
                    let remaining = cap - (self.outgoing_requests.len() + requests.len());
                    let ghost requests_pre = requests@;
                    let ghost d_fresh = download;
                    download.pick_blocks(remaining, &mut requests);
                    proof {
                        // a fresh download has every block free, so at
                        // least one request was added
                        assert(d_fresh.blocks@.len() > 0);
                        assert(d_fresh.blocks@[0] is Free);
                        assert(free_before(d_fresh.blocks@, 0) == 0);
                        assert(free_before(d_fresh.blocks@, 1) == 1);
                        crate::download::lemma_free_before_monotone(
                            d_fresh.blocks@,
                            1,
                            d_fresh.blocks@.len() as int,
                        );
                    }
                    let ghost self_pre = *self;
                    self.downloads.push(download);
                    proof {
                        lemma_new_download_requests(
                            self_pre,
                            *self,
                            d_fresh,
                            download,
                            requests_pre,
                            requests@,
                            remaining as int,
                        );
                        if requests@.len() < requests_pre.len() + remaining {
                            crate::download::lemma_no_free_left(
                                d_fresh.blocks@,
                                download.blocks@,
                                remaining as int,
                            );
                        }
                    }
                },
                None => {
                    pieces_left = false;
                },
            }
        }

        // record the volley and return it so the caller can send the
        // request messages
        let ghost outgoing_pre = self.outgoing_requests@;
        let ghost requests_snap = requests@;
        let ghost picker_snap = *picker;
        let ghost downloads_snap = self.downloads@;
        let ghost exhausted = self.outgoing_requests@.len() + requests@.len() == cap || ((forall|
            dj: int,
        |
            0 <= dj < self.downloads@.len() ==> free_before(
                (#[trigger] self.downloads@[dj]).blocks@,
                self.downloads@[dj].blocks@.len() as int,
            ) == 0) && (forall|pi: int|
            0 <= pi < picker.pieces@.len() ==> !((#[trigger] picker.pieces@[pi]).peer_count > 0
                && !picker.pieces@[pi].is_picked)));
        proof {
            assert(exhausted);
        }
        let mut r: usize = 0;
        while r < requests.len()
            invariant
                self.torrent == old(self).torrent,
                self.status == old(self).status,
                cap == old(self).spec_cap(),
                *picker == picker_snap,
                self.downloads@ == downloads_snap,
                requests@ == requests_snap,
                outgoing_pre == old(self).outgoing_requests@,
                self.picker_in_sync(*picker),
                self.torrent.wf(),
                forall|dj: int|
                    0 <= dj < self.downloads@.len() ==> (#[trigger] self.downloads@[dj]).wf()
                        && self.downloads@[dj].index < self.torrent.storage.piece_count
                        && self.downloads@[dj].len == self.torrent.storage.spec_piece_len(
                        self.downloads@[dj].index as int,
                    ),
                forall|di2: int, dj: int|
                    0 <= di2 < dj < self.downloads@.len() ==> (
                    #[trigger] self.downloads@[di2]).index != (
                    #[trigger] self.downloads@[dj]).index,
                forall|ri: int|
                    0 <= ri < outgoing_pre.len() ==> self.request_valid(
                        #[trigger] outgoing_pre[ri],
                    ) && self.request_backed(outgoing_pre[ri]),
                forall|ri: int, rj: int|
                    0 <= ri < rj < outgoing_pre.len() ==> (#[trigger] outgoing_pre[ri]) != (
                    #[trigger] outgoing_pre[rj]),
                forall|rj: int|
                    0 <= rj < requests_snap.len() ==> self.request_valid(
                        #[trigger] requests_snap[rj],
                    ) && self.request_backed(requests_snap[rj]),
                forall|ri: int, rj: int|
                    0 <= ri < outgoing_pre.len() && 0 <= rj < requests_snap.len() ==> (
                    #[trigger] outgoing_pre[ri]) != (#[trigger] requests_snap[rj]),
                forall|ri: int, rj: int|
                    0 <= ri < rj < requests_snap.len() ==> (#[trigger] requests_snap[ri]) != (
                    #[trigger] requests_snap[rj]),
                outgoing_pre.len() + requests_snap.len() <= cap,
                0 <= r <= requests_snap.len(),
                self.outgoing_requests@ == outgoing_pre + requests_snap.take(r as int),
            decreases requests_snap.len() - r,
        {
            self.outgoing_requests.push(requests[r]);
            r = r + 1;
            proof {
                assert(outgoing_pre + requests_snap.take(r as int) =~= (outgoing_pre
                    + requests_snap.take(r - 1)).push(requests_snap[r - 1]));
            }
        }
        proof {
            assert(requests_snap.take(requests_snap.len() as int) =~= requests_snap);
            let all = self.outgoing_requests@;
            assert forall|ri: int|
                0 <= ri < all.len() implies self.request_valid(#[trigger] all[ri])
                && self.request_backed(all[ri]) by {
                if ri < outgoing_pre.len() {
                    assert(all[ri] == outgoing_pre[ri]);
                } else {
                    assert(all[ri] == requests_snap[ri - outgoing_pre.len()]);
                }
            }
            assert forall|ri: int, rj: int|
                0 <= ri < rj < all.len() implies (#[trigger] all[ri]) != (
            #[trigger] all[rj]) by {
                if ri < outgoing_pre.len() {
                    assert(all[ri] == outgoing_pre[ri]);
                } else {
                    assert(all[ri] == requests_snap[ri - outgoing_pre.len()]);
                }
                if rj < outgoing_pre.len() {
                    assert(all[rj] == outgoing_pre[rj]);
                } else {
                    assert(all[rj] == requests_snap[rj - outgoing_pre.len()]);
                }
            }
        }
        requests
    }
}

/// After picking blocks from the download at `di`, the accumulated
/// requests stay valid, backed, and mutually distinct, and the session
/// stays well formed.
proof fn lemma_requests_extended(
    pre: PeerSession,
    post: PeerSession,
    di: int,
    d_pre: PieceDownload,
    requests_pre: Seq<BlockInfo>,
    requests_post: Seq<BlockInfo>,
    count: int,
)
    requires
        pre.wf(),
        0 <= di < pre.downloads@.len(),
        d_pre == pre.downloads@[di],
        post.torrent == pre.torrent,
        post.status == pre.status,
        post.outgoing_requests == pre.outgoing_requests,
        post.downloads@ == pre.downloads@.update(
            di,
            post.downloads@[di],
        ),
        // what pick_blocks guarantees of the download at di
        post.downloads@[di].wf(),
        post.downloads@[di].index == d_pre.index,
        post.downloads@[di].len == d_pre.len,
        post.downloads@[di].blocks@.len() == d_pre.blocks@.len(),
        forall|k: int|
            0 <= k < d_pre.blocks@.len() ==> (#[trigger] post.downloads@[di].blocks@[k]) == (
            if d_pre.blocks@[k] is Free && free_before(d_pre.blocks@, k) < count {
                crate::download::BlockStatus::Requested
            } else {
                d_pre.blocks@[k]
            }),
        // what pick_blocks guarantees of the appended requests
        requests_post.len() >= requests_pre.len(),
        requests_post.len() <= requests_pre.len() + count,
        forall|j: int| 0 <= j < requests_pre.len() ==> requests_post[j] == requests_pre[j],
        forall|j: int|
            requests_pre.len() <= j < requests_post.len() ==> is_free_block_at_rank(
                d_pre,
                j - requests_pre.len(),
                #[trigger] requests_post[j],
            ),
        // what held of the accumulated requests before
        forall|rj: int|
            0 <= rj < requests_pre.len() ==> pre.request_valid(#[trigger] requests_pre[rj])
                && pre.request_backed(requests_pre[rj]),
        forall|ri: int, rj: int|
            0 <= ri < pre.outgoing_requests@.len() && 0 <= rj < requests_pre.len() ==> (
            #[trigger] pre.outgoing_requests@[ri]) != (#[trigger] requests_pre[rj]),
        forall|ri: int, rj: int|
            0 <= ri < rj < requests_pre.len() ==> (#[trigger] requests_pre[ri]) != (
            #[trigger] requests_pre[rj]),
    ensures
        post.wf(),
        forall|rj: int|
            0 <= rj < requests_post.len() ==> post.request_valid(#[trigger] requests_post[rj])
                && post.request_backed(requests_post[rj]),
        forall|ri: int, rj: int|
            0 <= ri < post.outgoing_requests@.len() && 0 <= rj < requests_post.len() ==> (
            #[trigger] post.outgoing_requests@[ri]) != (#[trigger] requests_post[rj]),
        forall|ri: int, rj: int|
            0 <= ri < rj < requests_post.len() ==> (#[trigger] requests_post[ri]) != (
            #[trigger] requests_post[rj]),
{
    let d_post = post.downloads@[di];
    let b = BLOCK_LEN as int;

    // requested blocks only go from free to requested, so old requests
    // stay backed and downloads stay consistent
    assert forall|bi: BlockInfo|
        pre.request_valid(bi) && pre.request_backed(bi) implies post.request_backed(bi) by {
        let dj = choose|dj: int|
            0 <= dj < pre.downloads@.len() && (#[trigger] pre.downloads@[dj]).index
                == bi.piece_index && pre.downloads@[dj].blocks@[bi.offset as int / b] is Requested;
        crate::piece::lemma_block_index_in_range(pre.downloads@[dj].len, bi.offset);
        assert(bi.offset as int / b < d_pre.blocks@.len() || dj != di);
        assert(post.downloads@[dj].index == bi.piece_index && post.downloads@[dj].blocks@[
        bi.offset as int / b] is Requested);
    }

    // each appended request is a block of the download's piece, now
    // marked requested
    assert forall|j: int|
        requests_pre.len() <= j < requests_post.len() implies post.request_valid(
        #[trigger] requests_post[j],
    ) && post.request_backed(requests_post[j]) by {
        let k = choose|k: int|
            0 <= k < d_pre.blocks@.len() && d_pre.blocks@[k] is Free && free_before(
                d_pre.blocks@,
                k,
            ) == j - requests_pre.len() && requests_post[j] == d_pre.spec_block_at(k);
        d_pre.lemma_block_at_valid(k);
        assert(free_before(d_pre.blocks@, k) < count) by {
            crate::download::lemma_free_before_monotone(d_pre.blocks@, 0, k);
        }
        assert(post.downloads@[di].blocks@[k] is Requested);
        assert(post.downloads@[di].index == requests_post[j].piece_index);
    }

    // an appended request names a block that was free, while every request
    // already outstanding or accumulated names one already marked
    // requested in the same (unique) download, so they differ
    assert forall|bi: BlockInfo, j: int|
        pre.request_valid(bi) && pre.request_backed(bi) && requests_pre.len() <= j
            < requests_post.len() implies bi != requests_post[j] by {
        let dj = choose|dj: int|
            0 <= dj < pre.downloads@.len() && (#[trigger] pre.downloads@[dj]).index
                == bi.piece_index && pre.downloads@[dj].blocks@[bi.offset as int / b] is Requested;
        let k = choose|k: int|
            0 <= k < d_pre.blocks@.len() && d_pre.blocks@[k] is Free && free_before(
                d_pre.blocks@,
                k,
            ) == j - requests_pre.len() && requests_post[j] == d_pre.spec_block_at(k);
        d_pre.lemma_block_at_valid(k);
        if bi == requests_post[j] {
            assert(dj == di);
            assert(bi.offset as int / b == k);
            assert(d_pre.blocks@[k] is Requested);
        }
    }

    // two appended requests have different free ranks, hence different
    // offsets
    assert forall|j1: int, j2: int|
        requests_pre.len() <= j1 < j2 < requests_post.len() implies requests_post[j1]
        != requests_post[j2] by {
        let k1 = choose|k: int|
            0 <= k < d_pre.blocks@.len() && d_pre.blocks@[k] is Free && free_before(
                d_pre.blocks@,
                k,
            ) == j1 - requests_pre.len() && requests_post[j1] == d_pre.spec_block_at(k);
        let k2 = choose|k: int|
            0 <= k < d_pre.blocks@.len() && d_pre.blocks@[k] is Free && free_before(
                d_pre.blocks@,
                k,
            ) == j2 - requests_pre.len() && requests_post[j2] == d_pre.spec_block_at(k);
        assert(k1 != k2);
        assert(k1 * b != k2 * b) by (nonlinear_arith)
            requires
                k1 != k2,
                k1 >= 0,
                k2 >= 0,
                b == 0x4000;
        d_pre.lemma_block_at_valid(k1);
        d_pre.lemma_block_at_valid(k2);
        assert(d_pre.spec_block_at(k1).offset != d_pre.spec_block_at(k2).offset);
    }
}

/// After picking blocks from a freshly created download of a newly picked
/// piece and pushing it, the accumulated requests stay valid, backed and
/// mutually distinct, and the session stays well formed.
proof fn lemma_new_download_requests(
    pre: PeerSession,
    post: PeerSession,
    d_fresh: PieceDownload,
    d_picked: PieceDownload,
    requests_pre: Seq<BlockInfo>,
    requests_post: Seq<BlockInfo>,
    count: int,
)
    requires
        pre.torrent.wf(),
        post.torrent == pre.torrent,
        post.status == pre.status,
        post.outgoing_requests == pre.outgoing_requests,
        post.downloads@ == pre.downloads@.push(d_picked),
        // the session without the new download was well formed
        forall|dj: int|
            0 <= dj < pre.downloads@.len() ==> (#[trigger] pre.downloads@[dj]).wf()
                && pre.downloads@[dj].index < pre.torrent.storage.piece_count
                && pre.downloads@[dj].len == pre.torrent.storage.spec_piece_len(
                pre.downloads@[dj].index as int,
            ),
        forall|di: int, dj: int|
            0 <= di < dj < pre.downloads@.len() ==> (#[trigger] pre.downloads@[di]).index != (
            #[trigger] pre.downloads@[dj]).index,
        forall|ri: int|
            0 <= ri < pre.outgoing_requests@.len() ==> pre.request_valid(
                #[trigger] pre.outgoing_requests@[ri],
            ) && pre.request_backed(pre.outgoing_requests@[ri]),
        // the new download's piece is no other download's piece
        forall|dj: int|
            0 <= dj < pre.downloads@.len() ==> (#[trigger] pre.downloads@[dj]).index
                != d_picked.index,
        // the fresh download and what pick_blocks made of it
        d_fresh.wf(),
        d_fresh.index == d_picked.index,
        d_fresh.len == d_picked.len,
        d_fresh.index < pre.torrent.storage.piece_count,
        d_fresh.len == pre.torrent.storage.spec_piece_len(d_fresh.index as int),
        forall|k: int| 0 <= k < d_fresh.blocks@.len() ==> (#[trigger] d_fresh.blocks@[k]) is Free,
        d_picked.wf(),
        d_picked.blocks@.len() == d_fresh.blocks@.len(),
        forall|k: int|
            0 <= k < d_fresh.blocks@.len() ==> (#[trigger] d_picked.blocks@[k]) == (
            if d_fresh.blocks@[k] is Free && free_before(d_fresh.blocks@, k) < count {
                crate::download::BlockStatus::Requested
            } else {
                d_fresh.blocks@[k]
            }),
        // what pick_blocks guarantees of the appended requests
        requests_post.len() >= requests_pre.len(),
        requests_post.len() <= requests_pre.len() + count,
        forall|j: int| 0 <= j < requests_pre.len() ==> requests_post[j] == requests_pre[j],
        forall|j: int|
            requests_pre.len() <= j < requests_post.len() ==> is_free_block_at_rank(
                d_fresh,
                j - requests_pre.len(),
                #[trigger] requests_post[j],
            ),
        // what held of the accumulated requests before
        forall|rj: int|
            0 <= rj < requests_pre.len() ==> pre.request_valid(#[trigger] requests_pre[rj])
                && pre.request_backed(requests_pre[rj]),
        forall|ri: int, rj: int|
            0 <= ri < pre.outgoing_requests@.len() && 0 <= rj < requests_pre.len() ==> (
            #[trigger] pre.outgoing_requests@[ri]) != (#[trigger] requests_pre[rj]),
        forall|ri: int, rj: int|
            0 <= ri < rj < requests_pre.len() ==> (#[trigger] requests_pre[ri]) != (
            #[trigger] requests_pre[rj]),
    ensures
        forall|dj: int|
            0 <= dj < post.downloads@.len() ==> (#[trigger] post.downloads@[dj]).wf()
                && post.downloads@[dj].index < post.torrent.storage.piece_count
                && post.downloads@[dj].len == post.torrent.storage.spec_piece_len(
                post.downloads@[dj].index as int,
            ),
        forall|di: int, dj: int|
            0 <= di < dj < post.downloads@.len() ==> (#[trigger] post.downloads@[di]).index != (
            #[trigger] post.downloads@[dj]).index,
        forall|ri: int|
            0 <= ri < post.outgoing_requests@.len() ==> post.request_valid(
                #[trigger] post.outgoing_requests@[ri],
            ) && post.request_backed(post.outgoing_requests@[ri]),
        forall|rj: int|
            0 <= rj < requests_post.len() ==> post.request_valid(#[trigger] requests_post[rj])
                && post.request_backed(requests_post[rj]),
        forall|ri: int, rj: int|
            0 <= ri < post.outgoing_requests@.len() && 0 <= rj < requests_post.len() ==> (
            #[trigger] post.outgoing_requests@[ri]) != (#[trigger] requests_post[rj]),
        forall|ri: int, rj: int|
            0 <= ri < rj < requests_post.len() ==> (#[trigger] requests_post[ri]) != (
            #[trigger] requests_post[rj]),
{
    let b = BLOCK_LEN as int;
    let dn = pre.downloads@.len() as int;

    // requests backed before stay backed: their download kept its place
    assert forall|bi: BlockInfo| pre.request_backed(bi) implies post.request_backed(bi) by {
        let dj = choose|dj: int|
            0 <= dj < pre.downloads@.len() && (#[trigger] pre.downloads@[dj]).index
                == bi.piece_index && pre.downloads@[dj].blocks@[bi.offset as int / b] is Requested;
        assert(post.downloads@[dj].index == bi.piece_index && post.downloads@[dj].blocks@[
        bi.offset as int / b] is Requested);
    }

    // each appended request is a block of the new piece, marked requested
    // in the new download
    assert forall|j: int|
        requests_pre.len() <= j < requests_post.len() implies post.request_valid(
        #[trigger] requests_post[j],
    ) && post.request_backed(requests_post[j]) by {
        let k = choose|k: int|
            0 <= k < d_fresh.blocks@.len() && d_fresh.blocks@[k] is Free && free_before(
                d_fresh.blocks@,
                k,
            ) == j - requests_pre.len() && requests_post[j] == d_fresh.spec_block_at(k);
        d_fresh.lemma_block_at_valid(k);
        assert(free_before(d_fresh.blocks@, k) < count) by {
            crate::download::lemma_free_before_monotone(d_fresh.blocks@, 0, k);
        }
        assert(post.downloads@[dn].blocks@[k] is Requested);
        assert(post.downloads@[dn].index == requests_post[j].piece_index);
    }

    // an appended request is for the newly picked piece, which no earlier
    // request can name: earlier requests are backed by other downloads
    assert forall|bi: BlockInfo, j: int|
        pre.request_backed(bi) && requests_pre.len() <= j < requests_post.len() implies bi
        != requests_post[j] by {
        let dj = choose|dj: int|
            0 <= dj < pre.downloads@.len() && (#[trigger] pre.downloads@[dj]).index
                == bi.piece_index && pre.downloads@[dj].blocks@[bi.offset as int / b] is Requested;
        let k = choose|k: int|
            0 <= k < d_fresh.blocks@.len() && d_fresh.blocks@[k] is Free && free_before(
                d_fresh.blocks@,
                k,
            ) == j - requests_pre.len() && requests_post[j] == d_fresh.spec_block_at(k);
        assert(pre.downloads@[dj].index != d_fresh.index);
    }

    // two appended requests have different free ranks, hence different
    // offsets
    assert forall|j1: int, j2: int|
        requests_pre.len() <= j1 < j2 < requests_post.len() implies requests_post[j1]
        != requests_post[j2] by {
        let k1 = choose|k: int|
            0 <= k < d_fresh.blocks@.len() && d_fresh.blocks@[k] is Free && free_before(
                d_fresh.blocks@,
                k,
            ) == j1 - requests_pre.len() && requests_post[j1] == d_fresh.spec_block_at(k);
        let k2 = choose|k: int|
            0 <= k < d_fresh.blocks@.len() && d_fresh.blocks@[k] is Free && free_before(
                d_fresh.blocks@,
                k,
            ) == j2 - requests_pre.len() && requests_post[j2] == d_fresh.spec_block_at(k);
        assert(k1 != k2);
        assert(k1 * b != k2 * b) by (nonlinear_arith)
            requires
                k1 != k2,
                k1 >= 0,
                k2 >= 0,
                b == 0x4000;
        d_fresh.lemma_block_at_valid(k1);
        d_fresh.lemma_block_at_valid(k2);
        assert(d_fresh.spec_block_at(k1).offset != d_fresh.spec_block_at(k2).offset);
    }
}

/// A bitfield resized to the torrent's piece count: bits past the wire
/// bitfield's end read as unset.
pub open spec fn spec_resize_bits(bits: Seq<bool>, count: int) -> Seq<bool> {
    Seq::new(count as nat, |i: int| 0 <= i < bits.len() && bits[i])
}

/// Resizes a bitfield to the given length, truncating or padding with
/// unset bits.
fn resize_bits(bits: &Vec<bool>, count: usize) -> (r: Vec<bool>)
    ensures
        r@ == spec_resize_bits(bits@, count as int),
{
    let mut r: Vec<bool> = Vec::new();
    let mut i: usize = 0;
    while i < count
        invariant
            0 <= i <= count,
            r@.len() == i,
            forall|j: int| 0 <= j < i ==> r@[j] == (0 <= j < bits@.len() && bits@[j]),
        decreases count - i,
    {
        let b = if i < bits.len() {
            bits[i]
        } else {
            false
        };
        r.push(b);
        i = i + 1;
    }
    proof {
        assert(r@ =~= spec_resize_bits(bits@, count as int));
    }
    r
}


/// Two distinct block-aligned offsets name distinct blocks.
proof fn lemma_aligned_div_distinct(o1: u32, o2: u32)
    requires
        o1 % BLOCK_LEN == 0,
        o2 % BLOCK_LEN == 0,
        o1 != o2,
    ensures
        o1 as int / (BLOCK_LEN as int) != o2 as int / (BLOCK_LEN as int),
{
    let b = BLOCK_LEN as int;
    vstd::arithmetic::div_mod::lemma_fundamental_div_mod(o1 as int, b);
    vstd::arithmetic::div_mod::lemma_fundamental_div_mod(o2 as int, b);
}

/// Removing one element of a duplicate-free sequence keeps the rest
/// distinct, drops the removed value entirely, and every remaining element
/// kept its value.
proof fn lemma_remove_keeps_distinct(s: Seq<BlockInfo>, pos: int)
    requires
        0 <= pos < s.len(),
        forall|ri: int, rj: int| 0 <= ri < rj < s.len() ==> (#[trigger] s[ri]) != (
        #[trigger] s[rj]),
    ensures
        forall|ri: int, rj: int|
            0 <= ri < rj < s.remove(pos).len() ==> (#[trigger] s.remove(pos)[ri]) != (
            #[trigger] s.remove(pos)[rj]),
        !s.remove(pos).contains(s[pos]),
        forall|j: int|
            0 <= j < s.remove(pos).len() ==> (#[trigger] s.remove(pos)[j]) == s[
            (if j < pos { j } else { j + 1 })] && (if j < pos { j } else { j + 1 }) != pos,
{
    s.remove_ensures(pos);
    assert forall|ri: int, rj: int|
        0 <= ri < rj < s.remove(pos).len() implies (#[trigger] s.remove(pos)[ri]) != (
    #[trigger] s.remove(pos)[rj]) by {
        let i0 = if ri < pos { ri } else { ri + 1 };
        let j0 = if rj < pos { rj } else { rj + 1 };
        assert(s.remove(pos)[ri] == s[i0] && s.remove(pos)[rj] == s[j0]);
    }
    if s.remove(pos).contains(s[pos]) {
        let j = choose|j: int| 0 <= j < s.remove(pos).len() && s.remove(pos)[j] == s[pos];
        let j0 = if j < pos { j } else { j + 1 };
        assert(s[j0] == s[pos] && j0 != pos);
    }
}

/// After one block of the download at `dpos` turns received, every request
/// still outstanding is backed by the updated downloads; none of them is
/// the settled block; and if the piece is now complete, none of them names
/// it at all.
#[verifier::rlimit(60)]
proof fn lemma_other_requests_stay_backed(
    pre: PeerSession,
    outgoing_pre: Seq<BlockInfo>,
    pos: int,
    dpos: int,
    block_info: BlockInfo,
    d_post: PieceDownload,
)
    requires
        pre.wf(),
        outgoing_pre == pre.outgoing_requests@,
        0 <= pos < outgoing_pre.len(),
        outgoing_pre[pos] == block_info,
        0 <= dpos < pre.downloads@.len(),
        pre.downloads@[dpos].index == block_info.piece_index,
        d_post.index == pre.downloads@[dpos].index,
        d_post.len == pre.downloads@[dpos].len,
        d_post.blocks@ == pre.downloads@[dpos].blocks@.update(
            block_info.offset as int / (BLOCK_LEN as int),
            crate::download::BlockStatus::Received,
        ),
    ensures
        forall|j: int|
            0 <= j < outgoing_pre.remove(pos).len() ==> pre.request_valid(
                #[trigger] outgoing_pre.remove(pos)[j],
            ),
        forall|j: int|
            0 <= j < outgoing_pre.remove(pos).len() ==> request_backed_in(
                pre.downloads@.update(dpos, d_post),
                #[trigger] outgoing_pre.remove(pos)[j],
            ),
        crate::download::missing_before(d_post.blocks@, d_post.blocks@.len() as int) == 0
            ==> (forall|j: int|
            0 <= j < outgoing_pre.remove(pos).len() ==> (
            #[trigger] outgoing_pre.remove(pos)[j]).piece_index != block_info.piece_index),
        forall|ri: int, rj: int|
            0 <= ri < rj < outgoing_pre.remove(pos).len() ==> (
            #[trigger] outgoing_pre.remove(pos)[ri]) != (
            #[trigger] outgoing_pre.remove(pos)[rj]),
        !outgoing_pre.remove(pos).contains(block_info),
{
    let b = BLOCK_LEN as int;
    let rem = outgoing_pre.remove(pos);
    let dl = pre.downloads@.update(dpos, d_post);
    let k = block_info.offset as int / b;
    lemma_remove_keeps_distinct(outgoing_pre, pos);
    assert forall|j: int|
        0 <= j < rem.len() implies pre.request_valid(#[trigger] rem[j]) && request_backed_in(
        dl,
        rem[j],
    ) && (crate::download::missing_before(d_post.blocks@, d_post.blocks@.len() as int) == 0
        ==> rem[j].piece_index != block_info.piece_index) by {
        let j0 = if j < pos {
            j
        } else {
            j + 1
        };
        let r2 = outgoing_pre[j0];
        assert(rem[j] == r2 && j0 != pos);
        assert(pre.request_valid(r2) && pre.request_backed(r2));
        assert(r2 != block_info);
        let dj = choose|dj: int|
            0 <= dj < pre.downloads@.len() && (#[trigger] pre.downloads@[dj]).index
                == r2.piece_index && pre.downloads@[dj].blocks@[r2.offset as int / b] is Requested;
        if r2.piece_index == block_info.piece_index {
            // the piece's download is unique, so it is the one at dpos,
            // and the request names a different block of it
            assert(dj == dpos);
            crate::piece::lemma_block_index_in_range(
                pre.torrent.storage.spec_piece_len(r2.piece_index as int) as u32,
                r2.offset,
            );
            crate::piece::lemma_block_index_in_range(
                pre.torrent.storage.spec_piece_len(block_info.piece_index as int) as u32,
                block_info.offset,
            );
            if r2.offset == block_info.offset {
                assert(r2.len == block_info.len);
                assert(r2 == block_info);
            }
            lemma_aligned_div_distinct(r2.offset, block_info.offset);
            assert(d_post.blocks@[r2.offset as int / b] is Requested);
            assert(dl[dpos].index == r2.piece_index);
            if crate::download::missing_before(d_post.blocks@, d_post.blocks@.len() as int)
                == 0 {
                crate::download::lemma_missing_at(d_post.blocks@, r2.offset as int / b);
            }
        } else {
            assert(dj != dpos);
            assert(dl[dj] == pre.downloads@[dj]);
        }
    }
}


/// One `Request` message per block info, in order.
fn request_messages(requests: &Vec<BlockInfo>) -> (msgs: Vec<Message>)
    ensures
        msgs@.len() == requests@.len(),
        forall|j: int|
            0 <= j < requests@.len() ==> (#[trigger] msgs@[j]) == Message::Request(
                requests@[j],
            ),
{
    let mut msgs: Vec<Message> = Vec::new();
    let mut i: usize = 0;
    while i < requests.len()
        invariant
            0 <= i <= requests@.len(),
            msgs@.len() == i,
            forall|j: int|
                0 <= j < i ==> (#[trigger] msgs@[j]) == Message::Request(requests@[j]),
        decreases requests@.len() - i,
    {
        msgs.push(Message::Request(requests[i]));
        i = i + 1;
    }
    msgs
}

} // verus!
