//! The piece picker: how many known peers have each piece, and which pieces
//! have already been picked for download or received.

use vstd::prelude::*;

use crate::error::Error;
use crate::PieceIndex;

verus! {

/// What the picker knows of one piece.
#[derive(Clone, Copy, Debug, PartialEq, Eq, Structural)]
pub struct PieceAvailability {
    /// With how many known peers the piece is available.
    pub peer_count: usize,
    /// Whether the piece has been picked for download or received. A picked
    /// piece is not picked again; in this scope a claim is never released.
    pub is_picked: bool,
}

/// The shared registry from which peer sessions pick the next piece to
/// download.
pub struct PiecePicker {
    /// One entry per piece of the torrent.
    pub pieces: Vec<PieceAvailability>,
}

impl PiecePicker {
    /// Creates a picker for a torrent with the given number of pieces, all
    /// unavailable and unpicked.
    pub fn new(piece_count: usize) -> (picker: PiecePicker)
        ensures
            picker.pieces@.len() == piece_count,
            forall|i: int|
                0 <= i < piece_count ==> (#[trigger] picker.pieces@[i]) == (PieceAvailability {
                    peer_count: 0,
                    is_picked: false,
                }),
    {
        let mut pieces: Vec<PieceAvailability> = Vec::new();
        let mut i: usize = 0;
        while i < piece_count
            invariant
                0 <= i <= piece_count,
                pieces@.len() == i,
                forall|j: int|
                    0 <= j < i ==> (#[trigger] pieces@[j]) == (PieceAvailability {
                        peer_count: 0,
                        is_picked: false,
                    }),
            decreases piece_count - i,
        {
            pieces.push(PieceAvailability { peer_count: 0, is_picked: false });
            i = i + 1;
        }
        PiecePicker { pieces }
    }

    /// Records that a peer has the pieces the bitfield marks, and returns
    /// whether any of them is still wanted (not yet picked or received).
    /// Fails if the bitfield's length is not the piece count, leaving the
    /// picker untouched.
    pub fn register_availability(&mut self, bitfield: &Vec<bool>) -> (r: Result<bool, Error>)
        requires
            forall|i: int|
                0 <= i < old(self).pieces@.len() ==> (#[trigger] old(
                    self,
                ).pieces@[i]).peer_count < usize::MAX,
        ensures
            bitfield@.len() != old(self).pieces@.len() ==> r == Err::<bool, Error>(
                Error::InvalidBitfield,
            ) && *final(self) == *old(self),
            bitfield@.len() == old(self).pieces@.len() ==> {
                &&& r matches Ok(interested)
                &&& interested == (exists|i: int|
                    0 <= i < bitfield@.len() && bitfield@[i] && !(#[trigger] old(
                        self,
                    ).pieces@[i]).is_picked)
                &&& final(self).pieces@.len() == old(self).pieces@.len()
                &&& (forall|i: int|
                    0 <= i < bitfield@.len() ==> (#[trigger] final(self).pieces@[i])
                        == (PieceAvailability {
                        peer_count: (old(self).pieces@[i].peer_count + (if bitfield@[i] {
                            1int
                        } else {
                            0int
                        })) as usize,
                        is_picked: old(self).pieces@[i].is_picked,
                    }))
            },
    {
        if bitfield.len() != self.pieces.len() {
            return Err(Error::InvalidBitfield);
        }
        let mut interested = false;
        let mut i: usize = 0;
        while i < self.pieces.len()
            invariant
                self.pieces@.len() == old(self).pieces@.len(),
                bitfield@.len() == old(self).pieces@.len(),
                0 <= i <= bitfield@.len(),
                forall|j: int|
                    0 <= j < old(self).pieces@.len() ==> (#[trigger] old(
                        self,
                    ).pieces@[j]).peer_count < usize::MAX,
                forall|j: int|
                    i <= j < bitfield@.len() ==> (#[trigger] self.pieces@[j]) == old(
                        self,
                    ).pieces@[j],
                forall|j: int|
                    0 <= j < i ==> (#[trigger] self.pieces@[j]) == (PieceAvailability {
                        peer_count: (old(self).pieces@[j].peer_count + (if bitfield@[j] {
                            1int
                        } else {
                            0int
                        })) as usize,
                        is_picked: old(self).pieces@[j].is_picked,
                    }),
                interested == (exists|j: int|
                    0 <= j < i && bitfield@[j] && !(#[trigger] old(self).pieces@[j]).is_picked),
            decreases bitfield@.len() - i,
        {
            if bitfield[i] {
                let entry = self.pieces[i];
                if !entry.is_picked {
                    interested = true;
                }
                self.pieces[i] = PieceAvailability {
                    peer_count: entry.peer_count + 1,
                    is_picked: entry.is_picked,
                };
            }
            i = i + 1;
        }
        Ok(interested)
    }

    /// Picks the first piece that some peer has and that has not been
    /// picked yet, marks it picked, and returns its index; or returns
    /// nothing and changes nothing when no such piece is left.
    pub fn pick_piece(&mut self) -> (r: Option<PieceIndex>)
        ensures
            final(self).pieces@.len() == old(self).pieces@.len(),
            r matches Some(i) ==> {
                &&& 0 <= i < old(self).pieces@.len()
                &&& old(self).pieces@[i as int].peer_count > 0
                &&& !old(self).pieces@[i as int].is_picked
                &&& (forall|j: int|
                    0 <= j < i ==> !((#[trigger] old(self).pieces@[j]).peer_count > 0 && !old(
                        self,
                    ).pieces@[j].is_picked))
                &&& final(self).pieces@ == old(self).pieces@.update(
                    i as int,
                    PieceAvailability {
                        peer_count: old(self).pieces@[i as int].peer_count,
                        is_picked: true,
                    },
                )
            },
            r is None ==> *final(self) == *old(self) && (forall|j: int|
                0 <= j < old(self).pieces@.len() ==> !((#[trigger] old(
                    self,
                ).pieces@[j]).peer_count > 0 && !old(self).pieces@[j].is_picked)),
    {
        let mut i: usize = 0;
        let mut found = false;
        while i < self.pieces.len() && !found
            invariant
                *self == *old(self),
                0 <= i <= self.pieces@.len(),
                forall|j: int|
                    0 <= j < i ==> !((#[trigger] self.pieces@[j]).peer_count > 0
                        && !self.pieces@[j].is_picked),
                found ==> i < self.pieces@.len() && self.pieces@[i as int].peer_count > 0
                    && !self.pieces@[i as int].is_picked,
            decreases self.pieces@.len() - i + (if found {
                0int
            } else {
                1int
            }),
        {
            let entry = self.pieces[i];
            if entry.peer_count > 0 && !entry.is_picked {
                found = true;
            } else {
                i = i + 1;
            }
        }
        if !found {
            return None;
        }
        let entry = self.pieces[i];
        self.pieces[i] = PieceAvailability { peer_count: entry.peer_count, is_picked: true };
        Some(i)
    }

    /// Marks the piece as received.
    pub fn received_piece(&mut self, index: PieceIndex)
        requires
            index < old(self).pieces@.len(),
        ensures
            final(self).pieces@ == old(self).pieces@.update(
                index as int,
                PieceAvailability {
                    peer_count: old(self).pieces@[index as int].peer_count,
                    is_picked: true,
                },
            ),
    {
        let entry = self.pieces[index];
        self.pieces[index] = PieceAvailability { peer_count: entry.peer_count, is_picked: true };
    }
}

} // verus!
