//! The parsed metainfo document: the torrent's name, its piece hashes and
//! its file layout. Decoding the bencoded document happens outside the
//! library; this module holds the decoded values and what is computed from
//! them.

use vstd::prelude::*;

use crate::error::Error;

verus! {

/// An entry of a multi-file torrent's file list.
#[derive(Debug)]
pub struct File {
    /// The components of the file's path, relative to the torrent's own
    /// directory.
    pub path: Vec<String>,
    /// The file's length in bytes.
    pub len: u64,
}

/// The torrent metainfo's `info` dictionary.
#[derive(Debug)]
pub struct Info {
    /// The name of the torrent, which doubles as the name of its file or of
    /// its directory.
    pub name: String,
    /// The concatenation of the pieces' 20 byte SHA-1 digests.
    pub pieces: Vec<u8>,
    /// The nominal length of a piece.
    pub piece_len: u32,
    /// The download's length, present for single file torrents only.
    pub len: Option<u64>,
    /// The torrent's files, present for archive torrents only.
    pub files: Option<Vec<File>>,
    /// Whether the torrent is restricted to private trackers.
    pub private: Option<u8>,
}

/// The decoded metainfo document.
#[derive(Debug)]
pub struct Metainfo {
    pub info: Info,
}

/// The sum of the lengths of a metainfo file list.
pub open spec fn sum_meta_file_lens(files: Seq<File>) -> int
    decreases files.len(),
{
    if files.len() == 0 {
        0
    } else {
        sum_meta_file_lens(files.drop_last()) + files.last().len
    }
}

/// Partial sums of file lengths never exceed the total.
pub proof fn lemma_sum_meta_prefix(files: Seq<File>, n: int)
    requires
        0 <= n <= files.len(),
    ensures
        sum_meta_file_lens(files.take(n)) <= sum_meta_file_lens(files),
        sum_meta_file_lens(files.take(n)) >= 0,
    decreases files.len(),
{
    if files.len() == 0 {
    } else if n == files.len() {
        assert(files.take(n) == files);
        lemma_sum_meta_prefix(files.drop_last(), files.len() - 1);
        assert(files.drop_last() == files.take(files.len() - 1));
    } else {
        lemma_sum_meta_prefix(files.drop_last(), n);
        assert(files.drop_last().take(n) == files.take(n));
    }
}

impl Metainfo {
    /// The number of pieces, one 20 byte digest each in `pieces`.
    pub open spec fn spec_piece_count(self) -> int {
        self.info.pieces@.len() as int / 20
    }

    /// The download's total length: the single file's length, or the sum of
    /// the archive's file lengths.
    pub open spec fn spec_download_len(self) -> int {
        match self.info.len {
            Some(len) => len as int,
            None => match self.info.files {
                Some(files) => sum_meta_file_lens(files@),
                None => 0,
            },
        }
    }

    /// Returns the number of pieces in this torrent.
    pub fn piece_count(&self) -> (count: usize)
        ensures
            count == self.spec_piece_count(),
    {
        self.info.pieces.len() / 20
    }

    /// Returns the total download size in bytes, or an error if the metainfo
    /// names neither a single length nor a file list.
    pub fn download_len(&self) -> (r: Result<u64, Error>)
        requires
            self.info.len is None && self.info.files is Some
                ==> sum_meta_file_lens(self.info.files->0@) <= u64::MAX,
        ensures
            self.info.len is Some || self.info.files is Some
                ==> r == Ok::<u64, Error>(self.spec_download_len() as u64),
            self.info.len is None && self.info.files is None
                ==> r == Err::<u64, Error>(Error::InvalidMetainfo),
    {
        if let Some(len) = self.info.len {
            Ok(len)
        } else if let Some(files) = &self.info.files {
            let ghost all = files@;
            let mut len: u64 = 0;
            let mut i: usize = 0;
            while i < files.len()
                invariant
                    0 <= i <= all.len(),
                    files@ == all,
                    len == sum_meta_file_lens(all.take(i as int)),
                    sum_meta_file_lens(all) <= u64::MAX,
                decreases all.len() - i,
            {
                proof {
                    lemma_sum_meta_prefix(all, i + 1);
                    assert(all.take(i + 1).drop_last() == all.take(i as int));
                }
                len = len + files[i].len;
                i = i + 1;
            }
            proof {
                assert(all.take(all.len() as int) == all);
            }
            Ok(len)
        } else {
            Err(Error::InvalidMetainfo)
        }
    }
}

} // verus!
