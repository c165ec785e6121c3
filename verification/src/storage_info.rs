//! How the torrent's logical byte stream maps onto concrete files and
//! pieces: pure layout computation, no I/O.

use vstd::prelude::*;
use vstd::arithmetic::mul::lemma_mul_inequality;
use vstd::string::StringExecFns;

use core::ops::Range;

use crate::error::Error;
use crate::metainfo::{File, Metainfo, sum_meta_file_lens};
use crate::{FileIndex, PieceIndex};

verus! {

/// Information about a torrent's file.
#[derive(Clone, Debug)]
pub struct FileInfo {
    /// The file's relative path from the download directory.
    pub path: String,
    /// The file's length, in bytes.
    pub len: u64,
    /// The byte offset of the file within the torrent, when all files in
    /// torrent are viewed as a single contiguous byte array. This is always
    /// 0 for a single file torrent.
    pub torrent_offset: u64,
}

impl FileInfo {
    /// The file's byte range does not wrap around the integer type.
    pub open spec fn wf(self) -> bool {
        self.torrent_offset + self.len <= u64::MAX
    }

    /// One past the offset of the file's last byte in the torrent.
    pub open spec fn spec_end(self) -> int {
        self.torrent_offset + self.len
    }

    /// Whether the torrent-wide byte offset falls inside the file.
    pub open spec fn spec_contains(self, torrent_offset: int) -> bool {
        self.torrent_offset <= torrent_offset < self.spec_end()
    }

    /// Returns a range of the file's first and one past its last bytes'
    /// offsets in the torrent.
    pub fn byte_range(&self) -> (r: Range<u64>)
        requires
            self.wf(),
        ensures
            r.start == self.torrent_offset,
            r.end == self.spec_end(),
    {
        Range { start: self.torrent_offset, end: self.torrent_offset + self.len }
    }

    /// Returns the file's one past the last byte's offset in the torrent.
    pub fn torrent_end_offset(&self) -> (end: u64)
        requires
            self.wf(),
        ensures
            end == self.spec_end(),
    {
        self.torrent_offset + self.len
    }

    /// Returns the slice in file that overlaps with the range starting at the
    /// given offset: at most the rest of the file, at most `len` bytes.
    ///
    /// The offset must name a byte of this file; a caller that cannot
    /// guarantee as much must test first.
    pub fn get_slice(&self, torrent_offset: u64, len: u64) -> (slice: FileSlice)
        requires
            self.wf(),
            self.spec_contains(torrent_offset as int),
        ensures
            slice.offset == torrent_offset - self.torrent_offset,
            slice.len == vstd::math::min(len as int, self.spec_end() - torrent_offset),
    {
        let torrent_end_offset = self.torrent_offset + self.len;
        let available = torrent_end_offset - torrent_offset;
        FileSlice {
            offset: torrent_offset - self.torrent_offset,
            len: if len < available { len } else { available },
        }
    }
}

/// The location of a range of bytes within a file.
#[derive(Clone, Copy, Debug, PartialEq, Eq, Structural)]
pub struct FileSlice {
    /// The byte offset in file, relative to the file's start.
    pub offset: u64,
    /// The length of the slice, in bytes.
    pub len: u64,
}

/// The file system structure of the download.
#[derive(Clone, Debug)]
pub enum FsStructure {
    /// A single file download.
    File(FileInfo),
    /// A download of multiple files, possibly in nested directories.
    Archive {
        /// All files in the archive, flattened, in torrent order.
        files: Vec<FileInfo>,
    },
}

/// The sum of the lengths of the listed files.
pub open spec fn sum_file_lens(files: Seq<FileInfo>) -> int
    decreases files.len(),
{
    if files.len() == 0 {
        0
    } else {
        sum_file_lens(files.drop_last()) + files.last().len
    }
}

/// What `files_intersecting_bytes` returns on an archive's file list for the
/// byte range `[b0, b1)`: the left-inclusive range of indices of the files
/// that the byte range overlaps, starting with the file that holds byte
/// `b0`, or the empty range `0..0` when no file holds that byte.
pub open spec fn range_is_files_intersecting(
    files: Seq<FileInfo>,
    b0: int,
    b1: int,
    r: Range<FileIndex>,
) -> bool {
    if exists|i: int| 0 <= i < files.len() && files[i].spec_contains(b0) {
        &&& r.start < r.end <= files.len()
        &&& files[r.start as int].spec_contains(b0)
        &&& (forall|j: int| r.start < j < r.end ==> b0 <= #[trigger] files[j].torrent_offset < b1)
        &&& (r.end < files.len() ==> !(b0 <= files[r.end as int].torrent_offset < b1))
    } else {
        r.start == 0 && r.end == 0
    }
}

impl FsStructure {
    /// The files are contiguous: the first starts at offset zero and each
    /// next one starts where the previous ends, so together they cover
    /// `[0, download_len)` without gaps or overlap.
    pub open spec fn wf(self) -> bool {
        match self {
            FsStructure::File(file) => file.wf() && file.torrent_offset == 0,
            FsStructure::Archive { files } => {
                &&& files@.len() > 0
                &&& files@[0].torrent_offset == 0
                &&& (forall|i: int| 0 <= i < files@.len() ==> (#[trigger] files@[i]).wf())
                &&& (forall|i: int| 0 <= i < files@.len() ==> (#[trigger] files@[i]).len > 0)
                &&& (forall|i: int|
                    0 < i < files@.len() ==> (#[trigger] files@[i]).torrent_offset
                        == files@[i - 1].spec_end())
            },
        }
    }

    /// The download's total length: the sum of the files' lengths.
    pub open spec fn spec_download_len(self) -> int {
        match self {
            FsStructure::File(file) => file.len as int,
            FsStructure::Archive { files } => sum_file_lens(files@),
        }
    }

    /// The archive's file list, or the single file alone.
    pub open spec fn spec_files(self) -> Seq<FileInfo> {
        match self {
            FsStructure::File(file) => seq![file],
            FsStructure::Archive { files } => files@,
        }
    }

    /// What `files_intersecting_bytes` returns for `[b0, b1)`.
    pub open spec fn spec_files_intersecting(self, b0: int, b1: int, r: Range<FileIndex>) -> bool {
        match self {
            FsStructure::File(_) => r.start == 0 && r.end == 1,
            FsStructure::Archive { files } => range_is_files_intersecting(files@, b0, b1, r),
        }
    }

    /// Returns true if the download is for an archive.
    pub fn is_archive(&self) -> (r: bool)
        ensures
            r == (self is Archive),
    {
        match self {
            FsStructure::Archive { .. } => true,
            FsStructure::File(_) => false,
        }
    }

    /// Returns the total download size in bytes.
    pub fn download_len(&self) -> (len: u64)
        requires
            self.spec_download_len() <= u64::MAX,
        ensures
            len == self.spec_download_len(),
    {
        match self {
            FsStructure::File(file) => file.len,
            FsStructure::Archive { files } => {
                let ghost all = files@;
                let mut len: u64 = 0;
                let mut i: usize = 0;
                while i < files.len()
                    invariant
                        0 <= i <= all.len(),
                        files@ == all,
                        len == sum_file_lens(all.take(i as int)),
                        sum_file_lens(all) <= u64::MAX,
                    decreases all.len() - i,
                {
                    proof {
                        lemma_sum_file_prefix(all, i + 1);
                        assert(all.take(i + 1).drop_last() == all.take(i as int));
                    }
                    len = len + files[i].len;
                    i = i + 1;
                }
                proof {
                    assert(all.take(all.len() as int) == all);
                }
                len
            },
        }
    }

    /// Returns the range of indices of the files that overlap with the given
    /// left-inclusive range of bytes: the file holding `byte_range.start`
    /// first, then every following file that starts inside the byte range.
    /// When no file holds the first byte, the range is empty.
    pub fn files_intersecting_bytes(&self, byte_range: Range<u64>) -> (r: Range<FileIndex>)
        ensures
            self.spec_files_intersecting(byte_range.start as int, byte_range.end as int, r),
    {
        match self {
            FsStructure::File(_) => Range { start: 0, end: 1 },
            FsStructure::Archive { files } => {
                let ghost all = files@;
                let ghost b0 = byte_range.start as int;
                let ghost b1 = byte_range.end as int;

                // find the file that holds the first byte of the range
                let mut first: usize = 0;
                let mut found = false;
                let mut i: usize = 0;
                while i < files.len() && !found
                    invariant
                        files@ == all,
                        b0 == byte_range.start as int,
                        0 <= i <= all.len(),
                        !found ==> (forall|k: int|
                            0 <= k < i ==> !(#[trigger] all[k]).spec_contains(b0)),
                        found ==> i < all.len() && first == i && all[first as int].spec_contains(
                            b0,
                        ),
                    decreases all.len() - i + (if found { 0int } else { 1int }),
                {
                    if files[i].torrent_offset <= byte_range.start && byte_range.start
                        - files[i].torrent_offset < files[i].len {
                        first = i;
                        found = true;
                    } else {
                        i = i + 1;
                    }
                }
                if !found {
                    proof {
                        assert(forall|k: int|
                            0 <= k < all.len() ==> !(#[trigger] all[k]).spec_contains(b0));
                    }
                    return Range { start: 0, end: 0 };
                }

                // extend past every following file that starts inside the range
                let mut end: usize = first + 1;
                let mut j: usize = first + 1;
                let mut stopped = false;
                while j < files.len() && !stopped
                    invariant
                        files@ == all,
                        b0 == byte_range.start as int,
                        b1 == byte_range.end as int,
                        all[first as int].spec_contains(b0),
                        first < end <= j <= all.len(),
                        end == j || stopped,
                        forall|k: int| first < k < end ==> b0 <= #[trigger] all[k].torrent_offset
                            < b1,
                        stopped ==> end < all.len() && !(b0 <= all[end as int].torrent_offset
                            < b1),
                        !stopped ==> end == j,
                    decreases all.len() - j + (if stopped { 0int } else { 1int }),
                {
                    if byte_range.start <= files[j].torrent_offset && files[j].torrent_offset
                        < byte_range.end {
                        end = j + 1;
                        j = j + 1;
                    } else {
                        stopped = true;
                    }
                }
                Range { start: first, end }
            },
        }
    }
}

/// The components of a relative path joined with `/` separators.
pub open spec fn spec_join_path(components: Seq<Seq<char>>) -> Seq<char>
    decreases components.len(),
{
    if components.len() == 0 {
        Seq::empty()
    } else if components.len() == 1 {
        components[0]
    } else {
        spec_join_path(components.drop_last()) + "/"@ + components.last()
    }
}

/// Joins path components with `/` separators.
fn join_path(components: &Vec<String>) -> (r: String)
    ensures
        r@ == spec_join_path(components@.map_values(|s: String| s@)),
{
    let ghost all = components@.map_values(|s: String| s@);
    let mut r = String::new();
    let mut j: usize = 0;
    while j < components.len()
        invariant
            0 <= j <= components@.len(),
            all == components@.map_values(|s: String| s@),
            r@ == spec_join_path(all.take(j as int)),
        decreases components@.len() - j,
    {
        if j > 0 {
            r.append("/");
        }
        r.append(components[j].as_str());
        proof {
            let prefix = all.take(j as int);
            let next = all.take(j + 1);
            assert(next.drop_last() == prefix);
            assert(next.last() == all[j as int]);
        }
        j = j + 1;
    }
    proof {
        assert(all.take(all.len() as int) == all);
    }
    r
}

/// Information about a torrent's storage: the piece count and lengths, the
/// download length and directory, and the file system structure.
#[derive(Clone, Debug)]
pub struct StorageInfo {
    /// The number of pieces in the torrent.
    pub piece_count: usize,
    /// The nominal length of a piece.
    pub piece_len: u32,
    /// The length of the last piece in torrent, which differs from the rest
    /// when the download size is not an exact multiple of the piece length.
    pub last_piece_len: u32,
    /// The sum of the lengths of all files in the torrent.
    pub download_len: u64,
    /// The download destination directory of the torrent. For archives this
    /// is the configured directory joined by the torrent's name, so that the
    /// archive's entries stay under a single directory.
    pub download_dir: String,
    /// The paths and lengths of the torrent files.
    pub structure: FsStructure,
}

impl StorageInfo {
    /// The piece lengths and the file structure agree with the download
    /// length.
    pub open spec fn wf(self) -> bool {
        &&& self.piece_count >= 1
        &&& 0 < self.last_piece_len <= self.piece_len
        &&& self.download_len == (self.piece_count - 1) * self.piece_len + self.last_piece_len
        &&& self.structure.wf()
        &&& self.structure.spec_download_len() == self.download_len
    }

    /// The length of the piece at the given index: the nominal length for
    /// all pieces but the last.
    pub open spec fn spec_piece_len(self, index: int) -> int {
        if index == self.piece_count - 1 {
            self.last_piece_len as int
        } else {
            self.piece_len as int
        }
    }

    /// The torrent-wide byte offset of the piece's first byte.
    pub open spec fn spec_piece_offset(self, index: int) -> int {
        index * self.piece_len
    }

    /// Returns the length of the piece at the given index, or an error if
    /// the index is outside the torrent.
    pub fn piece_len(&self, index: PieceIndex) -> (r: Result<u32, Error>)
        requires
            self.piece_count >= 1,
        ensures
            index < self.piece_count ==> r == Ok::<u32, Error>(
                self.spec_piece_len(index as int) as u32,
            ),
            index >= self.piece_count ==> r == Err::<u32, Error>(Error::InvalidPieceIndex),
    {
        if index == self.piece_count - 1 {
            Ok(self.last_piece_len)
        } else if index < self.piece_count - 1 {
            Ok(self.piece_len)
        } else {
            Err(Error::InvalidPieceIndex)
        }
    }

    /// Returns the zero-based indices of the files of torrent that intersect
    /// with the piece, or an error if the index is outside the torrent.
    pub fn files_intersecting_piece(&self, index: PieceIndex) -> (r: Result<
        Range<FileIndex>,
        Error,
    >)
        requires
            self.wf(),
        ensures
            index >= self.piece_count ==> r == Err::<Range<FileIndex>, Error>(
                Error::InvalidPieceIndex,
            ),
            index < self.piece_count ==> (r matches Ok(files)
                && self.structure.spec_files_intersecting(
                self.spec_piece_offset(index as int),
                self.spec_piece_offset(index as int) + self.spec_piece_len(index as int),
                files,
            )),
    {
        let piece_len = match self.piece_len(index) {
            Ok(len) => len,
            Err(e) => {
                return Err(e);
            },
        };
        proof {
            self.lemma_piece_in_download(index as int);
        }
        let piece_offset = (index as u64) * (self.piece_len as u64);
        let piece_end = piece_offset + piece_len as u64;
        Ok(
            self.structure.files_intersecting_bytes(
                Range { start: piece_offset, end: piece_end },
            ),
        )
    }

    /// Whether a decoded metainfo document is internally consistent, so that
    /// a storage layout can be computed from it: at least one piece, a
    /// single length or a file list, file lengths that sum without
    /// overflowing, and a download length that leaves the last piece
    /// non-empty and no longer than the nominal piece length.
    pub open spec fn metainfo_consistent(metainfo: Metainfo) -> bool {
        &&& metainfo.spec_piece_count() >= 1
        &&& metainfo.info.len is Some || metainfo.info.files is Some
        &&& (metainfo.info.len is None ==> metainfo.info.files->0@.len() > 0
            && sum_meta_file_lens(metainfo.info.files->0@) <= u64::MAX && (forall|i: int|
            0 <= i < metainfo.info.files->0@.len()
                ==> (#[trigger] metainfo.info.files->0@[i]).len > 0))
        &&& 0 < metainfo.spec_download_len() - (metainfo.spec_piece_count() - 1)
            * metainfo.info.piece_len <= metainfo.info.piece_len
    }

    /// Extracts storage related information from the torrent metainfo: the
    /// piece geometry, the total length, the file layout with each file's
    /// offset in the torrent, and the directory the download goes to.
    pub fn new(metainfo: &Metainfo, download_dir: String) -> (r: StorageInfo)
        requires
            Self::metainfo_consistent(*metainfo),
        ensures
            r.wf(),
            r.piece_count == metainfo.spec_piece_count(),
            r.piece_len == metainfo.info.piece_len,
            r.download_len == metainfo.spec_download_len(),
            r.last_piece_len == metainfo.spec_download_len() - (metainfo.spec_piece_count() - 1)
                * metainfo.info.piece_len,
            (r.structure is Archive) == (metainfo.info.len is None),
            metainfo.info.len is Some ==> (r.structure matches FsStructure::File(file)
                && file.len == metainfo.info.len->0 && file.path@ == metainfo.info.name@),
            metainfo.info.len is None ==> (r.structure matches FsStructure::Archive { files }
                && files@.len() == metainfo.info.files->0@.len() && (forall|i: int|
                0 <= i < files@.len() ==> {
                    let meta = metainfo.info.files->0@;
                    &&& (#[trigger] files@[i]).len == meta[i].len
                    &&& files@[i].torrent_offset == sum_meta_file_lens(meta.take(i))
                    &&& files@[i].path@ == spec_join_path(
                        meta[i].path@.map_values(|s: String| s@),
                    )
                })),
            metainfo.info.len is None ==> r.download_dir@ == download_dir@ + "/"@
                + metainfo.info.name@,
            metainfo.info.len is Some ==> r.download_dir@ == download_dir@,
    {
        let piece_count = metainfo.piece_count();
        let piece_len = metainfo.info.piece_len;

        let (download_len, structure, download_dir) = if let Some(len) = metainfo.info.len {
            let file = FileInfo {
                path: metainfo.info.name.clone(),
                len,
                torrent_offset: 0,
            };
            (len, FsStructure::File(file), download_dir)
        } else {
            let meta_files = match &metainfo.info.files {
                Some(meta_files) => meta_files,
                None => {
                    // unreachable: consistency requires a length or a file list
                    proof {
                        assert(false);
                    }
                    vstd::pervasive::unreached()
                },
            };
            let ghost meta = meta_files@;
            let mut files: Vec<FileInfo> = Vec::new();
            let mut offset: u64 = 0;
            let mut i: usize = 0;
            while i < meta_files.len()
                invariant
                    meta_files@ == meta,
                    sum_meta_file_lens(meta) <= u64::MAX,
                    0 <= i <= meta.len(),
                    files@.len() == i,
                    offset == sum_meta_file_lens(meta.take(i as int)),
                    forall|j: int| 0 <= j < i ==> {
                        &&& (#[trigger] files@[j]).len == meta[j].len
                        &&& files@[j].torrent_offset == sum_meta_file_lens(meta.take(j))
                        &&& files@[j].path@ == spec_join_path(
                            meta[j].path@.map_values(|s: String| s@),
                        )
                    },
                decreases meta.len() - i,
            {
                proof {
                    crate::metainfo::lemma_sum_meta_prefix(meta, i + 1);
                    assert(meta.take(i + 1).drop_last() == meta.take(i as int));
                }
                let path = join_path(&meta_files[i].path);
                files.push(FileInfo { path, len: meta_files[i].len, torrent_offset: offset });
                offset = offset + meta_files[i].len;
                i = i + 1;
            }
            proof {
                assert(meta.take(meta.len() as int) == meta);
                lemma_sum_lens_match(files@, meta);
                assert forall|j: int| 0 <= j < meta.len() implies (#[trigger] files@[j]).wf() by {
                    crate::metainfo::lemma_sum_meta_prefix(meta, j + 1);
                    assert(meta.take(j + 1).drop_last() == meta.take(j));
                }
                assert forall|j: int|
                    0 < j < meta.len() implies (#[trigger] files@[j]).torrent_offset == files@[j
                    - 1].spec_end() by {
                    assert(meta.take(j).drop_last() == meta.take(j - 1));
                    assert(meta.take(j).last() == meta[j - 1]);
                }
            }
            let download_len = offset;
            let dir = download_dir.concat("/").concat(metainfo.info.name.as_str());
            (download_len, FsStructure::Archive { files }, dir)
        };

        proof {
            let c = metainfo.spec_piece_count();
            let p = piece_len as int;
            vstd::arithmetic::mul::lemma_mul_nonnegative(c - 1, p);
            assert(download_len == metainfo.spec_download_len());
            assert((c - 1) * p < download_len);
            assert(p * (c - 1) == (c - 1) * p) by (nonlinear_arith);
        }
        let last_piece_len_u64 = download_len - piece_len as u64 * (piece_count as u64 - 1);
        let last_piece_len = last_piece_len_u64 as u32;

        StorageInfo {
            piece_count,
            piece_len,
            last_piece_len,
            download_len,
            download_dir,
            structure,
        }
    }

    /// Every piece's byte range lies inside `[0, download_len)`.
    pub proof fn lemma_piece_in_download(self, index: int)
        requires
            self.wf(),
            0 <= index < self.piece_count,
        ensures
            self.spec_piece_offset(index) + self.spec_piece_len(index) <= self.download_len,
            self.spec_piece_offset(index) >= 0,
    {
        let p = self.piece_len as int;
        let c = self.piece_count as int;
        vstd::arithmetic::mul::lemma_mul_nonnegative(index, p);
        if index == c - 1 {
            lemma_mul_inequality(index, c - 1, p);
        } else {
            assert((index + 1) * p == index * p + p) by (nonlinear_arith);
            lemma_mul_inequality(index + 1, c - 1, p);
        }
    }
}

/// The sum of the lengths of the first `n` pieces.
pub open spec fn sum_piece_lens(info: StorageInfo, n: int) -> int
    decreases n,
{
    if n <= 0 {
        0
    } else {
        sum_piece_lens(info, n - 1) + info.spec_piece_len(n - 1)
    }
}

/// The first `n` pieces of a torrent, none of them the last, together hold
/// `n` times the nominal piece length.
proof fn lemma_sum_full_pieces(info: StorageInfo, n: int)
    requires
        info.wf(),
        0 <= n <= info.piece_count - 1,
    ensures
        sum_piece_lens(info, n) == n * info.piece_len,
    decreases n,
{
    let p = info.piece_len as int;
    if n <= 0 {
        assert(0 * p == 0) by (nonlinear_arith);
    } else {
        lemma_sum_full_pieces(info, n - 1);
        assert(n * p == (n - 1) * p + p) by (nonlinear_arith);
    }
}

/// The pieces' lengths sum to the download length: every piece has the
/// nominal length except the last, whose length makes up the difference.
pub proof fn lemma_piece_lens_sum_to_download_len(info: StorageInfo)
    requires
        info.wf(),
    ensures
        sum_piece_lens(info, info.piece_count as int) == info.download_len,
{
    lemma_sum_full_pieces(info, info.piece_count - 1);
}

/// Each file's one past the last byte offset equals the sum of the lengths
/// of the files up to and including it, for a contiguous file list.
proof fn lemma_archive_ends(files: Seq<FileInfo>, k: int)
    requires
        files.len() > 0,
        files[0].torrent_offset == 0,
        forall|i: int|
            0 < i < files.len() ==> (#[trigger] files[i]).torrent_offset == files[i - 1].spec_end(),
        0 <= k < files.len(),
    ensures
        files[k].spec_end() == sum_file_lens(files.take(k + 1)),
        files[k].torrent_offset == sum_file_lens(files.take(k)),
    decreases k,
{
    assert(files.take(k + 1).drop_last() == files.take(k));
    assert(files.take(k + 1).last() == files[k]);
    if k > 0 {
        lemma_archive_ends(files, k - 1);
        assert(files[k].torrent_offset == files[k - 1].spec_end());
    } else {
        assert(sum_file_lens(files.take(0)) == 0);
    }
}

/// In a contiguous file list every byte offset below the total length falls
/// inside some file.
proof fn lemma_archive_contains(files: Seq<FileInfo>, off: int)
    requires
        files.len() > 0,
        files[0].torrent_offset == 0,
        forall|i: int|
            0 < i < files.len() ==> (#[trigger] files[i]).torrent_offset == files[i - 1].spec_end(),
        0 <= off < sum_file_lens(files),
    ensures
        exists|i: int| 0 <= i < files.len() && (#[trigger] files[i]).spec_contains(off),
    decreases files.len(),
{
    let k = files.len() - 1;
    lemma_archive_ends(files, k);
    assert(files.take(k + 1) == files);
    if files[k].spec_contains(off) {
    } else {
        assert(off < files[k].torrent_offset);
        let rest = files.drop_last();
        assert(rest == files.take(k));
        assert(rest[0] == files[0]);
        assert forall|i: int|
            0 < i < rest.len() implies (#[trigger] rest[i]).torrent_offset == rest[
            i - 1].spec_end() by {
            assert(rest[i] == files[i]);
            assert(rest[i - 1] == files[i - 1]);
            assert(files[i].torrent_offset == files[i - 1].spec_end());
        }
        assert(off < sum_file_lens(rest));
        lemma_archive_contains(rest, off);
        let i = choose|i: int|
            0 <= i < rest.len() && (#[trigger] rest[i]).spec_contains(off);
        assert(files[i].spec_contains(off));
    }
}

/// The files that a piece intersects are a non-empty range, and their byte
/// ranges together cover the piece's byte range.
pub proof fn lemma_files_intersecting_piece_covers(
    info: StorageInfo,
    index: int,
    r: Range<FileIndex>,
)
    requires
        info.wf(),
        0 <= index < info.piece_count,
        info.structure.spec_files_intersecting(
            info.spec_piece_offset(index),
            info.spec_piece_offset(index) + info.spec_piece_len(index),
            r,
        ),
    ensures
        r.start < r.end <= info.structure.spec_files().len(),
        info.structure.spec_files()[r.start as int].torrent_offset <= info.spec_piece_offset(
            index,
        ),
        info.spec_piece_offset(index) + info.spec_piece_len(index) <= info.structure.spec_files()[r.end - 1].spec_end(),
    decreases 0int,
{
    let b0 = info.spec_piece_offset(index);
    let b1 = b0 + info.spec_piece_len(index);
    info.lemma_piece_in_download(index);
    assert(b0 < b1);
    match info.structure {
        FsStructure::File(file) => {
        },
        FsStructure::Archive { files } => {
            let fs = files@;
            lemma_archive_contains(fs, b0);
            assert(fs[r.start as int].spec_contains(b0));
            let last = r.end - 1;
            if r.end == fs.len() {
                lemma_archive_ends(fs, last);
                assert(fs.take(last + 1) == fs);
            } else {
                // the file after the range starts at or past the piece's end
                assert(fs[r.end as int].torrent_offset == fs[last].spec_end());
                if last == r.start {
                    assert(fs[last].spec_end() > b0);
                } else {
                    assert(fs[last].torrent_offset >= b0);
                }
                assert(!(b0 <= fs[r.end as int].torrent_offset < b1));
            }
        },
    }
}

/// File lists whose entries have equal lengths have equal length sums.
proof fn lemma_sum_lens_match(files: Seq<FileInfo>, metas: Seq<File>)
    requires
        files.len() == metas.len(),
        forall|j: int| 0 <= j < files.len() ==> (#[trigger] files[j]).len == metas[j].len,
    ensures
        sum_file_lens(files) == sum_meta_file_lens(metas),
    decreases files.len(),
{
    if files.len() > 0 {
        lemma_sum_lens_match(files.drop_last(), metas.drop_last());
    }
}

/// Partial sums of file lengths never exceed the total and are non-negative.
proof fn lemma_sum_file_prefix(files: Seq<FileInfo>, n: int)
    requires
        0 <= n <= files.len(),
    ensures
        sum_file_lens(files.take(n)) <= sum_file_lens(files),
        sum_file_lens(files.take(n)) >= 0,
    decreases files.len(),
{
    if files.len() == 0 {
    } else if n == files.len() {
        assert(files.take(n) == files);
        lemma_sum_file_prefix(files.drop_last(), files.len() - 1);
        assert(files.drop_last() == files.take(files.len() - 1));
    } else {
        lemma_sum_file_prefix(files.drop_last(), n);
        assert(files.drop_last().take(n) == files.take(n));
    }
}

} // verus!
