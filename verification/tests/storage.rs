use cratetorrent::error::Error;
use cratetorrent::metainfo::{File, Info, Metainfo};
use cratetorrent::storage_info::{FileInfo, FileSlice, FsStructure, StorageInfo};

fn storage_info(
    piece_count: usize,
    piece_len: u32,
    last_piece_len: u32,
    download_len: u64,
    structure: FsStructure,
) -> StorageInfo {
    StorageInfo {
        piece_count,
        piece_len,
        last_piece_len,
        download_len,
        download_dir: String::from("/"),
        structure,
    }
}

#[test]
fn test_file_get_slice() {
    let file = FileInfo {
        // file doesn't need to exist as we're not doing any IO in this test
        path: String::from("/tmp/does/not/exist"),
        len: 500,
        torrent_offset: 200,
    };

    assert_eq!(
        file.get_slice(300, 1000),
        FileSlice { offset: 300 - 200, len: 500 - (300 - 200) },
        "file slice for byte range longer than file should return \
        at most file length long slice"
    );

    assert_eq!(
        file.get_slice(300, 10),
        FileSlice { offset: 300 - 200, len: 10 },
        "file slice for byte range smaller than file should return \
        at most byte range long slice"
    );

    assert_eq!(
        file.get_slice(200, 500),
        FileSlice { offset: 0, len: 500 },
        "file slice for byte range equal to file length should return \
        the full file slice"
    );
}

#[test]
fn test_files_intersecting_pieces() {
    // single file
    let piece_count = 4;
    let piece_len = 4;
    let last_piece_len = 2;
    // 3 full length pieces; 1 smaller piece,
    let download_len = 3 * 4 + 2;
    let structure = FsStructure::File(FileInfo {
        path: String::from("/bogus"),
        torrent_offset: 0,
        len: download_len,
    });
    let info = storage_info(piece_count, piece_len, last_piece_len, download_len, structure);
    // all 4 pieces are in the same file
    assert_eq!(info.files_intersecting_piece(0).unwrap(), 0..1);
    assert_eq!(info.files_intersecting_piece(1).unwrap(), 0..1);
    assert_eq!(info.files_intersecting_piece(2).unwrap(), 0..1);
    assert_eq!(info.files_intersecting_piece(3).unwrap(), 0..1);

    // multi-file
    //
    // pieces: (index:first byte offset)
    // --------------------------------------------------------------------
    // |0:0         |1:16          |2:32          |3:48          |4:64    |
    // --------------------------------------------------------------------
    // files: (index:first byte offset,last byte offset)
    // --------------------------------------------------------------------
    // |0:0,8 |1:9,19  |2:20,26|3:27,35 |4:36,47  |5:48,63       |6:64,71 |
    // --------------------------------------------------------------------
    let files = vec![
        FileInfo { path: String::from("/0"), torrent_offset: 0, len: 9 },
        FileInfo { path: String::from("/1"), torrent_offset: 9, len: 11 },
        FileInfo { path: String::from("/2"), torrent_offset: 20, len: 7 },
        FileInfo { path: String::from("/3"), torrent_offset: 27, len: 9 },
        FileInfo { path: String::from("/4"), torrent_offset: 36, len: 12 },
        FileInfo { path: String::from("/5"), torrent_offset: 48, len: 16 },
        FileInfo { path: String::from("/6"), torrent_offset: 64, len: 8 },
    ];
    let download_len: u64 = files.iter().map(|f| f.len).sum();
    // sanity check that the offsets in the files above correctly follow
    // each other and that they add up to the total download length
    assert_eq!(
        files.iter().fold(0, |offset, file| {
            assert_eq!(offset, file.torrent_offset);
            offset + file.len
        }),
        download_len,
    );
    let piece_count: usize = 5;
    let piece_len: u32 = 16;
    let last_piece_len: u32 = 8;
    // sanity check that full piece lengths and last piece length equals the
    // total download length
    assert_eq!(
        (piece_count as u64 - 1) * piece_len as u64 + last_piece_len as u64,
        download_len
    );
    let info = storage_info(
        piece_count,
        piece_len,
        last_piece_len,
        download_len,
        FsStructure::Archive { files },
    );
    // piece 0 intersects with files 0 and 1
    assert_eq!(info.files_intersecting_piece(0).unwrap(), 0..2);
    // piece 1 intersects with files 1, 2, 3
    assert_eq!(info.files_intersecting_piece(1).unwrap(), 1..4);
    // piece 2 intersects with files 3 and 4
    assert_eq!(info.files_intersecting_piece(2).unwrap(), 3..5);
    // piece 3 intersects with only file 5
    assert_eq!(info.files_intersecting_piece(3).unwrap(), 5..6);
    // last piece 4 intersects with only file 6
    assert_eq!(info.files_intersecting_piece(4).unwrap(), 6..7);
    // piece 5 is invalid
    assert!(info.files_intersecting_piece(5).is_err());
}

#[test]
fn test_files_intersecting_bytes() {
    // single file
    let structure = FsStructure::File(FileInfo {
        path: String::from("/bogus"),
        torrent_offset: 0,
        len: 12341234,
    });
    assert_eq!(structure.files_intersecting_bytes(0..0), 0..1);
    assert_eq!(structure.files_intersecting_bytes(0..1), 0..1);
    assert_eq!(structure.files_intersecting_bytes(0..12341234), 0..1);

    // multi-file
    let structure = FsStructure::Archive {
        files: vec![
            FileInfo { path: String::from("/bogus0"), torrent_offset: 0, len: 4 },
            FileInfo { path: String::from("/bogus1"), torrent_offset: 4, len: 9 },
            FileInfo { path: String::from("/bogus2"), torrent_offset: 13, len: 3 },
            FileInfo { path: String::from("/bogus3"), torrent_offset: 16, len: 10 },
        ],
    };
    // bytes only in the first file
    assert_eq!(structure.files_intersecting_bytes(0..4), 0..1);
    // bytes intersecting two files
    assert_eq!(structure.files_intersecting_bytes(0..5), 0..2);
    // bytes overlapping with two files
    assert_eq!(structure.files_intersecting_bytes(0..13), 0..2);
    // bytes intersecting three files
    assert_eq!(structure.files_intersecting_bytes(0..15), 0..3);
    // bytes intersecting all files
    assert_eq!(structure.files_intersecting_bytes(0..18), 0..4);
    // bytes intersecting the last byte of the last file
    assert_eq!(structure.files_intersecting_bytes(25..26), 3..4);
    // bytes overlapping with two files in the middle
    assert_eq!(structure.files_intersecting_bytes(4..16), 1..3);
    // bytes intersecting only one byte of two files each, among the middle
    // of all files
    assert_eq!(structure.files_intersecting_bytes(8..14), 1..3);
    // bytes intersecting only one byte of one file, among the middle of all
    // files
    assert_eq!(structure.files_intersecting_bytes(13..14), 2..3);
    // bytes not intersecting any files
    assert_eq!(structure.files_intersecting_bytes(30..38), 0..0);
}

#[test]
fn test_piece_lens_sum_to_download_len() {
    // every piece has the nominal length except the last; together they
    // cover the download
    let info = storage_info(
        4,
        4,
        2,
        14,
        FsStructure::File(FileInfo { path: String::from("/bogus"), torrent_offset: 0, len: 14 }),
    );
    let mut sum: u64 = 0;
    for i in 0..4 {
        let len = info.piece_len(i).unwrap();
        if i == 3 {
            assert_eq!(len, 2);
        } else {
            assert_eq!(len, 4);
        }
        sum += len as u64;
    }
    assert_eq!(sum, info.download_len);
}

#[test]
fn test_metainfo_lens() {
    let single = Metainfo {
        info: Info {
            name: String::from("shard"),
            pieces: vec![0; 40],
            piece_len: 8,
            len: Some(14),
            files: None,
            private: None,
        },
    };
    assert_eq!(single.piece_count(), 2);
    assert_eq!(single.download_len().unwrap(), 14);

    let multi = Metainfo {
        info: Info {
            name: String::from("shard"),
            pieces: vec![0; 20],
            piece_len: 16,
            len: None,
            files: Some(vec![
                File { path: vec![String::from("a")], len: 9 },
                File { path: vec![String::from("sub"), String::from("b")], len: 7 },
            ]),
            private: None,
        },
    };
    assert_eq!(multi.piece_count(), 1);
    assert_eq!(multi.download_len().unwrap(), 16);

    let broken = Metainfo {
        info: Info {
            name: String::from("shard"),
            pieces: vec![0; 20],
            piece_len: 16,
            len: None,
            files: None,
            private: None,
        },
    };
    assert_eq!(broken.download_len(), Err(Error::InvalidMetainfo));
}

#[test]
fn test_storage_info_from_metainfo() {
    let multi = Metainfo {
        info: Info {
            name: String::from("shard"),
            pieces: vec![0; 40],
            piece_len: 9,
            len: None,
            files: Some(vec![
                File { path: vec![String::from("a")], len: 9 },
                File { path: vec![String::from("sub"), String::from("b")], len: 7 },
            ]),
            private: None,
        },
    };
    let info = StorageInfo::new(&multi, String::from("/downloads"));
    assert_eq!(info.piece_count, 2);
    assert_eq!(info.piece_len, 9);
    assert_eq!(info.last_piece_len, 7);
    assert_eq!(info.download_len, 16);
    // archives download into their own directory
    assert_eq!(info.download_dir, "/downloads/shard");
    match &info.structure {
        FsStructure::Archive { files } => {
            assert_eq!(files.len(), 2);
            assert_eq!(files[0].path, "a");
            assert_eq!(files[0].torrent_offset, 0);
            assert_eq!(files[0].len, 9);
            // nested paths are joined with slashes
            assert_eq!(files[1].path, "sub/b");
            assert_eq!(files[1].torrent_offset, 9);
            assert_eq!(files[1].len, 7);
        },
        FsStructure::File(_) => panic!("expected an archive"),
    }

    let single = Metainfo {
        info: Info {
            name: String::from("one"),
            pieces: vec![0; 20],
            piece_len: 16,
            len: Some(14),
            files: None,
            private: None,
        },
    };
    let info = StorageInfo::new(&single, String::from("/downloads"));
    assert_eq!(info.download_dir, "/downloads");
    assert!(!info.structure.is_archive());
    match &info.structure {
        FsStructure::File(file) => {
            assert_eq!(file.path, "one");
            assert_eq!(file.len, 14);
        },
        FsStructure::Archive { .. } => panic!("expected a single file"),
    }
}
