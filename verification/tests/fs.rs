use bittorrent::block::{Block, BlockData, BlockInfo};
use bittorrent::fs::{
    finish_read, next_read, piece_segments, segments_known, split_blocks, AllocationError, BlockRead, Disk, DiskError,
    Piece, ReadStep, Segment, Torrent,
};
use bittorrent::store::{FileInfo, StoreInfo};
use bittorrent::BLOCK_SIZE;
use sha1::{Digest, Sha1};

fn file(path: &str, offset: usize, length: usize) -> FileInfo {
    FileInfo { path: path.to_string(), length, offset, md5sum: None }
}

fn sha1_of(data: &[u8]) -> [u8; 20] {
    let mut h = Sha1::new();
    h.update(data);
    h.finalize().into()
}

// A torrent of 40000 bytes in one file: a piece of two blocks and a piece of
// 7232 bytes.
fn store() -> StoreInfo {
    StoreInfo {
        total_len: 40_000,
        piece_len: 2 * BLOCK_SIZE,
        last_piece_len: 40_000 - 2 * BLOCK_SIZE,
        num_pieces: 2,
        files: vec![file("a.bin", 0, 40_000)],
        output_dir: "/tmp".to_string(),
    }
}

fn block(piece_idx: usize, offset: usize, data: Vec<u8>) -> Block {
    Block { piece_idx, offset, data: BlockData::Owned(data) }
}

#[test]
fn segments_of_a_piece_across_three_files() {
    let files = vec![file("a", 0, 10), file("b", 10, 5), file("c", 15, 20)];
    let segs = piece_segments(&files, 0..3, 8, 10);
    assert_eq!(
        segs,
        vec![
            Segment { file: 0, file_offset: 8, start: 0, len: 2 },
            Segment { file: 1, file_offset: 0, start: 2, len: 5 },
            Segment { file: 2, file_offset: 0, start: 7, len: 3 },
        ]
    );
}

#[test]
fn segment_of_a_piece_inside_one_file() {
    let files = vec![file("a", 0, 100)];
    let segs = piece_segments(&files, 0..1, 32, 16);
    assert_eq!(segs, vec![Segment { file: 0, file_offset: 32, start: 0, len: 16 }]);
}

#[test]
fn piece_comes_out_when_its_last_block_is_written() {
    let first = vec![1u8; BLOCK_SIZE];
    let second = vec![2u8; BLOCK_SIZE];
    let mut whole = first.clone();
    whole.extend_from_slice(&second);
    let last = vec![3u8; 40_000 - 2 * BLOCK_SIZE];
    let mut t = Torrent::new(store(), vec![sha1_of(&whole), sha1_of(&last)]);

    assert!(t.write_block(block(0, 0, first.clone())).is_none());
    // A block received twice changes nothing.
    assert!(t.write_block(block(0, 0, vec![9u8; BLOCK_SIZE])).is_none());
    let (idx, piece) = t.write_block(block(0, BLOCK_SIZE, second)).expect("piece complete");
    assert_eq!(idx, 0);
    assert_eq!(piece.data, whole);
    assert_eq!(piece.num_blocks_received, 2);
    assert_eq!(piece.file_overlap, 0..1);
    assert!(piece.verify_hash());

    let (idx, piece) = t.write_block(block(1, 0, last.clone())).expect("one block piece");
    assert_eq!(idx, 1);
    assert_eq!(piece.length, 40_000 - 2 * BLOCK_SIZE);
    assert!(piece.verify_hash());
}

#[test]
fn piece_with_wrong_data_fails_its_hash() {
    let last = vec![3u8; 40_000 - 2 * BLOCK_SIZE];
    let mut t = Torrent::new(store(), vec![[0u8; 20], sha1_of(&last)]);
    let (_, piece) = t.write_block(block(1, 0, vec![4u8; last.len()])).expect("one block piece");
    assert!(!piece.verify_hash());
}

#[test]
fn disk_refuses_a_torrent_twice_and_unknown_hashes() {
    let id = [7u8; 20];
    let mut d = Disk::new();
    assert!(!d.contains(&id));
    assert!(d.new_torrent(id, Torrent::new(store(), vec![[0u8; 20]; 2])).is_ok());
    assert!(d.contains(&id));
    assert!(d.torrent(&id).is_some());
    match d.new_torrent(id, Torrent::new(store(), vec![[0u8; 20]; 2])) {
        Err(AllocationError::DuplicateTorrent) => {}
        other => panic!("expected a duplicate, got {:?}", other),
    }
    let other = [0xabu8; 20];
    match d.write_block(&other, block(0, 0, vec![1u8; 4])) {
        Err(DiskError::TorrentNotFound(h)) => assert_eq!(h, "ab".repeat(20)),
        r => panic!("expected not found, got {:?}", r),
    }
    assert!(d.torrent(&other).is_none());
    let r = d.write_block(&id, block(1, 0, vec![1u8; 40_000 - 2 * BLOCK_SIZE])).expect("known torrent");
    assert_eq!(r.map(|(i, _)| i), Some(1));
}

#[test]
fn blocks_are_read_from_disk_then_from_the_cache() {
    let mut t = Torrent::new(store(), vec![[0u8; 20]; 2]);
    let second = BlockInfo { piece_idx: 0, offset: BLOCK_SIZE, len: BLOCK_SIZE };
    match t.read_block(&second) {
        BlockRead::FromDisk { offset, len, files } => {
            assert_eq!(offset, 0);
            assert_eq!(len, 2 * BLOCK_SIZE);
            assert_eq!(files, 0..1);
        }
        r => panic!("expected a disk read, got {:?}", r),
    }
    let mut data = vec![1u8; BLOCK_SIZE];
    data.extend(vec![2u8; BLOCK_SIZE]);
    let b = t.piece_read(&second, data);
    assert_eq!(b.piece_idx, 0);
    assert_eq!(b.offset, BLOCK_SIZE);
    assert_eq!(b.data.as_slice(), &vec![2u8; BLOCK_SIZE][..]);

    match t.read_block(&BlockInfo { piece_idx: 0, offset: 0, len: BLOCK_SIZE }) {
        BlockRead::Cached(b) => assert_eq!(b.data.as_slice(), &vec![1u8; BLOCK_SIZE][..]),
        r => panic!("expected a cached block, got {:?}", r),
    }
    match t.read_block(&BlockInfo { piece_idx: 0, offset: 2 * BLOCK_SIZE, len: BLOCK_SIZE }) {
        BlockRead::OutOfRange => {}
        r => panic!("expected out of range, got {:?}", r),
    }
    match t.read_block(&BlockInfo { piece_idx: 1, offset: 0, len: 10 }) {
        BlockRead::FromDisk { offset, len, .. } => {
            assert_eq!(offset, 2 * BLOCK_SIZE);
            assert_eq!(len, 40_000 - 2 * BLOCK_SIZE);
        }
        r => panic!("expected a disk read, got {:?}", r),
    }
}

#[test]
fn pieces_are_cut_into_blocks() {
    let data: Vec<u8> = (0..40_000u32).map(|i| (i % 251) as u8).collect();
    let blocks = split_blocks(&data);
    assert_eq!(blocks.len(), 3);
    assert_eq!(&blocks[0][..], &data[..BLOCK_SIZE]);
    assert_eq!(&blocks[1][..], &data[BLOCK_SIZE..2 * BLOCK_SIZE]);
    assert_eq!(&blocks[2][..], &data[2 * BLOCK_SIZE..]);
    assert!(split_blocks(&[]).is_empty());
}

#[test]
fn disk_reads_name_unknown_torrents() {
    let mut d = Disk::new();
    let id = [1u8; 20];
    d.new_torrent(id, Torrent::new(store(), vec![[0u8; 20]; 2])).unwrap();
    let bi = BlockInfo { piece_idx: 1, offset: 0, len: 100 };
    match d.read_block(&[2u8; 20], &bi) {
        Err(DiskError::TorrentNotFound(h)) => assert_eq!(h, "02".repeat(20)),
        r => panic!("expected not found, got {:?}", r),
    }
    assert!(matches!(d.read_block(&id, &bi), Ok(BlockRead::FromDisk { .. })));
    let b = d.piece_read(&id, &bi, vec![5u8; 40_000 - 2 * BLOCK_SIZE]).unwrap();
    assert_eq!(b.data.as_slice(), &vec![5u8; 40_000 - 2 * BLOCK_SIZE][..]);
    assert!(matches!(d.read_block(&id, &bi), Ok(BlockRead::Cached(_))));
}

#[test]
fn segments_are_known_only_where_files_hold_the_piece() {
    let files = vec![file("a", 0, 10), file("b", 10, 5), file("c", 15, 20)];
    assert!(segments_known(&files, 0..3, 8, 10));
    assert!(!segments_known(&files, 0..4, 8, 10));
    // The piece does not start in file b.
    assert!(!segments_known(&files, 1..3, 8, 10));
    let gap = vec![file("a", 0, 10), file("b", 12, 5)];
    assert!(!segments_known(&gap, 0..2, 8, 6));
}

#[test]
fn disk_drops_torrents() {
    let mut d = Disk::new();
    let (a, b) = ([1u8; 20], [2u8; 20]);
    d.new_torrent(a, Torrent::new(store(), vec![[0u8; 20]; 2])).unwrap();
    d.new_torrent(b, Torrent::new(store(), vec![[0u8; 20]; 2])).unwrap();
    assert!(d.remove_torrent(&a));
    assert!(!d.contains(&a));
    assert!(d.contains(&b));
    assert!(!d.remove_torrent(&a));
    // A torrent dropped can be taken in again.
    assert!(d.new_torrent(a, Torrent::new(store(), vec![[0u8; 20]; 2])).is_ok());
}

#[test]
fn pieces_and_the_files_they_overlap() {
    let info = StoreInfo {
        total_len: 30,
        piece_len: 16,
        last_piece_len: 14,
        num_pieces: 2,
        files: vec![file("a", 0, 10), file("b", 10, 20)],
        output_dir: "out".to_string(),
    };
    assert_eq!(info.piece_len(0), 16);
    assert_eq!(info.piece_len(1), 14);
    assert_eq!(info.piece_total_offset(1), 16);
    assert_eq!(info.piece_file_intersections(0), 0..2);
    assert_eq!(info.piece_file_intersections(1), 1..2);
    assert_eq!(
        piece_segments(&info.files, 0..2, 0, 16),
        vec![
            Segment { file: 0, file_offset: 0, start: 0, len: 10 },
            Segment { file: 1, file_offset: 0, start: 10, len: 6 },
        ]
    );
    assert_eq!(piece_segments(&info.files, 1..2, 16, 14), vec![Segment { file: 1, file_offset: 6, start: 0, len: 14 }]);
}

#[test]
fn reads_go_to_the_end_of_the_piece_or_the_file() {
    let f = file("b", 10, 5);
    // From byte 12 of the torrent, 3 bytes remain in the file and 6 in the piece.
    assert_eq!(next_read(&f, 12, 4, 10).unwrap(), ReadStep { file_offset: 2, count: 3 });
    // Only 2 bytes of the piece remain.
    assert_eq!(next_read(&f, 10, 8, 10).unwrap(), ReadStep { file_offset: 0, count: 2 });
    // A file that begins after the byte reached.
    match next_read(&f, 7, 0, 10) {
        Err(DiskError::IoSizeError { expected, actual }) => {
            assert_eq!(expected, 10);
            assert_eq!(actual, 7);
        }
        other => panic!("expected a size error, got {:?}", other),
    }
}

#[test]
fn short_reads_are_size_errors() {
    assert_eq!(finish_read(3, 3, vec![1, 2, 3]).unwrap(), vec![1, 2, 3]);
    match finish_read(5, 3, vec![1, 2, 3, 0, 0]) {
        Err(DiskError::IoSizeError { expected, actual }) => {
            assert_eq!(expected, 5);
            assert_eq!(actual, 3);
        }
        other => panic!("expected a size error, got {:?}", other),
    }
}

#[test]
fn check_finds_the_pieces_that_match_their_hash() {
    let good0 = vec![3u8; 2 * BLOCK_SIZE];
    let good1 = vec![4u8; 40_000 - 2 * BLOCK_SIZE];
    let t = Torrent::new(store(), vec![sha1_of(&good0), sha1_of(&good1)]);
    let mut check = t.begin_check();
    assert_eq!(check.next_piece(), Some(0));
    t.check_piece(&mut check, Some(good0.clone()));
    assert_eq!(check.next_piece(), Some(1));
    t.check_piece(&mut check, Some(vec![0u8; 40_000 - 2 * BLOCK_SIZE]));
    assert_eq!(check.next_piece(), None);
    let bits = check.finish();
    assert_eq!(bits.len(), 2);
    assert!(bits.get(0));
    assert!(!bits.get(1));

    let mut check = t.begin_check();
    t.check_piece(&mut check, None);
    t.check_piece(&mut check, Some(good1));
    let bits = check.finish();
    assert!(!bits.get(0));
    assert!(bits.get(1));
}

#[test]
fn piece_counts_each_block_once() {
    let mut p = Piece {
        hash: [0; 20],
        length: BLOCK_SIZE + 4,
        data: vec![0; BLOCK_SIZE + 4],
        blocks_received: vec![false, false],
        num_blocks_received: 0,
        file_overlap: 0..1,
    };
    assert!(!p.is_complete());
    p.add_block(BLOCK_SIZE, vec![1, 2, 3, 4]);
    assert_eq!(p.num_blocks_received, 1);
    assert!(!p.is_complete());
    assert_eq!(p.blocks_received, vec![false, true]);
    assert_eq!(&p.data[BLOCK_SIZE..], &[1, 2, 3, 4]);
    // The same block again changes nothing.
    p.add_block(BLOCK_SIZE, vec![9, 9, 9, 9]);
    assert_eq!(p.num_blocks_received, 1);
    assert_eq!(&p.data[BLOCK_SIZE..], &[1, 2, 3, 4]);
    assert!(p.data[..BLOCK_SIZE].iter().all(|b| *b == 0));
    p.add_block(0, vec![7; BLOCK_SIZE]);
    assert!(p.is_complete());
}

#[test]
fn blocks_joined_give_back_the_piece() {
    let data: Vec<u8> = (0..(3 * BLOCK_SIZE + 5) as u32).map(|i| (i % 253) as u8).collect();
    let blocks = split_blocks(&data);
    assert!(blocks[..blocks.len() - 1].iter().all(|b| b.len() == BLOCK_SIZE));
    let joined: Vec<u8> = blocks.iter().flat_map(|b| b.iter().copied()).collect();
    assert_eq!(joined, data);
}

// The layout of the multi-file test torrent: pieces of 524288 bytes, a
// first file that ends inside piece 8303, a second that ends inside the last
// piece 11073, and six small files that end in that last piece.
fn multi_store() -> StoreInfo {
    let piece_len = 524_288;
    let first = 8303 * piece_len + 1_000;
    let second_end = 11073 * piece_len + 100;
    let mut files = vec![file("f0", 0, first), file("f1", first, second_end - first)];
    let mut offset = second_end;
    for k in 2..8 {
        files.push(file(&format!("f{}", k), offset, 50));
        offset += 50;
    }
    StoreInfo {
        total_len: offset as u64,
        piece_len,
        last_piece_len: offset - 11073 * piece_len,
        num_pieces: 11074,
        files,
        output_dir: "freedom".to_string(),
    }
}

#[test]
fn test_piece_file_intersections() {
    let store_info = multi_store();
    for idx in 0..=8302 {
        assert_eq!(store_info.piece_file_intersections(idx), 0..1);
    }
    assert_eq!(store_info.piece_file_intersections(8303), 0..2);
    for idx in 8304..=11072 {
        assert_eq!(store_info.piece_file_intersections(idx), 1..2);
    }
    assert_eq!(store_info.piece_file_intersections(11073), 1..8);
}

#[test]
fn test_piece_offset() {
    let store_info = multi_store();
    assert_eq!(store_info.piece_total_offset(0), 0);
    assert_eq!(store_info.piece_total_offset(1), 524288);
    assert_eq!(store_info.piece_total_offset(11073), 5_805_441_024);
}
