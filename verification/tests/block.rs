use bittorrent::block::{block_len, num_blocks, Block, BlockData, BlockInfo};
use bittorrent::BLOCK_SIZE;

#[test]
fn test_block_len() {
    let normal_piece_len = 32_768;
    let last_piece_len = 24_930;
    let normal_block_len = 16_384;
    let last_block_len = 8546;
    assert_eq!(block_len(normal_piece_len, 0), normal_block_len);
    assert_eq!(block_len(normal_piece_len, 1), normal_block_len);
    assert_eq!(block_len(last_piece_len, 0), normal_block_len);
    assert_eq!(block_len(last_piece_len, 1), last_block_len);
}

#[test]
fn test_num_blocks() {
    (0..12)
        .into_iter()
        .for_each(|i| assert_eq!(num_blocks(BLOCK_SIZE * i), i as u32));
    assert_eq!(num_blocks(BLOCK_SIZE + 500), 2);
    assert_eq!(num_blocks(BLOCK_SIZE * 5 + 1000), 6);
    assert_eq!(num_blocks(0), 0);
}

#[test]
fn block_index_in_piece() {
    let b = Block { piece_idx: 3, offset: 2 * BLOCK_SIZE + 5, data: BlockData::Owned(vec![1, 2, 3]) };
    assert_eq!(b.idx_in_piece(), 2);
    assert_eq!(b.data.len(), 3);
    let i = BlockInfo { piece_idx: 3, offset: BLOCK_SIZE, len: BLOCK_SIZE };
    assert_eq!(i.idx_in_piece(), 1);
    assert_eq!(b.data.into_owned(), vec![1, 2, 3]);
}

#[test]
fn cached_block_len() {
    let d = BlockData::Cached(std::sync::Arc::new(vec![0u8; 10]));
    assert_eq!(d.len(), 10);
}
