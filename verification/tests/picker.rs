use bittorrent::bitfield::Bitfield;
use bittorrent::block::{block_len, BlockInfo};
use bittorrent::picker::Picker;
use bittorrent::BLOCK_SIZE;

#[test]
fn test_pick_blocks() {
    let mut picker = Picker::new(1028, 32_768, 32_768);
    let bf = Bitfield::repeat(true, 1028);
    picker.piece_picker.bitfield_update(&bf);
    let requests_1 = picker.pick_blocks(&[], 4, &bf);
    assert_eq!(requests_1.len(), 4);
    let requests_2 = picker.pick_blocks(&[], 4, &bf);
    assert_eq!(requests_2.len(), 4);
}

#[test]
fn test_pick_blocks_end_game() {
    let mut picker = Picker::new(2, 32_768, 32_768);
    let bf = Bitfield::repeat(true, 2);
    picker.piece_picker.bitfield_update(&bf);

    // Pick all the blocks.
    let requests_1 = picker.pick_blocks(&[], 4, &bf);
    assert_eq!(requests_1.len(), 4);

    // Try endgame.
    let requests_2 = picker.pick_blocks(&[], 4, &bf);
    assert_eq!(requests_2.len(), 4);

    // Endgame with blocks already in queue.
    let previous_requests = vec![
        BlockInfo { piece_idx: 0, offset: 0, len: BLOCK_SIZE },
        BlockInfo { piece_idx: 1, offset: 0, len: BLOCK_SIZE },
    ];
    let requests_3 = picker.pick_blocks(&previous_requests, 4, &bf);
    assert_eq!(requests_3.len(), 2);
}

#[test]
fn pick_blocks_in_piece_order() {
    let mut picker = Picker::new(3, 40_000, 20_000);
    let bf = Bitfield::repeat(true, 3);
    picker.piece_picker.bitfield_update(&bf);
    let r = picker.pick_blocks(&[], 4, &bf);
    assert_eq!(
        r,
        vec![
            BlockInfo { piece_idx: 0, offset: 0, len: BLOCK_SIZE },
            BlockInfo { piece_idx: 0, offset: BLOCK_SIZE, len: BLOCK_SIZE },
            BlockInfo { piece_idx: 0, offset: 2 * BLOCK_SIZE, len: 40_000 - 2 * BLOCK_SIZE },
            BlockInfo { piece_idx: 1, offset: 0, len: BLOCK_SIZE },
        ]
    );
    // The rest of piece 1, then the short last piece.
    let r = picker.pick_blocks(&[], 10, &bf);
    assert_eq!(
        r,
        vec![
            BlockInfo { piece_idx: 1, offset: BLOCK_SIZE, len: BLOCK_SIZE },
            BlockInfo { piece_idx: 1, offset: 2 * BLOCK_SIZE, len: 40_000 - 2 * BLOCK_SIZE },
            BlockInfo { piece_idx: 2, offset: 0, len: BLOCK_SIZE },
            BlockInfo { piece_idx: 2, offset: BLOCK_SIZE, len: 20_000 - BLOCK_SIZE },
            // End game: every block is requested, so each is asked for again.
            BlockInfo { piece_idx: 0, offset: 0, len: BLOCK_SIZE },
            BlockInfo { piece_idx: 0, offset: BLOCK_SIZE, len: BLOCK_SIZE },
            BlockInfo { piece_idx: 0, offset: 2 * BLOCK_SIZE, len: 40_000 - 2 * BLOCK_SIZE },
            BlockInfo { piece_idx: 1, offset: 0, len: BLOCK_SIZE },
            BlockInfo { piece_idx: 1, offset: BLOCK_SIZE, len: BLOCK_SIZE },
            BlockInfo { piece_idx: 1, offset: 2 * BLOCK_SIZE, len: 40_000 - 2 * BLOCK_SIZE },
        ]
    );
}

#[test]
fn pick_blocks_skips_pieces_the_peer_lacks() {
    let mut picker = Picker::new(3, 16_384, 16_384);
    let all = Bitfield::repeat(true, 3);
    picker.piece_picker.bitfield_update(&all);
    let mut bf = Bitfield::repeat(false, 3);
    bf.set(2, true);
    let r = picker.pick_blocks(&[], 3, &bf);
    // Piece 2 is begun; no other piece can be, so the end game asks for its
    // one block again.
    let block = BlockInfo { piece_idx: 2, offset: 0, len: BLOCK_SIZE };
    assert_eq!(r, vec![block, block]);
    // The queue is already full.
    let r = picker.pick_blocks(&[block], 1, &all);
    assert!(r.is_empty());
    // In end game, an outstanding request is not repeated.
    let r = picker.pick_blocks(&[block], 3, &bf);
    assert!(r.is_empty());
}

#[test]
fn picked_requests_are_blocks_of_pieces_the_peer_has() {
    // Three pieces, the last of 20000 bytes; the peer has pieces 1 and 2.
    let mut picker = Picker::new(3, 32_768, 20_000);
    let mut bf = Bitfield::repeat(true, 3);
    bf.set(0, false);
    picker.piece_picker.bitfield_update(&bf);
    let requests = picker.pick_blocks(&[], 10, &bf);
    // The four blocks of pieces 1 and 2, then again in end game.
    assert_eq!(requests.len(), 8);
    assert_eq!(&requests[..4], &requests[4..]);
    // Before the end game no block is asked for twice.
    for a in 0..4 {
        for c in (a + 1)..4 {
            assert_ne!(requests[a], requests[c]);
        }
    }
    for r in &requests {
        assert!(bf.get(r.piece_idx));
        assert_eq!(r.offset % BLOCK_SIZE, 0);
        let piece_len = if r.piece_idx == 2 { 20_000 } else { 32_768 };
        assert_eq!(r.len, block_len(piece_len, r.offset / BLOCK_SIZE));
    }
    assert_eq!(requests[3], BlockInfo { piece_idx: 2, offset: BLOCK_SIZE, len: 20_000 - BLOCK_SIZE });
}
