use bittorrent::bitfield::Bitfield;
use bittorrent::block::{Block, BlockData, BlockInfo};
use bittorrent::info::TorrentInfo;
use bittorrent::message::{Message, PeerError};
use bittorrent::picker::Picker;
use bittorrent::session::{ConnState, PeerSession, SessionAction};
use bittorrent::BLOCK_SIZE;

fn info() -> TorrentInfo {
    TorrentInfo { total_len: 3 * 32_768, piece_len: 32_768, last_piece_len: 32_768, num_pieces: 3 }
}

fn req(piece_idx: usize, block: usize) -> BlockInfo {
    BlockInfo { piece_idx, offset: block * BLOCK_SIZE, len: BLOCK_SIZE }
}

#[test]
fn session_exchange() {
    let info = info();
    let mut picker = Picker::new(3, 32_768, 32_768);
    let mut s = PeerSession::new(3);
    s.begin_introduction(0);

    // The peer has pieces 0 and 2.
    let bf = Bitfield::from_vec(vec![0b1010_0000]);
    let acts = s.handle_msg(&mut picker, &info, Message::Bitfield(bf)).unwrap();
    assert_eq!(acts, vec![SessionAction::Send(Message::Interested)]);
    assert_eq!(s.state().conn_state, ConnState::Connected);
    assert!(s.state().interested);
    assert_eq!(s.state().num_pieces, 2);

    // Unchoked: every block of pieces 0 and 2 is requested, and again in
    // end game.
    let acts = s.handle_msg(&mut picker, &info, Message::Unchoke).unwrap();
    let expected: Vec<SessionAction> = [req(0, 0), req(0, 1), req(2, 0), req(2, 1)]
        .iter()
        .chain([req(0, 0), req(0, 1), req(2, 0), req(2, 1)].iter())
        .map(|b| SessionAction::Send(Message::Request(*b)))
        .collect();
    assert_eq!(acts, expected);

    // A requested block goes to disk; nothing more can be requested.
    let block = Block { piece_idx: 0, offset: 0, data: BlockData::Owned(vec![7; BLOCK_SIZE]) };
    let acts = s.handle_msg(&mut picker, &info, Message::Block(block.clone())).unwrap();
    assert_eq!(acts, vec![SessionAction::WriteBlock(block.clone())]);
    assert_eq!(s.state().throughput.down, BLOCK_SIZE as u64);
    // The same block again is not asked for any more.
    let acts = s.handle_msg(&mut picker, &info, Message::Block(block)).unwrap();
    assert!(acts.is_empty());

    // Choked: the outstanding requests are freed in the picker.
    let acts = s.handle_msg(&mut picker, &info, Message::Choke).unwrap();
    assert!(acts.is_empty());
    assert!(s.state().peer_choking);
    let mut all = Bitfield::repeat(true, 3);
    all.set(1, false);
    let again = picker.pick_blocks(&[], 3, &all);
    assert_eq!(again, vec![req(0, 1), req(2, 0), req(2, 1)]);

    // The peer gets piece 1.
    let acts = s.handle_msg(&mut picker, &info, Message::Have { idx: 1 }).unwrap();
    assert!(acts.is_empty());
    assert_eq!(s.state().num_pieces, 3);
    let acts = s.handle_msg(&mut picker, &info, Message::Have { idx: 3 });
    assert!(matches!(acts, Err(PeerError::InvalidMessage)));

    // Requests are refused while the peer is choked.
    let r = s.handle_msg(&mut picker, &info, Message::Request(req(0, 0)));
    assert!(matches!(r, Err(PeerError::InvalidMessage)));
    let acts = s.handle_msg(&mut picker, &info, Message::Interested).unwrap();
    assert_eq!(acts, vec![SessionAction::Send(Message::Unchoke)]);
    assert!(!s.state().choked);
    let acts = s.handle_msg(&mut picker, &info, Message::Request(req(0, 0))).unwrap();
    assert_eq!(acts, vec![SessionAction::ReadBlock(req(0, 0))]);
    let acts = s.handle_msg(&mut picker, &info, Message::Request(req(0, 0))).unwrap();
    assert!(acts.is_empty());
    let r = s.handle_msg(&mut picker, &info, Message::Request(req(5, 0)));
    assert!(matches!(r, Err(PeerError::InvalidMessage)));
    let r = s.handle_msg(&mut picker, &info, Message::Cancel(BlockInfo { piece_idx: 0, offset: 30_000, len: 5_000 }));
    assert!(matches!(r, Err(PeerError::InvalidMessage)));
    let acts = s.handle_msg(&mut picker, &info, Message::Cancel(req(0, 0))).unwrap();
    assert!(acts.is_empty());

    // A bitfield after the introduction ends the session.
    let r = s.handle_msg(&mut picker, &info, Message::Bitfield(Bitfield::repeat(true, 3)));
    assert!(matches!(r, Err(PeerError::UnexpectedBitfield)));
}

#[test]
fn session_without_pieces_shuts_down() {
    let info = info();
    let mut picker = Picker::new(3, 32_768, 32_768);
    let mut s = PeerSession::new(3);
    s.begin_introduction(0);
    let acts = s.handle_msg(&mut picker, &info, Message::KeepAlive).unwrap();
    assert_eq!(acts, vec![SessionAction::Shutdown]);
    assert_eq!(s.state().conn_state, ConnState::Introducing);
}

#[test]
fn session_written_piece_and_tick() {
    let info = info();
    let mut picker = Picker::new(3, 32_768, 32_768);
    let mut s = PeerSession::new(3);
    s.begin_introduction(0);
    s.handle_msg(&mut picker, &info, Message::Bitfield(Bitfield::from_vec(vec![0b1000_0000]))).unwrap();
    assert_eq!(s.handle_written_piece(1), vec![Message::Have { idx: 1 }]);
    s.handle_msg(&mut picker, &info, Message::Unchoke).unwrap();
    assert_eq!(
        s.handle_written_piece(0),
        vec![Message::Cancel(req(0, 0)), Message::Cancel(req(0, 1))]
    );
    // No request of the peer is held, so nothing is sent.
    let block = Block { piece_idx: 0, offset: 0, data: BlockData::Owned(vec![1, 2]) };
    assert_eq!(s.send_block(block), None);
    // The state changed since connecting; the mark is cleared once read.
    assert!(matches!(s.tick(1), Ok(true)));
    assert!(matches!(s.tick(2), Ok(false)));
    let st = s.disconnect();
    assert_eq!(st.conn_state, ConnState::Disconnected);
    assert!(st.changed);
}

#[test]
fn idle_session_times_out() {
    let mut s = PeerSession::new(1);
    s.begin_introduction(5);
    assert!(matches!(s.tick(29_000_000_005), Ok(true)));
    assert!(matches!(s.tick(30_000_000_005), Err(PeerError::Timeout)));
}

#[test]
fn peer_requests_are_held_until_answered_or_cancelled() {
    let info = info();
    let mut picker = Picker::new(3, 32_768, 32_768);
    let mut s = PeerSession::new(3);
    s.begin_introduction(0);
    s.handle_msg(&mut picker, &info, Message::Bitfield(Bitfield::from_vec(vec![0b1000_0000]))).unwrap();
    let acts = s.handle_msg(&mut picker, &info, Message::Interested).unwrap();
    assert_eq!(acts, vec![SessionAction::Send(Message::Unchoke)]);

    // A request of the peer is read from disk, answered once, then dropped.
    let acts = s.handle_msg(&mut picker, &info, Message::Request(req(1, 0))).unwrap();
    assert_eq!(acts, vec![SessionAction::ReadBlock(req(1, 0))]);
    let block = Block { piece_idx: 1, offset: 0, data: BlockData::Owned(vec![5; BLOCK_SIZE]) };
    assert_eq!(s.send_block(block.clone()), Some(Message::Block(block.clone())));
    assert_eq!(s.state().throughput.up, BLOCK_SIZE as u64);
    assert_eq!(s.send_block(block), None);

    // A cancelled request is not answered.
    s.handle_msg(&mut picker, &info, Message::Request(req(2, 1))).unwrap();
    let acts = s.handle_msg(&mut picker, &info, Message::Cancel(req(2, 1))).unwrap();
    assert!(acts.is_empty());
    let block = Block { piece_idx: 2, offset: BLOCK_SIZE, data: BlockData::Owned(vec![5; BLOCK_SIZE]) };
    assert_eq!(s.send_block(block), None);
    assert_eq!(s.state().throughput.up, BLOCK_SIZE as u64);
}
