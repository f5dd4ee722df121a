use bittorrent::bencode::token::{Token, TokenVisitor};
use bittorrent::bitfield::Bitfield;
use bittorrent::client::Client;
use bittorrent::config::{Config, DEFAULT_CLIENT_ID};
use bittorrent::info::TorrentInfo;
use bittorrent::metainfo::MetaInfo;
use bittorrent::picker::Picker;
use bittorrent::stats::PieceStats;
use bittorrent::torrent::{announce_params, bytes_left, manage_peer_nums, shutdown_after_announce, PeerPlan, TorrentState};
use bittorrent::tracker::Event;
use bittorrent::BLOCK_SIZE;

fn bs(b: &[u8]) -> Vec<u8> {
    let mut out = format!("{}:", b.len()).into_bytes();
    out.extend_from_slice(b);
    out
}

fn num(i: i64) -> Vec<u8> {
    format!("i{}e", i).into_bytes()
}

// Entries are written in the order given: give keys sorted.
fn dict(entries: Vec<(&str, Vec<u8>)>) -> Vec<u8> {
    let mut out = b"d".to_vec();
    for (k, v) in entries {
        out.extend(bs(k.as_bytes()));
        out.extend(v);
    }
    out.push(b'e');
    out
}

fn list(items: Vec<Vec<u8>>) -> Vec<u8> {
    let mut out = b"l".to_vec();
    for i in items {
        out.extend(i);
    }
    out.push(b'e');
    out
}

fn layout() -> TorrentInfo {
    TorrentInfo { total_len: 40_000, piece_len: 16_384, last_piece_len: 7_232, num_pieces: 3 }
}

#[test]
fn peers_are_connected_up_to_the_maximum() {
    assert_eq!(manage_peer_nums(50, 45, 10), PeerPlan { connect: 5, max_reached: true });
    assert_eq!(manage_peer_nums(50, 10, 3), PeerPlan { connect: 3, max_reached: false });
    assert_eq!(manage_peer_nums(50, 0, 0), PeerPlan { connect: 0, max_reached: false });
    assert_eq!(manage_peer_nums(2, 2, 7), PeerPlan { connect: 0, max_reached: true });
}

#[test]
fn bytes_left_counts_missing_pieces() {
    let info = layout();
    assert_eq!(bytes_left(&info, &Bitfield::repeat(false, 3)), 40_000);
    assert_eq!(bytes_left(&info, &Bitfield::repeat(true, 3)), 0);
    let mut have = Bitfield::repeat(false, 3);
    have.set(2, true);
    assert_eq!(bytes_left(&info, &have), 40_000 - 7_232);
    have.set(0, true);
    assert_eq!(bytes_left(&info, &have), 16_384);
}

#[test]
fn written_piece_is_had_and_leaves_partial_pieces() {
    let mut picker = Picker::new(3, 2 * BLOCK_SIZE, 1_000);
    let bf = Bitfield::repeat(true, 3);
    picker.piece_picker.bitfield_update(&bf);
    let r = picker.pick_blocks(&[], 3, &bf);
    assert_eq!(r.len(), 3);
    assert_eq!(picker.partial_pieces.len(), 2);
    let stats = picker.piece_stats();
    assert_eq!(stats, PieceStats { num_pieces: 3, num_pending: 2, num_downloaded: 0 });
    assert!(!stats.is_seed());

    assert_eq!(picker.handle_piece_write(0, true), Some(2));
    assert_eq!(picker.partial_pieces.len(), 1);
    assert_eq!(picker.partial_pieces[0].idx, 1);
    assert!(picker.piece_picker.own_bitfield().get(0));
    assert_eq!(picker.piece_stats(), PieceStats { num_pieces: 3, num_pending: 1, num_downloaded: 1 });
    assert_eq!(picker.start_state(), TorrentState::Downloading);
    // Piece 0 is not picked again; the rest of piece 1 and piece 2 are.
    let more = picker.pick_blocks(&r, 10, &bf);
    assert!(!more.is_empty());
    assert!(more.iter().all(|b| b.piece_idx != 0));
}

#[test]
fn refused_piece_has_its_blocks_freed() {
    let mut picker = Picker::new(2, 2 * BLOCK_SIZE, 2 * BLOCK_SIZE);
    let bf = Bitfield::repeat(true, 2);
    picker.piece_picker.bitfield_update(&bf);
    let first = picker.pick_blocks(&[], 2, &bf);
    assert_eq!(first.len(), 2);
    assert_eq!(picker.handle_piece_write(0, false), None);
    assert!(!picker.piece_picker.own_bitfield().get(0));
    // The freed blocks of piece 0 are picked again before piece 1 is begun.
    let again = picker.pick_blocks(&[], 2, &bf);
    assert_eq!(again, first);
}

#[test]
fn torrent_with_every_piece_seeds() {
    let mut picker = Picker::new(2, BLOCK_SIZE, BLOCK_SIZE);
    assert_eq!(picker.start_state(), TorrentState::Downloading);
    assert_eq!(picker.handle_piece_write(0, true), Some(1));
    assert_eq!(picker.handle_piece_write(1, true), Some(0));
    assert_eq!(picker.start_state(), TorrentState::Seeding);
    assert!(picker.piece_stats().is_seed());
    assert_eq!(TorrentState::default(), TorrentState::Checking);
}

#[test]
fn default_config() {
    let c = Config::default();
    assert_eq!(&c.client_id, b"-RS0133-73b3b0b0b0b0");
    assert_eq!(c.client_id, DEFAULT_CLIENT_ID);
    assert_eq!(c.dir, "downloads");
    assert_eq!(c.listen_port_start, 49152);
    assert_eq!(c.announce_interval, 1800);
    assert_eq!(c.max_peers, 50);
    assert!(c.custom_trackers.is_empty());
}

#[test]
fn client_gives_each_torrent_the_next_port() {
    let single = dict(vec![
        ("announce", bs(b"http://tracker.example/announce")),
        (
            "info",
            dict(vec![
                ("length", num(40_000)),
                ("name", bs(b"a.txt")),
                ("piece length", num(32_768)),
                ("pieces", bs(&[7u8; 40])),
            ]),
        ),
    ]);
    let multi = dict(vec![
        ("announce", bs(b"udp://t1.example:80")),
        (
            "info",
            dict(vec![
                ("files", list(vec![dict(vec![("length", num(30)), ("path", list(vec![bs(b"f")]))])])),
                ("name", bs(b"multi")),
                ("piece length", num(16)),
                ("pieces", bs(&[1u8; 40])),
            ]),
        ),
    ]);
    let a = MetaInfo::from_bytes(&single).unwrap();
    let b = MetaInfo::from_bytes(&multi).unwrap();
    let mut config = Config::default();
    config.listen_port_start = 6881;
    let mut client = Client::new(config);

    let t = client.new_torrent(&a);
    assert_eq!(t.params.listen_port, 6881);
    assert_eq!(t.params.info_hash, a.info_hash());
    assert_eq!(t.params.client_id, DEFAULT_CLIENT_ID);
    assert_eq!(t.params.info.num_pieces, 2);
    assert_eq!(t.params.info.last_piece_len, 40_000 - 32_768);
    assert_eq!(t.params.tracker_urls, vec![vec!["http://tracker.example/announce".to_string()]]);
    assert_eq!(t.store.output_dir, "downloads");
    assert_eq!(t.store.files.len(), 1);
    assert_eq!(t.store.files[0].path, "a.txt");
    assert_eq!(t.piece_hashes, vec![[7u8; 20], [7u8; 20]]);

    let u = client.new_torrent(&b);
    assert_eq!(u.params.listen_port, 6882);
    assert_eq!(u.store.output_dir, "downloads/multi");
    assert_eq!(u.store.files[0].path, "f");
    assert_eq!(u.store.files[0].length, 30);

    assert!(client.remove_torrent(&a.info_hash()));
    assert!(!client.remove_torrent(&a.info_hash()));
    assert!(client.remove_torrent(&b.info_hash()));
}

#[test]
fn token_visitor_builds_each_kind_of_token() {
    assert_eq!(TokenVisitor.visit_i64(-3), Token::Integer(-3));
    assert_eq!(TokenVisitor.visit_u64(7), Token::Integer(7));
    assert_eq!(TokenVisitor.visit_u64(u64::MAX), Token::Integer(-1));
    assert_eq!(TokenVisitor.visit_bytes(b"ab"), Token::ByteString(b"ab".to_vec()));
    assert_eq!(TokenVisitor.visit_str("é"), Token::ByteString("é".as_bytes().to_vec()));
    assert_eq!(TokenVisitor.visit_string("yes".to_string()), Token::ByteString(b"yes".to_vec()));
    assert_eq!(
        TokenVisitor.visit_seq(vec![Token::Integer(1), Token::Integer(2)]),
        Token::List(vec![Token::Integer(1), Token::Integer(2)])
    );
    assert_eq!(
        TokenVisitor.visit_map(vec![(b"x".to_vec(), Token::Integer(1))]),
        Token::Dictionary(vec![(b"x".to_vec(), Token::Integer(1))])
    );
}

#[test]
fn announce_reports_what_is_left_and_moved() {
    let info = layout();
    let mut have = Bitfield::repeat(false, 3);
    have.set(1, true);
    let p = announce_params(&info, &have, [1; 20], [2; 20], 6881, 300, 16_384, Some(Event::Started));
    assert_eq!(p.info_hash, [1; 20]);
    assert_eq!(p.client_id, [2; 20]);
    assert_eq!(p.port, 6881);
    assert_eq!(p.uploaded, 300);
    assert_eq!(p.downloaded, 16_384);
    assert_eq!(p.left, 40_000 - 16_384);
    assert_eq!(p.event, Some(Event::Started));
    assert_eq!(p.num_want, None);
    let p = announce_params(&info, &Bitfield::repeat(true, 3), [0; 20], [0; 20], 1, 0, 0, None);
    assert_eq!(p.left, 0);
    assert_eq!(p.event, None);
}

#[test]
fn failed_announce_without_peers_shuts_down() {
    assert!(shutdown_after_announce(false, 0));
    assert!(!shutdown_after_announce(false, 2));
    assert!(!shutdown_after_announce(true, 0));
    assert!(!shutdown_after_announce(true, 5));
}

#[test]
fn client_gives_the_disk_a_single_files_md5sum() {
    let single = dict(vec![
        ("announce", bs(b"http://tracker.example/announce")),
        (
            "info",
            dict(vec![
                ("length", num(40_000)),
                ("md5sum", bs(b"0123456789abcdef")),
                ("name", bs(b"a.txt")),
                ("piece length", num(32_768)),
                ("pieces", bs(&[7u8; 40])),
            ]),
        ),
    ]);
    let a = MetaInfo::from_bytes(&single).unwrap();
    let mut client = Client::new(Config::default());
    let t = client.new_torrent(&a);
    assert_eq!(t.store.files.len(), 1);
    assert_eq!(t.store.files[0].path, "a.txt");
    assert_eq!(t.store.files[0].length, 40_000);
    assert_eq!(t.store.files[0].offset, 0);
    assert_eq!(t.store.files[0].md5sum, Some("0123456789abcdef".to_string()));
}
