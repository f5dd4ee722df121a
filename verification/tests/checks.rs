use bittorrent::bitfield::Bitfield;
use bittorrent::block::{Block, BlockData, BlockInfo};
use bittorrent::fs::Torrent;
use bittorrent::handshake::{Handshake, HANDSHAKE_LEN, PROTOCOL};
use bittorrent::message::{decodable, Message, PeerError};
use bittorrent::metainfo::MetaInfo;
use bittorrent::picker::Picker;
use bittorrent::session::PeerSession;
use bittorrent::store::{FileInfo, StoreInfo};
use bittorrent::tracker::{flatten_tiers, tracker_kind, TrackerKind};
use bittorrent::BLOCK_SIZE;

fn two_files() -> StoreInfo {
    StoreInfo {
        total_len: 30,
        piece_len: 16,
        last_piece_len: 14,
        num_pieces: 2,
        files: vec![
            FileInfo { path: "a".to_string(), length: 10, offset: 0, md5sum: None },
            FileInfo { path: "b".to_string(), length: 20, offset: 10, md5sum: None },
        ],
        output_dir: "out".to_string(),
    }
}

#[test]
fn handshake_roundtrip_and_checks() {
    let ours = Handshake::new([1u8; 20], [2u8; 20]);
    assert_eq!(&ours.protocol[..], &PROTOCOL[..]);
    assert_eq!(&PROTOCOL[..], b"BitTorrent protocol");
    let mut buf = Vec::new();
    ours.encode(&mut buf);
    assert_eq!(buf.len(), HANDSHAKE_LEN);
    assert_eq!(buf[0], 19);
    assert_eq!(&buf[1..20], b"BitTorrent protocol");
    assert_eq!(&buf[20..28], &[0u8; 8]);
    assert_eq!(&buf[28..48], &[1u8; 20]);
    assert_eq!(&buf[48..68], &[2u8; 20]);

    // Not all of it yet.
    let mut part = buf[..40].to_vec();
    assert!(matches!(Handshake::decode(&mut part), Ok(None)));
    assert_eq!(part.len(), 40);

    buf.extend_from_slice(&[9, 9]);
    let theirs = Handshake::decode(&mut buf).unwrap().unwrap();
    assert_eq!(theirs, ours);
    assert_eq!(buf, vec![9, 9]);
    assert!(theirs.check(&[1u8; 20]).is_ok());
    assert!(matches!(theirs.check(&[3u8; 20]), Err(PeerError::IncorrectInfoHash)));

    let mut other = ours.clone();
    other.protocol[0] = b'b';
    assert!(matches!(other.check(&[1u8; 20]), Err(PeerError::IncorrectProtocol)));

    let mut wrong_len = vec![18u8; HANDSHAKE_LEN];
    assert!(matches!(Handshake::decode(&mut wrong_len), Err(PeerError::IncorrectProtocol)));
}

#[test]
fn short_messages_are_not_decodable() {
    assert!(decodable(&[]));
    assert!(decodable(&[0, 0, 0, 5, 4, 0, 0, 0, 1]));
    // A have message of one byte: its index is missing.
    assert!(!decodable(&[0, 0, 0, 1, 4]));
    // A request of five bytes.
    assert!(!decodable(&[0, 0, 0, 5, 6, 0, 0, 0, 1]));
    // A piece message with no room for its index and offset.
    assert!(!decodable(&[0, 0, 0, 2, 7, 0]));
    // An incomplete message is left for later.
    assert!(decodable(&[0, 0, 0, 13, 6]));
}

#[test]
fn session_accepts_only_messages_it_can_take() {
    let picker = Picker::new(2, 2 * BLOCK_SIZE, BLOCK_SIZE);
    let s = PeerSession::new(2);
    assert!(s.accepts(&picker, &Message::Have { idx: 1 }));
    assert!(s.accepts(&picker, &Message::Choke));
    assert!(!s.accepts(&picker, &Message::Port { port: 6881 }));
    assert!(!s.accepts(&picker, &Message::Request(BlockInfo { piece_idx: 0, offset: usize::MAX, len: 1 })));
    let block = Block { piece_idx: 0, offset: 0, data: BlockData::Owned(vec![1]) };
    assert!(s.accepts(&picker, &Message::Block(block)));
    assert!(s.accepts(&picker, &Message::Bitfield(Bitfield::repeat(false, 2))));
}

#[test]
fn store_checks() {
    let info = two_files();
    assert!(info.intersections_known(0));
    assert!(info.intersections_known(1));
    let mut gap = two_files();
    // A gap between the files matters only where the piece's first or last
    // byte falls in it.
    gap.files[1].offset = 12;
    assert!(gap.intersections_known(0));
    gap.files[1].offset = 40;
    assert!(!gap.intersections_known(1));

    let t = Torrent::new(two_files(), vec![[0u8; 20]; 2]);
    let ok = Block { piece_idx: 1, offset: 0, data: BlockData::Owned(vec![0; 14]) };
    assert!(t.fits(&ok));
    let long = Block { piece_idx: 1, offset: 0, data: BlockData::Owned(vec![0; 15]) };
    assert!(!t.fits(&long));
    let far = Block { piece_idx: 2, offset: 0, data: BlockData::Owned(vec![0; 1]) };
    assert!(!t.fits(&far));
    assert!(t.can_read(&BlockInfo { piece_idx: 1, offset: 0, len: 14 }));
    assert!(!t.can_read(&BlockInfo { piece_idx: 2, offset: 0, len: 14 }));
}

fn single(pieces: usize) -> Vec<u8> {
    let mut info = b"d6:lengthi40000e4:name1:a12:piece lengthi32768e6:pieces".to_vec();
    info.extend(format!("{}:", 20 * pieces).into_bytes());
    info.extend(vec![b'A'; 20 * pieces]);
    info.push(b'e');
    let mut t = b"d8:announce18:http://t.example/a4:info".to_vec();
    t.extend(info);
    t.push(b'e');
    t
}

#[test]
fn metainfo_storable() {
    let m = MetaInfo::from_bytes(&single(2)).unwrap();
    assert!(m.storable());
    // With three pieces, the two before the last already hold more than
    // the 40000 bytes of the torrent.
    let m = MetaInfo::from_bytes(&single(3)).unwrap();
    assert!(!m.storable());
}

#[test]
fn tracker_kinds_by_scheme() {
    assert_eq!(tracker_kind("http://t.example/announce"), Some(TrackerKind::Http));
    assert_eq!(tracker_kind("udp://t.example:80"), Some(TrackerKind::Udp));
    assert_eq!(tracker_kind("https://t.example/announce"), None);
    assert_eq!(tracker_kind("wss://t.example"), None);
    let tiers = vec![vec!["a".to_string(), "b".to_string()], vec![], vec!["c".to_string()]];
    assert_eq!(flatten_tiers(tiers), vec!["a".to_string(), "b".to_string(), "c".to_string()]);
}
