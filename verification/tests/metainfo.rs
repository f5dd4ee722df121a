use bittorrent::info::TorrentInfo;
use bittorrent::metainfo::{MetaInfo, MetaInfoError};
use bittorrent::store::StoreInfo;
use sha1::{Digest, Sha1};

fn bs(b: &[u8]) -> Vec<u8> {
    let mut out = format!("{}:", b.len()).into_bytes();
    out.extend_from_slice(b);
    out
}

fn num(i: i64) -> Vec<u8> {
    format!("i{}e", i).into_bytes()
}

// Entries are written in the order given: give keys sorted.
fn dict(entries: Vec<(&str, Vec<u8>)>) -> Vec<u8> {
    let mut out = b"d".to_vec();
    for (k, v) in entries {
        out.extend(bs(k.as_bytes()));
        out.extend(v);
    }
    out.push(b'e');
    out
}

fn list(items: Vec<Vec<u8>>) -> Vec<u8> {
    let mut out = b"l".to_vec();
    for i in items {
        out.extend(i);
    }
    out.push(b'e');
    out
}

fn single_info() -> Vec<u8> {
    dict(vec![
        ("length", num(40_000)),
        ("name", bs(b"a.txt")),
        ("piece length", num(32_768)),
        ("pieces", bs(&[7u8; 40])),
    ])
}

#[test]
fn single_file_metainfo() {
    let info = single_info();
    let torrent = dict(vec![
        ("announce", bs(b"http://tracker.example/announce")),
        ("creation date", num(0)),
        ("info", info.clone()),
    ]);
    let m = MetaInfo::from_bytes(&torrent).unwrap();
    assert_eq!(m.announce, "http://tracker.example/announce");
    assert_eq!(m.name(), "a.txt");
    assert_eq!(m.num_pieces(), 2);
    assert_eq!(m.piece_len(), 32_768);
    assert_eq!(m.total_len(), 40_000);
    assert!(!m.is_multi_file());
    assert_eq!(m.single_file_len(), Some(40_000));
    assert_eq!(m.piece_hashes(), vec![[7u8; 20], [7u8; 20]]);
    let digest: [u8; 20] = Sha1::digest(&info).into();
    assert_eq!(m.info_hash(), digest);
    assert_eq!(m.info_hash_hex(), hex::encode(digest));
    assert_eq!(m.creation_date_fmt(), Some("1970-01-01 00:00:00".to_string()));
    assert_eq!(m.trackers(), vec![vec!["http://tracker.example/announce".to_string()]]);
    let files = m.files();
    assert_eq!(files.len(), 1);
    assert_eq!(files[0].path, "a.txt");
    assert_eq!(files[0].length, 40_000);
    assert_eq!(files[0].offset, 0);

    let layout = TorrentInfo::new(&m);
    assert_eq!(layout.num_pieces, 2);
    assert_eq!(layout.last_piece_len, 40_000 - 32_768);
    assert_eq!(layout.piece_len(1), 40_000 - 32_768);
    assert_eq!(layout.piece_len(0), 32_768);
}

#[test]
fn multi_file_metainfo() {
    let files = list(vec![
        dict(vec![("length", num(10)), ("path", list(vec![bs(b"dir"), bs(b"f1")]))]),
        dict(vec![("length", num(20)), ("md5sum", bs(b"abc")), ("path", list(vec![bs(b"f2")]))]),
    ]);
    let info = dict(vec![
        ("files", files),
        ("name", bs(b"multi")),
        ("piece length", num(16)),
        ("pieces", bs(&[1u8; 40])),
        ("private", num(1)),
    ]);
    let torrent = dict(vec![
        ("announce", bs(b"udp://t1.example:80")),
        (
            "announce-list",
            list(vec![
                list(vec![bs(b"udp://t1.example:80"), bs(b"http://t2.example/a")]),
                list(vec![bs(b"http://t3.example/a")]),
            ]),
        ),
        ("comment", bs(b"hello")),
        ("info", info.clone()),
    ]);
    let m = MetaInfo::from_bytes(&torrent).unwrap();
    assert!(m.is_multi_file());
    assert_eq!(m.total_len(), 30);
    assert_eq!(m.comment, Some("hello".to_string()));
    assert_eq!(m.info.private, Some(1));
    let digest: [u8; 20] = Sha1::digest(&info).into();
    assert_eq!(m.info_hash(), digest);
    let fs = m.files();
    assert_eq!(fs.len(), 2);
    assert_eq!((fs[0].path.as_str(), fs[0].length, fs[0].offset), ("dir/f1", 10, 0));
    assert_eq!((fs[1].path.as_str(), fs[1].length, fs[1].offset), ("f2", 20, 10));
    assert_eq!(fs[1].md5sum, Some("abc".to_string()));

    let trackers = m.trackers();
    assert_eq!(trackers.len(), 2);
    let mut tier0 = trackers[0].clone();
    tier0.sort();
    assert_eq!(tier0, vec!["http://t2.example/a".to_string(), "udp://t1.example:80".to_string()]);
    assert_eq!(trackers[1], vec!["http://t3.example/a".to_string()]);

    let store = StoreInfo::new(&m, "out".to_string());
    assert_eq!(store.output_dir, "out/multi");
    assert_eq!(store.num_pieces, 2);
    assert_eq!(store.last_piece_len, 14);
    assert_eq!(store.files.len(), 2);
}

#[test]
fn metainfo_errors() {
    let bad_pieces = dict(vec![
        ("announce", bs(b"http://t/a")),
        (
            "info",
            dict(vec![("length", num(1)), ("name", bs(b"x")), ("piece length", num(1)), ("pieces", bs(&[0u8; 30]))]),
        ),
    ]);
    assert!(matches!(MetaInfo::from_bytes(&bad_pieces), Err(MetaInfoError::InvalidPiecesLength)));
    let no_info = dict(vec![("announce", bs(b"http://t/a"))]);
    assert!(matches!(MetaInfo::from_bytes(&no_info), Err(MetaInfoError::BencodeError(_))));
    let bad_url = dict(vec![("announce", bs(b"not a url")), ("info", single_info())]);
    assert!(matches!(MetaInfo::from_bytes(&bad_url), Err(MetaInfoError::BencodeError(_))));
    assert!(matches!(MetaInfo::from_bytes(b"i3e"), Err(MetaInfoError::BencodeError(_))));
    // An announce list without a URL counts as none.
    let empty_list = dict(vec![
        ("announce", bs(b"http://t/a")),
        ("announce-list", list(vec![list(vec![])])),
        ("info", single_info()),
    ]);
    let m = MetaInfo::from_bytes(&empty_list).unwrap();
    assert!(m.announce_list.is_none());
    // Keys that are not known are passed over, but still hashed away.
    let extra = dict(vec![
        ("announce", bs(b"http://t/a")),
        ("info", dict(vec![("length", num(40_000)), ("name", bs(b"a.txt")), ("piece length", num(32_768)), ("pieces", bs(&[7u8; 40])), ("zzz", num(5))])),
    ]);
    let m = MetaInfo::from_bytes(&extra).unwrap();
    let digest: [u8; 20] = Sha1::digest(&single_info()).into();
    assert_eq!(m.info_hash(), digest);
}

#[test]
fn metainfo_files_need_the_torrent_extension() {
    assert!(MetaInfo::check_extension("linux.torrent").is_ok());
    assert!(MetaInfo::check_extension("dir/a.b.torrent").is_ok());
    assert!(matches!(MetaInfo::check_extension("linux.txt"), Err(MetaInfoError::InvalidExtension)));
    assert!(matches!(MetaInfo::check_extension("torrent"), Err(MetaInfoError::InvalidExtension)));
    assert!(matches!(MetaInfo::check_extension("a.torrent.bak"), Err(MetaInfoError::InvalidExtension)));
    assert!(matches!(MetaInfo::check_extension(""), Err(MetaInfoError::InvalidExtension)));
}

#[test]
fn single_file_listing_has_no_md5sum() {
    let info = dict(vec![
        ("length", num(40_000)),
        ("md5sum", bs(b"0123456789abcdef")),
        ("name", bs(b"a.txt")),
        ("piece length", num(32_768)),
        ("pieces", bs(&[7u8; 40])),
    ]);
    let torrent = dict(vec![("announce", bs(b"http://tracker.example/announce")), ("info", info)]);
    let m = MetaInfo::from_bytes(&torrent).unwrap();
    let files = m.files();
    assert_eq!(files.len(), 1);
    assert_eq!(files[0].md5sum, None);
    let store = StoreInfo::new(&m, "out".to_string());
    assert_eq!(store.files[0].md5sum, None);
}
