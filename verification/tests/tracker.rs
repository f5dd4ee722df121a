use bittorrent::tracker::http::{parse_u32, HttpResponse, HttpTracker};
use bittorrent::tracker::udp::{udp_endpoint, UdpTracker};
use bittorrent::tracker::{announce_due, AnnounceParams, Event, PeerAddr, TrackerError};

fn ip(a: u8, b: u8, c: u8, d: u8) -> u32 {
    ((a as u32) << 24) | ((b as u32) << 16) | ((c as u32) << 8) | (d as u32)
}

#[test]
fn test_parse_response_binary() {
    let s = "64383a636f6d706c65746569396531303a696e636f6d706c657465693165383a696e74657276616c69313830306531323a6d696e20696e74657276616c693138303065353a706565727336303a52454d051ae1ca2f2a2ec00884937726decc61759ab8138851ab05e8f6bb5062f69770469247493ad4d005879f2ec8d54237ce44ea6043db8806c8d565";
    let response = HttpResponse::decode(&hex::decode(s).unwrap()).unwrap();
    assert_eq!(response.interval, Some(1800));
    assert_eq!(response.min_interval, Some(1800));
    assert_eq!(response.complete, Some(9));
    assert_eq!(response.incomplete, Some(1));
    assert!(response.peers.contains(&PeerAddr { ip: ip(97, 117, 154, 184), port: 5000 }));
    assert!(response.peers.contains(&PeerAddr { ip: ip(5, 135, 159, 46), port: 51413 }));
}

#[test]
fn test_parse_response() {
    let s = "64383a636f6d706c65746569376531303a696e636f6d706c657465693165383a696e74657276616c69313830306531323a6d696e20696e74657276616c693138303065353a706565727334383a52454d051ae161758649c35051ab05e8f6bb5062f69770469247493ad4d005879f2ec8d54237ce44ea6043db8806c8d565";
    let raw = hex::decode(s).unwrap();
    let readable = String::from_utf8_lossy(&raw);
    println!("{}", readable);
    let response = HttpResponse::decode(&raw).unwrap();
    println!("{:#?}", response);
    assert_eq!(response.complete, Some(7));
    assert_eq!(response.peers.len(), 8);
}

#[test]
fn response_with_dictionary_peers() {
    let raw = b"d5:peersld2:ip8:167772164:porti6881eed2:ip3:abc4:porti1eeee";
    let response = HttpResponse::decode(raw).unwrap();
    // The second peer's address is no number, so it is passed over.
    assert_eq!(response.peers, vec![PeerAddr { ip: 16777216, port: 6881 }]);
    assert_eq!(response.interval, None);
}

#[test]
fn response_errors() {
    // Compact peers must come in sixes.
    assert!(HttpResponse::decode(b"d5:peers5:abcdee").is_err());
    // A field given twice.
    assert!(HttpResponse::decode(b"d8:intervali1e8:intervali2ee").is_err());
    // A negative interval.
    assert!(HttpResponse::decode(b"d8:intervali-1ee").is_err());
    // Not a dictionary.
    assert!(HttpResponse::decode(b"i3e").is_err());
    // A peer without a port.
    assert!(HttpResponse::decode(b"d5:peersld2:ip1:1eee").is_err());
    // Unknown keys are passed over; no peers gives none.
    let r = HttpResponse::decode(b"d3:fooi1e10:tracker id2:abe").unwrap();
    assert_eq!(r.tracker_id, Some("ab".to_string()));
    assert!(r.peers.is_empty());
}

#[test]
fn parse_u32_as_from_str() {
    assert_eq!(parse_u32(b"42"), Some(42));
    assert_eq!(parse_u32(b"+42"), Some(42));
    assert_eq!(parse_u32(b"+"), None);
    assert_eq!(parse_u32(b""), None);
    assert_eq!(parse_u32(b"-1"), None);
    assert_eq!(parse_u32(b"4294967295"), Some(u32::MAX));
    assert_eq!(parse_u32(b"4294967296"), None);
}

fn params() -> AnnounceParams {
    AnnounceParams {
        info_hash: [0xab; 20],
        client_id: *b"-RS0001-abcdefghijkl",
        port: 6881,
        uploaded: 10,
        downloaded: 20,
        left: 30,
        event: Some(Event::Started),
        num_want: Some(50),
    }
}

#[test]
fn http_announce_url() {
    let tracker = HttpTracker::new("http://tracker.example/announce".to_string());
    let url = tracker.announce_url(&params());
    let hash = "%AB".repeat(20);
    assert_eq!(
        url,
        format!(
            "http://tracker.example/announce?info_hash={}&peer_id=-RS0001-abcdefghijkl&port=6881&uploaded=10&downloaded=20&left=30&compact=1&event=started&numwant=50",
            hash
        )
    );
}

#[test]
fn http_response_updates_tracker() {
    let mut tracker = HttpTracker::new("http://t/a".to_string());
    assert!(tracker.can_announce(0));
    let resp = HttpResponse::decode(b"d8:intervali100e12:min intervali10e10:tracker id2:xy5:peers6:\x01\x02\x03\x04\x00\x50e").unwrap();
    let peers = tracker.handle_response(resp, 1_000_000_000).unwrap();
    assert_eq!(peers, vec![PeerAddr { ip: ip(1, 2, 3, 4), port: 80 }]);
    // Minimum interval of 10 s, regular interval of 100 s.
    assert!(!tracker.can_announce(10_999_999_999));
    assert!(tracker.can_announce(11_000_000_000));
    assert!(!tracker.should_announce(100_999_999_999));
    assert!(tracker.should_announce(101_000_000_000));
    let mut p = params();
    p.event = None;
    p.num_want = None;
    assert!(tracker.announce_url(&p).ends_with("&compact=1&tracker_id=xy"));
    // A failure changes nothing.
    let fail = HttpResponse::decode(b"d14:failure reason4:nopee").unwrap();
    match tracker.handle_response(fail, 2_000_000_000) {
        Err(TrackerError::ResponseError(m)) => assert_eq!(m, "nope"),
        _ => panic!("expected a response error"),
    }
    assert!(!tracker.can_announce(10_999_999_999));
}

#[test]
fn announce_decision() {
    let mut p = params();
    assert!(announce_due(&p, false, false));
    p.event = None;
    assert!(announce_due(&p, true, false));
    p.num_want = Some(0);
    assert!(!announce_due(&p, true, false));
    assert!(announce_due(&p, false, true));
    assert_eq!(Event::Completed.to_string(), "completed");
}

#[test]
fn udp_packets() {
    let mut tracker = UdpTracker::new();
    let (req, trans_id) = tracker.connect_request();
    assert_eq!(req.len(), 16);
    assert_eq!(&req[..8], &0x41727101980i64.to_be_bytes());
    assert_eq!(&req[12..], &trans_id.to_be_bytes());

    let mut resp = vec![0, 0, 0, 0];
    resp.extend_from_slice(&trans_id.to_be_bytes());
    resp.extend_from_slice(&77i64.to_be_bytes());
    assert!(tracker.handle_connect_response(&resp[..15], trans_id).is_err());
    assert!(tracker.handle_connect_response(&resp, trans_id.wrapping_add(1)).is_err());
    tracker.handle_connect_response(&resp, trans_id).unwrap();

    let (req, trans_id) = tracker.announce_request(&params());
    assert_eq!(req.len(), 98);
    assert_eq!(&req[..8], &77i64.to_be_bytes());
    assert_eq!(&req[8..12], &1i32.to_be_bytes());
    assert_eq!(&req[12..16], &trans_id.to_be_bytes());
    assert_eq!(&req[16..36], &[0xab; 20]);
    assert_eq!(&req[80..84], &2i32.to_be_bytes());
    assert_eq!(&req[92..96], &50i32.to_be_bytes());
    assert_eq!(&req[96..], &6881u16.to_be_bytes());

    let mut resp = vec![0, 0, 0, 1];
    resp.extend_from_slice(&trans_id.to_be_bytes());
    resp.extend_from_slice(&[0; 12]);
    resp.extend_from_slice(&[10, 0, 0, 1, 0x1a, 0xe1, 10, 0, 0, 2, 0, 1, 9]);
    let peers = tracker.handle_announce_response(&resp, trans_id, 5).unwrap();
    assert_eq!(
        peers,
        vec![PeerAddr { ip: ip(10, 0, 0, 1), port: 6881 }, PeerAddr { ip: ip(10, 0, 0, 2), port: 1 }]
    );
    assert!(!tracker.can_announce(59_000_000_005));
    assert!(tracker.can_announce(60_000_000_005));
}

#[test]
fn udp_trackers_need_a_host_and_a_port() {
    let (host, port) = udp_endpoint("udp://tracker.example:6969/announce").unwrap();
    assert_eq!(host, "tracker.example");
    assert_eq!(port, 6969);
    assert!(matches!(udp_endpoint("udp://tracker.example/announce"), Err(TrackerError::InvalidUrl)));
    assert!(matches!(udp_endpoint("no url at all"), Err(TrackerError::InvalidUrl)));
    assert!(matches!(udp_endpoint("udp:6969"), Err(TrackerError::InvalidUrl)));
}
