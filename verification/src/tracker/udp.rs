//! Announcing to a tracker over UDP: the connect and announce packets and
//! the checks on the tracker's answers.

use vstd::prelude::*;
use vstd::string::StringExecFns;
use crate::message::{be32, get_u32, put_slice, put_u32, read_be32};
use crate::bencode::fields::opt_text;
use super::http::{compact_peers, may_announce, read_be16};
use super::{elapsed_at_least, AnnounceParams, Event, PeerAddr, TrackerError, DEFAULT_MIN_ANNOUNCE_INTERVAL};

verus! {

/// The magic number that opens a connect request.
pub const PROTOCOL_ID: i64 = 0x41727101980;

/// The action of a connect request and response.
pub const ACTION_CONNECT: i32 = 0;

/// The action of an announce request and response.
pub const ACTION_ANNOUNCE: i32 = 1;

/// The eight bytes of `v`, most significant first.
pub open spec fn be64(v: u64) -> Seq<u8> {
    be32((v >> 32u64) as u32) + be32(v as u32)
}

/// The big-endian `u64` at position `i` of `s`.
pub open spec fn read_be64(s: Seq<u8>, i: int) -> u64 {
    (((read_be32(s, i) as u64) << 32u64) | (read_be32(s, i + 4) as u64)) as u64
}

/// A connect request with transaction id `trans_id`.
pub open spec fn connect_bytes(trans_id: i32) -> Seq<u8> {
    be64(PROTOCOL_ID as u64) + be32(ACTION_CONNECT as u32) + be32(trans_id as u32)
}

/// The number by which an announce reports its event.
pub open spec fn event_code(e: Option<Event>) -> u32 {
    match e {
        Some(Event::Started) => 2,
        Some(Event::Completed) => 1,
        Some(Event::Stopped) => 3,
        None => 0,
    }
}

/// The number of peers an announce asks for: `-1` for the tracker's default.
pub open spec fn num_want_code(n: Option<usize>) -> u32 {
    match n {
        Some(k) => (k as i32) as u32,
        None => (-1i32) as u32,
    }
}

/// An announce request on connection `conn_id` with transaction id
/// `trans_id` and key `key`.
pub open spec fn announce_bytes(conn_id: i64, trans_id: i32, p: AnnounceParams, key: i32) -> Seq<u8> {
    be64(conn_id as u64) + be32(ACTION_ANNOUNCE as u32) + be32(trans_id as u32) + p.info_hash@ + p.client_id@
        + be64(p.downloaded) + be64(p.left) + be64(p.uploaded) + be32(event_code(p.event)) + be32(0)
        + be32(key as u32) + be32(num_want_code(p.num_want)) + seq![(p.port >> 8u16) as u8, p.port as u8]
}

/// A UDP announce is 98 bytes long, and its event field, bytes 80 to 84,
/// holds the number of the event as BEP 15 gives it: none 0, completed 1,
/// started 2, stopped 3.
pub proof fn law_announce_event_field(conn_id: i64, trans_id: i32, p: AnnounceParams, key: i32)
    ensures
        announce_bytes(conn_id, trans_id, p, key).len() == 98,
        announce_bytes(conn_id, trans_id, p, key).subrange(80, 84) == match p.event {
            None => seq![0u8, 0u8, 0u8, 0u8],
            Some(Event::Completed) => seq![0u8, 0u8, 0u8, 1u8],
            Some(Event::Started) => seq![0u8, 0u8, 0u8, 2u8],
            Some(Event::Stopped) => seq![0u8, 0u8, 0u8, 3u8],
        },
{
    let b = announce_bytes(conn_id, trans_id, p, key);
    assert(p.info_hash@.len() == 20);
    assert(p.client_id@.len() == 20);
    let head = be64(conn_id as u64) + be32(ACTION_ANNOUNCE as u32) + be32(trans_id as u32) + p.info_hash@
        + p.client_id@ + be64(p.downloaded) + be64(p.left) + be64(p.uploaded);
    assert(head.len() == 80);
    let code = event_code(p.event);
    assert(b.subrange(80, 84) =~= be32(code));
    assert(code < 256);
    assert((code >> 24u32) as u8 == 0u8 && (code >> 16u32) as u8 == 0u8 && (code >> 8u32) as u8 == 0u8
        && code as u8 == code) by (bit_vector)
        requires
            code < 256u32,
    ;
    assert(be32(code) =~= seq![0u8, 0u8, 0u8, code as u8]);
}

/// How the tracker's answer to a connect request reads: the connection id,
/// or why it is refused.
pub enum ConnectAnswer {
    Connected(i64),
    TooShort,
    WrongAction,
    WrongTransaction,
}

/// The answer to a connect request with transaction id `trans_id`.
pub open spec fn connect_answer(resp: Seq<u8>, trans_id: i32) -> ConnectAnswer {
    if resp.len() < 16 {
        ConnectAnswer::TooShort
    } else if read_be32(resp, 0) as i32 != ACTION_CONNECT {
        ConnectAnswer::WrongAction
    } else if read_be32(resp, 4) as i32 != trans_id {
        ConnectAnswer::WrongTransaction
    } else {
        ConnectAnswer::Connected(read_be64(resp, 8) as i64)
    }
}

/// How the tracker's answer to an announce reads: the peers, or why it is
/// refused.
pub enum AnnounceAnswer {
    Peers(Seq<PeerAddr>),
    TooShort,
    WrongAction,
    WrongTransaction,
}

/// The answer to an announce with transaction id `trans_id`: after twenty
/// bytes of header, six bytes for each peer; bytes of an unfinished peer
/// at the end are left.
pub open spec fn announce_answer(resp: Seq<u8>, trans_id: i32) -> AnnounceAnswer {
    if resp.len() < 20 {
        AnnounceAnswer::TooShort
    } else if read_be32(resp, 0) as i32 != ACTION_ANNOUNCE {
        AnnounceAnswer::WrongAction
    } else if read_be32(resp, 4) as i32 != trans_id {
        AnnounceAnswer::WrongTransaction
    } else {
        let body = resp.skip(20);
        AnnounceAnswer::Peers(compact_peers(body.take(body.len() - body.len() % 6)))
    }
}

/// What the `url` crate gives for the host of a URL text: the host's text,
/// or `None` where the text is no URL or the URL has no host.
pub uninterp spec fn url_host(s: Seq<char>) -> Option<Seq<char>>;

/// What the `url` crate gives for the port of a URL text: the port written
/// in it (none for the scheme's default port), or `None` where the text is
/// no URL or has no port.
pub uninterp spec fn url_port(s: Seq<char>) -> Option<u16>;

/// The host of a URL.
///
/// Trusted: calls `url::Url::parse` and `Url::host_str`; the result is
/// named as a function of the text.
#[verifier::external_body]
fn host_of(url: &str) -> (r: Option<String>)
    ensures
        opt_text(r) == url_host(url@),
{
    match url::Url::parse(url) {
        Ok(u) => match u.host_str() {
            Some(h) => Some(h.to_string()),
            None => None,
        },
        Err(_) => None,
    }
}

/// The port of a URL.
///
/// Trusted: calls `url::Url::parse` and `Url::port`; the result is named as
/// a function of the text.
#[verifier::external_body]
fn port_of(url: &str) -> (r: Option<u16>)
    ensures
        r == url_port(url@),
{
    match url::Url::parse(url) {
        Ok(u) => u.port(),
        Err(_) => None,
    }
}

/// Where a UDP tracker is reached: the host and port of its URL, or
/// `InvalidUrl` where the URL has no host or no port; nothing is sent
/// before this is known.
pub fn udp_endpoint(url: &str) -> (r: Result<(String, u16), TrackerError>)
    ensures
        match (url_host(url@), url_port(url@)) {
            (Some(h), Some(p)) => r matches Ok((rh, rp)) && rh@ == h && rp == p,
            _ => r matches Err(TrackerError::InvalidUrl),
        },
{
    let host = match host_of(url) {
        Some(h) => h,
        None => {
            return Err(TrackerError::InvalidUrl);
        },
    };
    let port = match port_of(url) {
        Some(p) => p,
        None => {
            return Err(TrackerError::InvalidUrl);
        },
    };
    Ok((host, port))
}

/// A random `i32`.
///
/// Trusted: calls `rand::random`; nothing is stated of the value.
#[verifier::external_body]
fn random_i32() -> i32 {
    rand::random()
}

/// Appends the eight bytes of `v`, most significant first.
fn put_u64(dst: &mut Vec<u8>, v: u64)
    ensures
        final(dst)@ == old(dst)@ + be64(v),
{
    put_u32(dst, (v >> 32u64) as u32);
    put_u32(dst, v as u32);
    proof {
        assert(final(dst)@ =~= old(dst)@ + be64(v));
    }
}

/// Reads the big-endian `u64` at `i`.
fn get_u64(s: &[u8], i: usize) -> (v: u64)
    requires
        i + 8 <= s@.len(),
    ensures
        v == read_be64(s@, i as int),
{
    let n = s.len();
    let hi = get_u32(s, i) as u64;
    let lo = get_u32(s, i + 4) as u64;
    (hi << 32u64) | lo
}

/// The model of a UDP tracker: the connection id it gave, when the client
/// last announced (nanoseconds) and the interval it asked for (seconds).
pub struct UdpTrackerView {
    pub conn_id: Option<i64>,
    pub last_announce: Option<u64>,
    pub interval: Option<u64>,
}

/// A tracker reached over UDP.
pub struct UdpTracker {
    conn_id: Option<i64>,
    last_announce: Option<u64>,
    interval: Option<u64>,
}

impl View for UdpTracker {
    type V = UdpTrackerView;

    closed spec fn view(&self) -> UdpTrackerView {
        UdpTrackerView { conn_id: self.conn_id, last_announce: self.last_announce, interval: self.interval }
    }
}

impl UdpTracker {
    /// A tracker not yet connected to or announced to.
    pub fn new() -> (t: Self)
        ensures
            t@ == (UdpTrackerView { conn_id: None, last_announce: None, interval: None }),
    {
        UdpTracker { conn_id: None, last_announce: None, interval: None }
    }

    /// A connect request with a fresh random transaction id, and that id.
    pub fn connect_request(&self) -> (r: (Vec<u8>, i32))
        ensures
            r.0@ == connect_bytes(r.1),
    {
        let trans_id = random_i32();
        let mut buf: Vec<u8> = Vec::new();
        put_u64(&mut buf, PROTOCOL_ID as u64);
        put_u32(&mut buf, ACTION_CONNECT as u32);
        put_u32(&mut buf, trans_id as u32);
        proof {
            assert(buf@ =~= connect_bytes(trans_id));
        }
        (buf, trans_id)
    }

    /// Takes in the answer to the connect request with id `trans_id`: keeps
    /// the connection id, or refuses a short or mismatched answer.
    pub fn handle_connect_response(&mut self, resp: &[u8], trans_id: i32) -> (r: Result<(), TrackerError>)
        ensures
            match connect_answer(resp@, trans_id) {
                ConnectAnswer::Connected(id) => r is Ok && final(self)@ == (UdpTrackerView {
                    conn_id: Some(id),
                    ..old(self)@
                }),
                _ => r matches Err(TrackerError::ResponseError(_)) && final(self)@ == old(self)@,
            },
    {
        if resp.len() < 16 {
            return Err(TrackerError::ResponseError(String::from_str("invalid response length")));
        }
        if get_u32(resp, 0) as i32 != ACTION_CONNECT {
            return Err(TrackerError::ResponseError(String::from_str("expected action 0")));
        }
        if get_u32(resp, 4) as i32 != trans_id {
            return Err(TrackerError::ResponseError(String::from_str("invalid transaction id")));
        }
        self.conn_id = Some(get_u64(resp, 8) as i64);
        Ok(())
    }

    /// An announce request on the current connection, with a fresh random
    /// transaction id and key, and that transaction id.
    pub fn announce_request(&self, params: &AnnounceParams) -> (r: (Vec<u8>, i32))
        requires
            self@.conn_id is Some,
        ensures
            exists|key: i32| r.0@ == announce_bytes(self@.conn_id->Some_0, r.1, *params, key),
            r.0@.len() == 98,
            r.0@.subrange(80, 84) == match params.event {
                None => seq![0u8, 0u8, 0u8, 0u8],
                Some(Event::Completed) => seq![0u8, 0u8, 0u8, 1u8],
                Some(Event::Started) => seq![0u8, 0u8, 0u8, 2u8],
                Some(Event::Stopped) => seq![0u8, 0u8, 0u8, 3u8],
            },
    {
        let conn_id = match self.conn_id {
            Some(c) => c,
            None => {
                proof {
                    assert(false);
                }
                0
            },
        };
        let trans_id = random_i32();
        let key = random_i32();
        let mut buf: Vec<u8> = Vec::new();
        put_u64(&mut buf, conn_id as u64);
        put_u32(&mut buf, ACTION_ANNOUNCE as u32);
        put_u32(&mut buf, trans_id as u32);
        put_slice(&mut buf, vstd::array::array_as_slice(&params.info_hash));
        put_slice(&mut buf, vstd::array::array_as_slice(&params.client_id));
        put_u64(&mut buf, params.downloaded);
        put_u64(&mut buf, params.left);
        put_u64(&mut buf, params.uploaded);
        let event: u32 = match params.event {
            Some(Event::Started) => 2,
            Some(Event::Completed) => 1,
            Some(Event::Stopped) => 3,
            None => 0,
        };
        put_u32(&mut buf, event);
        put_u32(&mut buf, 0);
        put_u32(&mut buf, key as u32);
        let num_want: u32 = match params.num_want {
            Some(n) => (n as i32) as u32,
            None => (-1i32) as u32,
        };
        put_u32(&mut buf, num_want);
        buf.push((params.port >> 8u16) as u8);
        buf.push(params.port as u8);
        proof {
            vstd::array::axiom_spec_array_as_slice(&params.info_hash);
            vstd::array::axiom_spec_array_as_slice(&params.client_id);
            assert(buf@ =~= announce_bytes(conn_id, trans_id, *params, key));
            assert(buf@ == announce_bytes(self@.conn_id->Some_0, trans_id, *params, key));
        }
        let r = (buf, trans_id);
        proof {
            assert(r.0@ == announce_bytes(self@.conn_id->Some_0, r.1, *params, key));
            law_announce_event_field(self@.conn_id->Some_0, r.1, *params, key);
        }
        r
    }

    /// Takes in the answer to the announce with id `trans_id`, received at
    /// `now`: returns its peers and records the announce, or refuses a short
    /// or mismatched answer.
    pub fn handle_announce_response(&mut self, resp: &[u8], trans_id: i32, now: u64) -> (r: Result<
        Vec<PeerAddr>,
        TrackerError,
    >)
        ensures
            match announce_answer(resp@, trans_id) {
                AnnounceAnswer::Peers(p) => r matches Ok(v) && v@ == p && final(self)@ == (UdpTrackerView {
                    last_announce: Some(now),
                    ..old(self)@
                }),
                _ => r matches Err(TrackerError::ResponseError(_)) && final(self)@ == old(self)@,
            },
    {
        if resp.len() < 20 {
            return Err(TrackerError::ResponseError(String::from_str("invalid response length")));
        }
        if get_u32(resp, 0) as i32 != ACTION_ANNOUNCE {
            return Err(TrackerError::ResponseError(String::from_str("expected action 1")));
        }
        if get_u32(resp, 4) as i32 != trans_id {
            return Err(TrackerError::ResponseError(String::from_str("invalid transaction id")));
        }
        let num_peers = (resp.len() - 20) / 6;
        let mut peers: Vec<PeerAddr> = Vec::new();
        let ghost body = resp@.skip(20);
        let ghost whole = body.take(body.len() - body.len() % 6);
        let mut i: usize = 0;
        while i < num_peers
            invariant
                0 <= i <= num_peers,
                resp@.len() >= 20,
                num_peers == (resp@.len() - 20) / 6,
                body == resp@.skip(20),
                whole == body.take(body.len() - body.len() % 6),
                peers@ == compact_peers(whole).take(i as int),
            decreases num_peers - i,
        {
            proof {
                let len = resp.len();
                assert(20 + 6 * i + 6 <= len) by (nonlinear_arith)
                    requires
                        i < num_peers,
                        num_peers == (len - 20) / 6,
                        len >= 20,
                ;
            }
            let o = 20 + 6 * i;
            let ip = get_u32(resp, o);
            let port = (((resp[o + 4] as u16) << 8u16) | (resp[o + 5] as u16)) as u16;
            peers.push(PeerAddr { ip, port });
            proof {
                assert(whole.len() == 6 * num_peers) by (nonlinear_arith)
                    requires
                        whole.len() == body.len() - body.len() % 6,
                        num_peers == body.len() / 6,
                ;
                assert(read_be32(whole, 6 * i) == read_be32(resp@, o as int));
                assert(read_be16(whole, 6 * i + 4) == read_be16(resp@, o + 4));
                assert(peers@ =~= compact_peers(whole).take(i + 1));
            }
            i = i + 1;
        }
        proof {
            assert(whole.len() / 6 == num_peers) by (nonlinear_arith)
                requires
                    whole.len() == body.len() - body.len() % 6,
                    num_peers == body.len() / 6,
            ;
            assert(compact_peers(whole).take(num_peers as int) =~= compact_peers(whole));
        }
        self.last_announce = Some(now);
        Ok(peers)
    }

    /// Whether the tracker may be asked for peers at `now`: its interval
    /// has passed since the last announce.
    pub fn can_announce(&self, now: u64) -> (r: bool)
        ensures
            r == may_announce(self@.last_announce, self@.interval, now),
    {
        match self.last_announce {
            Some(l) => {
                let secs = match self.interval {
                    Some(i) => i,
                    None => DEFAULT_MIN_ANNOUNCE_INTERVAL,
                };
                elapsed_at_least(l, now, secs)
            },
            None => true,
        }
    }

    /// Whether a regular announce is due at `now`: as `can_announce`.
    pub fn should_announce(&self, now: u64) -> (r: bool)
        ensures
            r == may_announce(self@.last_announce, self@.interval, now),
    {
        self.can_announce(now)
    }
}

} // verus!
