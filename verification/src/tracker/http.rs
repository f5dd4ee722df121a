//! Announcing to a tracker over HTTP: the announce URL, the bencoded
//! response with its peers, and when to announce again.

use vstd::prelude::*;
use vstd::string::{StringExecFns, StringSliceAdditionalSpecFns};
use vstd::utf8::{decode_utf8, valid_utf8};
use crate::bencode::encode::bytes_equal;
use crate::bencode::grammar::decode_spec;
use crate::bencode::number::{all_digits, decimal_value, parse_usize, spec_parse_usize};
use crate::bencode::token::{
    entries_view, lemma_entries_view_index, lemma_tokens_view_index, token_view, tokens_view, Value,
};
use crate::bencode::{decode_bytes, Error, Token};
use crate::message::read_be32;
use crate::bencode::number::{digits_of, is_digit, lemma_digits_of_all_digits, push_digits};
use crate::text::{ascii_chars, ascii_string};
use crate::bencode::fields::{
    is_utf8, opt_text, set_text, set_text_field, set_u64, set_u64_field, text_of, token_text, token_u16, token_u64,
    u16_of, u64_of,
};
use super::{
    elapsed_at_least, event_name, interval_passed, AnnounceParams, PeerAddr, TrackerError,
    DEFAULT_MIN_ANNOUNCE_INTERVAL,
};

verus! {

/// The big-endian `u16` at position `i` of `s`.
pub open spec fn read_be16(s: Seq<u8>, i: int) -> u16 {
    (((s[i] as u16) << 8u16) | (s[i + 1] as u16)) as u16
}

/// Peers in the compact form: six bytes each, an IPv4 address and a port,
/// both big-endian.
pub open spec fn compact_peers(b: Seq<u8>) -> Seq<PeerAddr> {
    Seq::new((b.len() / 6) as nat, |i: int| PeerAddr { ip: read_be32(b, 6 * i), port: read_be16(b, 6 * i + 4) })
}

/// What `u32::from_str` makes of the bytes `b`: one optional `+` followed by
/// at least one decimal digit, with a value that fits in `u32`.
pub open spec fn spec_parse_u32(b: Seq<u8>) -> Option<u32> {
    let d = if b.len() > 1 && b[0] == 43u8 { b.drop_first() } else { b };
    if d.len() > 0 && all_digits(d) && decimal_value(d) <= u32::MAX {
        Some(decimal_value(d) as u32)
    } else {
        None
    }
}

/// The fields of a peer in the dictionary form, as read so far: the bytes of
/// its address text and its port.
pub struct PeerFields {
    pub ip: Option<Seq<u8>>,
    pub port: Option<u16>,
}

/// Reads one entry of a peer dictionary into `f`; `None` for a key that is
/// not UTF-8, a field given twice, or a field of the wrong type. Other keys
/// are passed over.
pub open spec fn apply_peer_entry(f: PeerFields, k: Seq<u8>, v: Value) -> Option<PeerFields> {
    if !valid_utf8(k) {
        None
    } else if k == "ip".spec_bytes() {
        if f.ip is Some {
            None
        } else {
            match v {
                Value::Bytes(b) => if valid_utf8(b) {
                    Some(PeerFields { ip: Some(b), port: f.port })
                } else {
                    None
                },
                _ => None,
            }
        }
    } else if k == "port".spec_bytes() {
        if f.port is Some {
            None
        } else {
            match u16_of(v) {
                Some(p) => Some(PeerFields { ip: f.ip, port: Some(p) }),
                None => None,
            }
        }
    } else {
        Some(f)
    }
}

/// Reads the entries of a peer dictionary from `i` on.
pub open spec fn fold_peer(entries: Seq<(Seq<u8>, Value)>, i: int, f: PeerFields) -> Option<PeerFields>
    decreases entries.len() - i,
{
    if i < 0 || i >= entries.len() {
        Some(f)
    } else {
        match apply_peer_entry(f, entries[i].0, entries[i].1) {
            Some(f2) => fold_peer(entries, i + 1, f2),
            None => None,
        }
    }
}

/// A peer in the dictionary form: `None` where the entry is malformed;
/// `Some(None)` where its address is not a decimal `u32`, so that it is
/// passed over.
pub open spec fn peer_item(v: Value) -> Option<Option<PeerAddr>> {
    match v {
        Value::Dict(entries) => match fold_peer(entries, 0, PeerFields { ip: None, port: None }) {
            Some(f) => match (f.ip, f.port) {
                (Some(ip), Some(port)) => Some(
                    match spec_parse_u32(ip) {
                        Some(x) => Some(PeerAddr { ip: x, port }),
                        None => None,
                    },
                ),
                _ => None,
            },
            None => None,
        },
        _ => None,
    }
}

/// The peers of a list of peer dictionaries from `i` on, after `acc`.
pub open spec fn dict_peers(items: Seq<Value>, i: int, acc: Seq<PeerAddr>) -> Option<Seq<PeerAddr>>
    decreases items.len() - i,
{
    if i < 0 || i >= items.len() {
        Some(acc)
    } else {
        match peer_item(items[i]) {
            Some(Some(p)) => dict_peers(items, i + 1, acc.push(p)),
            Some(None) => dict_peers(items, i + 1, acc),
            None => None,
        }
    }
}

/// The peers of a response: a byte string in the compact form, or a list of
/// dictionaries with an address and a port.
pub open spec fn peers_of(v: Value) -> Option<Seq<PeerAddr>> {
    match v {
        Value::Bytes(b) => if b.len() % 6 == 0 {
            Some(compact_peers(b))
        } else {
            None
        },
        Value::List(items) => dict_peers(items, 0, Seq::empty()),
        _ => None,
    }
}

/// The model of a tracker's response.
pub struct ResponseView {
    pub failure_reason: Option<Seq<char>>,
    pub warning_message: Option<Seq<char>>,
    pub interval: Option<u64>,
    pub min_interval: Option<u64>,
    pub tracker_id: Option<Seq<char>>,
    pub complete: Option<u64>,
    pub incomplete: Option<u64>,
    pub peers: Option<Seq<PeerAddr>>,
}

/// A response with no field read yet.
pub open spec fn empty_response() -> ResponseView {
    ResponseView {
        failure_reason: None,
        warning_message: None,
        interval: None,
        min_interval: None,
        tracker_id: None,
        complete: None,
        incomplete: None,
        peers: None,
    }
}

/// Reads one entry of a response into `r`; `None` for a key that is not
/// UTF-8, a field given twice, or a field of the wrong type. Other keys are
/// passed over.
pub open spec fn apply_response_entry(r: ResponseView, k: Seq<u8>, v: Value) -> Option<ResponseView> {
    if !valid_utf8(k) {
        None
    } else if k == "failure reason".spec_bytes() {
        match set_text(r.failure_reason, v) {
            Some(x) => Some(ResponseView { failure_reason: x, ..r }),
            None => None,
        }
    } else if k == "warning message".spec_bytes() {
        match set_text(r.warning_message, v) {
            Some(x) => Some(ResponseView { warning_message: x, ..r }),
            None => None,
        }
    } else if k == "interval".spec_bytes() {
        match set_u64(r.interval, v) {
            Some(x) => Some(ResponseView { interval: x, ..r }),
            None => None,
        }
    } else if k == "min interval".spec_bytes() {
        match set_u64(r.min_interval, v) {
            Some(x) => Some(ResponseView { min_interval: x, ..r }),
            None => None,
        }
    } else if k == "tracker id".spec_bytes() {
        match set_text(r.tracker_id, v) {
            Some(x) => Some(ResponseView { tracker_id: x, ..r }),
            None => None,
        }
    } else if k == "complete".spec_bytes() {
        match set_u64(r.complete, v) {
            Some(x) => Some(ResponseView { complete: x, ..r }),
            None => None,
        }
    } else if k == "incomplete".spec_bytes() {
        match set_u64(r.incomplete, v) {
            Some(x) => Some(ResponseView { incomplete: x, ..r }),
            None => None,
        }
    } else if k == "peers".spec_bytes() {
        if r.peers is Some {
            None
        } else {
            match peers_of(v) {
                Some(p) => Some(ResponseView { peers: Some(p), ..r }),
                None => None,
            }
        }
    } else {
        Some(r)
    }
}

/// Reads the entries of a response from `i` on.
pub open spec fn fold_response(entries: Seq<(Seq<u8>, Value)>, i: int, r: ResponseView) -> Option<ResponseView>
    decreases entries.len() - i,
{
    if i < 0 || i >= entries.len() {
        Some(r)
    } else {
        match apply_response_entry(r, entries[i].0, entries[i].1) {
            Some(r2) => fold_response(entries, i + 1, r2),
            None => None,
        }
    }
}

/// The response that a bencode value gives: a dictionary whose entries all
/// read; the peers are none where the response gives none.
pub open spec fn response_of(v: Value) -> Option<ResponseView> {
    match v {
        Value::Dict(entries) => match fold_response(entries, 0, empty_response()) {
            Some(r) => Some(
                ResponseView {
                    peers: Some(
                        match r.peers {
                            Some(p) => p,
                            None => Seq::empty(),
                        },
                    ),
                    ..r
                },
            ),
            None => None,
        },
        _ => None,
    }
}

/// A tracker's response to an announce.
#[derive(Debug, Default)]
pub struct HttpResponse {
    /// Why the request failed; no other key is then expected.
    pub failure_reason: Option<String>,
    /// A warning; the response is processed as usual.
    pub warning_message: Option<String>,
    /// Seconds to wait between regular announces.
    pub interval: Option<u64>,
    /// Seconds that must pass before announcing again.
    pub min_interval: Option<u64>,
    /// A string to send back with the next announces.
    pub tracker_id: Option<String>,
    /// Number of peers with the whole torrent (seeders).
    pub complete: Option<u64>,
    /// Number of peers without it (leechers).
    pub incomplete: Option<u64>,
    /// The peers given.
    pub peers: Vec<PeerAddr>,
}

impl View for HttpResponse {
    type V = ResponseView;

    open spec fn view(&self) -> ResponseView {
        ResponseView {
            failure_reason: opt_text(self.failure_reason),
            warning_message: opt_text(self.warning_message),
            interval: self.interval,
            min_interval: self.min_interval,
            tracker_id: opt_text(self.tracker_id),
            complete: self.complete,
            incomplete: self.incomplete,
            peers: Some(self.peers@),
        }
    }
}

/// An error for a value of the wrong type.
fn invalid_type() -> (e: Error)
    ensures
        e matches Error::InvalidType(m) && m@ == "unexpected value in tracker response"@,
{
    Error::InvalidType(String::from_str("unexpected value in tracker response"))
}

/// Reads a decimal `u32` as `u32::from_str` does.
pub fn parse_u32(b: &[u8]) -> (r: Option<u32>)
    ensures
        r == spec_parse_u32(b@),
{
    let d: &[u8] = if b.len() > 1 && b[0] == 43u8 {
        proof {
            assert(b@.subrange(1, b@.len() as int) =~= b@.drop_first());
        }
        &b[1..b.len()]
    } else {
        b
    };
    match parse_usize(d) {
        Some(v) => if v <= 0xffff_ffff {
            Some(v as u32)
        } else {
            None
        },
        None => None,
    }
}

/// Peers in the compact form.
fn read_compact_peers(b: &[u8]) -> (r: Vec<PeerAddr>)
    requires
        b@.len() % 6 == 0,
    ensures
        r@ == compact_peers(b@),
{
    let n = b.len() / 6;
    let mut peers: Vec<PeerAddr> = Vec::new();
    let mut i: usize = 0;
    while i < n
        invariant
            0 <= i <= n,
            n == b@.len() / 6,
            b@.len() % 6 == 0,
            peers@ == compact_peers(b@).take(i as int),
        decreases n - i,
    {
        proof {
            let len = b.len();
            assert(6 * i + 6 <= len) by (nonlinear_arith)
                requires
                    i < n,
                    n == len / 6,
            ;
        }
        let o = 6 * i;
        let ip = ((b[o] as u32) << 24u32) | ((b[o + 1] as u32) << 16u32) | ((b[o + 2] as u32) << 8u32) | (b[o
            + 3] as u32);
        let port = (((b[o + 4] as u16) << 8u16) | (b[o + 5] as u16)) as u16;
        peers.push(PeerAddr { ip, port });
        proof {
            assert(peers@ =~= compact_peers(b@).take(i + 1));
        }
        i = i + 1;
    }
    proof {
        assert(compact_peers(b@).take(n as int) =~= compact_peers(b@));
    }
    peers
}

/// The bytes of an optional address text.
pub open spec fn opt_bytes(b: Option<Vec<u8>>) -> Option<Seq<u8>> {
    match b {
        Some(v) => Some(v@),
        None => None,
    }
}

/// A peer in the dictionary form.
fn read_peer_item(t: &Token) -> (r: Option<Option<PeerAddr>>)
    ensures
        r == peer_item(t@),
{
    match t {
        Token::Dictionary(entries) => {
            let ghost ev = entries_view(entries@);
            proof {
                lemma_entries_view_index(entries@);
            }
            let mut ip: Option<Vec<u8>> = None;
            let mut port: Option<u16> = None;
            let mut i: usize = 0;
            while i < entries.len()
                invariant
                    0 <= i <= entries@.len(),
                    t@ == Value::Dict(ev),
                    ev == entries_view(entries@),
                    ev.len() == entries@.len(),
                    forall|j: int| 0 <= j < entries@.len() ==> #[trigger] ev[j] == (entries@[j].0@, token_view(entries@[j].1)),
                    fold_peer(ev, 0, PeerFields { ip: None, port: None }) == fold_peer(
                        ev,
                        i as int,
                        PeerFields { ip: opt_bytes(ip), port },
                    ),
                decreases entries@.len() - i,
            {
                let k = &entries[i].0;
                let v = &entries[i].1;
                proof {
                    assert(ev[i as int] == (k@, v@));
                }
                if !is_utf8(k.as_slice()) {
                    return None;
                }
                if bytes_equal(k.as_slice(), "ip".as_bytes()) {
                    if ip.is_some() {
                        return None;
                    }
                    match v {
                        Token::ByteString(b) => {
                            if !is_utf8(b.as_slice()) {
                                return None;
                            }
                            ip = Some(vstd::slice::slice_to_vec(b.as_slice()));
                        },
                        _ => {
                            return None;
                        },
                    }
                } else if bytes_equal(k.as_slice(), "port".as_bytes()) {
                    if port.is_some() {
                        return None;
                    }
                    match token_u16(v) {
                        Some(p) => {
                            port = Some(p);
                        },
                        None => {
                            return None;
                        },
                    }
                }
                i = i + 1;
            }
            match (ip, port) {
                (Some(a), Some(p)) => Some(
                    match parse_u32(a.as_slice()) {
                        Some(x) => Some(PeerAddr { ip: x, port: p }),
                        None => None,
                    },
                ),
                _ => None,
            }
        },
        _ => None,
    }
}

/// The peers of a response.
fn read_peers(t: &Token) -> (r: Option<Vec<PeerAddr>>)
    ensures
        match peers_of(t@) {
            Some(p) => r matches Some(v) && v@ == p,
            None => r is None,
        },
{
    match t {
        Token::ByteString(b) => {
            if b.len() % 6 != 0 {
                return None;
            }
            Some(read_compact_peers(b.as_slice()))
        },
        Token::List(items) => {
            let ghost iv = tokens_view(items@);
            proof {
                lemma_tokens_view_index(items@);
            }
            let mut peers: Vec<PeerAddr> = Vec::new();
            let mut i: usize = 0;
            while i < items.len()
                invariant
                    0 <= i <= items@.len(),
                    t@ == Value::List(iv),
                    iv == tokens_view(items@),
                    iv.len() == items@.len(),
                    forall|j: int| 0 <= j < items@.len() ==> #[trigger] iv[j] == token_view(items@[j]),
                    dict_peers(iv, 0, Seq::empty()) == dict_peers(iv, i as int, peers@),
                decreases items@.len() - i,
            {
                proof {
                    assert(iv[i as int] == items@[i as int]@);
                }
                match read_peer_item(&items[i]) {
                    Some(Some(p)) => {
                        peers.push(p);
                    },
                    Some(None) => {},
                    None => {
                        return None;
                    },
                }
                i = i + 1;
            }
            Some(peers)
        },
        _ => None,
    }
}

/// The peers read so far, if any.
pub open spec fn opt_peers(p: Option<Vec<PeerAddr>>) -> Option<Seq<PeerAddr>> {
    match p {
        Some(v) => Some(v@),
        None => None,
    }
}

impl HttpResponse {
    /// Reads a response from a bencode value: a dictionary whose known keys
    /// each appear once with a value of their type; other keys are passed
    /// over.
    pub fn from_token(t: &Token) -> (r: Result<HttpResponse, Error>)
        ensures
            match response_of(t@) {
                Some(m) => r matches Ok(resp) && resp@ == m,
                None => r is Err,
            },
    {
        match t {
            Token::Dictionary(entries) => {
                let ghost ev = entries_view(entries@);
                proof {
                    lemma_entries_view_index(entries@);
                }
                let mut failure_reason: Option<String> = None;
                let mut warning_message: Option<String> = None;
                let mut interval: Option<u64> = None;
                let mut min_interval: Option<u64> = None;
                let mut tracker_id: Option<String> = None;
                let mut complete: Option<u64> = None;
                let mut incomplete: Option<u64> = None;
                let mut peers: Option<Vec<PeerAddr>> = None;
                let mut i: usize = 0;
                while i < entries.len()
                    invariant
                        0 <= i <= entries@.len(),
                        t@ == Value::Dict(ev),
                        ev == entries_view(entries@),
                        ev.len() == entries@.len(),
                        forall|j: int| 0 <= j < entries@.len() ==> #[trigger] ev[j] == (entries@[j].0@, token_view(entries@[j].1)),
                        fold_response(ev, 0, empty_response()) == fold_response(
                            ev,
                            i as int,
                            ResponseView {
                                failure_reason: opt_text(failure_reason),
                                warning_message: opt_text(warning_message),
                                interval,
                                min_interval,
                                tracker_id: opt_text(tracker_id),
                                complete,
                                incomplete,
                                peers: opt_peers(peers),
                            },
                        ),
                    decreases entries@.len() - i,
                {
                    let k = &entries[i].0;
                    let v = &entries[i].1;
                    proof {
                        assert(ev[i as int] == (k@, v@));
                    }
                    if !is_utf8(k.as_slice()) {
                        return Err(invalid_type());
                    }
                    let ok = if bytes_equal(k.as_slice(), "failure reason".as_bytes()) {
                        set_text_field(&mut failure_reason, v)
                    } else if bytes_equal(k.as_slice(), "warning message".as_bytes()) {
                        set_text_field(&mut warning_message, v)
                    } else if bytes_equal(k.as_slice(), "interval".as_bytes()) {
                        set_u64_field(&mut interval, v)
                    } else if bytes_equal(k.as_slice(), "min interval".as_bytes()) {
                        set_u64_field(&mut min_interval, v)
                    } else if bytes_equal(k.as_slice(), "tracker id".as_bytes()) {
                        set_text_field(&mut tracker_id, v)
                    } else if bytes_equal(k.as_slice(), "complete".as_bytes()) {
                        set_u64_field(&mut complete, v)
                    } else if bytes_equal(k.as_slice(), "incomplete".as_bytes()) {
                        set_u64_field(&mut incomplete, v)
                    } else if bytes_equal(k.as_slice(), "peers".as_bytes()) {
                        if peers.is_some() {
                            false
                        } else {
                            match read_peers(v) {
                                Some(p) => {
                                    peers = Some(p);
                                    true
                                },
                                None => false,
                            }
                        }
                    } else {
                        true
                    };
                    if !ok {
                        return Err(invalid_type());
                    }
                    i = i + 1;
                }
                let peers = match peers {
                    Some(p) => p,
                    None => Vec::new(),
                };
                Ok(HttpResponse {
                    failure_reason,
                    warning_message,
                    interval,
                    min_interval,
                    tracker_id,
                    complete,
                    incomplete,
                    peers,
                })
            },
            _ => Err(invalid_type()),
        }
    }

    /// Reads a response from the bytes a tracker sent: the bencode value at
    /// their start, read as `from_token` reads it.
    pub fn decode(b: &[u8]) -> (r: Result<HttpResponse, Error>)
        ensures
            match decode_spec(b@) {
                Ok(v) => match response_of(v) {
                    Some(m) => r matches Ok(resp) && resp@ == m,
                    None => r is Err,
                },
                Err(_) => r is Err,
            },
    {
        match decode_bytes(b) {
            Ok(t) => HttpResponse::from_token(&t),
            Err(e) => Err(e),
        }
    }
}

/// Whether a byte is kept as it is in a URL: an ASCII letter or digit, or
/// one of `-`, `.`, `_`, `~`.
pub open spec fn unreserved(b: u8) -> bool {
    ||| 48 <= b <= 57
    ||| 65 <= b <= 90
    ||| 97 <= b <= 122
    ||| b == 45 || b == 46 || b == 95 || b == 126
}

/// An uppercase hexadecimal digit.
pub open spec fn hex_upper(d: u8) -> char {
    if d < 10 { (48 + d) as char } else { (55 + d) as char }
}

/// A byte as a URL holds it: kept, or `%` and two uppercase hex digits.
pub open spec fn percent_byte(b: u8) -> Seq<char> {
    if unreserved(b) {
        seq![b as char]
    } else {
        seq!['%', hex_upper(b / 16), hex_upper(b % 16)]
    }
}

/// Bytes percent-encoded for a URL.
pub open spec fn percent_encode(d: Seq<u8>) -> Seq<char>
    decreases d.len(),
{
    if d.len() == 0 {
        Seq::empty()
    } else {
        percent_encode(d.drop_last()) + percent_byte(d.last())
    }
}

/// Percent-encodes bytes for a URL.
///
/// Trusted: calls `urlencoding::encode_binary`, which keeps ASCII letters,
/// digits and `-._~` and writes every other byte as `%` followed by two
/// uppercase hex digits; the contract states exactly that.
#[verifier::external_body]
fn url_encode(data: &[u8]) -> (s: String)
    ensures
        s@ == percent_encode(data@),
{
    urlencoding::encode_binary(data).into_owned()
}

/// The decimal text of a number.
pub open spec fn decimal(n: nat) -> Seq<char> {
    ascii_chars(digits_of(n))
}

/// Writes a number in decimal.
pub fn decimal_string(n: u64) -> (s: String)
    ensures
        s@ == decimal(n as nat),
{
    let mut v: Vec<u8> = Vec::new();
    push_digits(n, &mut v);
    proof {
        lemma_digits_of_all_digits(n as nat);
        assert(v@ =~= digits_of(n as nat));
        assert forall|i: int| 0 <= i < v@.len() implies v@[i] < 128 by {
            assert(is_digit(v@[i]));
        }
    }
    ascii_string(v)
}

/// The URL of an announce to the tracker at `base`, with the tracker's id
/// when it gave one.
pub open spec fn announce_url_spec(base: Seq<char>, p: AnnounceParams, id: Option<Seq<char>>) -> Seq<char> {
    base + "?info_hash="@ + percent_encode(p.info_hash@) + "&peer_id="@ + percent_encode(p.client_id@)
        + "&port="@ + decimal(p.port as nat) + "&uploaded="@ + decimal(p.uploaded as nat)
        + "&downloaded="@ + decimal(p.downloaded as nat) + "&left="@ + decimal(p.left as nat)
        + "&compact=1"@ + match p.event {
        Some(e) => "&event="@ + event_name(e),
        None => Seq::empty(),
    } + match p.num_want {
        Some(n) => "&numwant="@ + decimal(n as nat),
        None => Seq::empty(),
    } + match id {
        Some(t) => "&tracker_id="@ + t,
        None => Seq::empty(),
    }
}

/// The model of an HTTP tracker: its URL, the id it gave, when the client
/// last announced (nanoseconds) and the intervals it asked for (seconds).
pub struct HttpTrackerView {
    pub url: Seq<char>,
    pub id: Option<Seq<char>>,
    pub last_announce: Option<u64>,
    pub interval: Option<u64>,
    pub min_interval: Option<u64>,
}

/// A tracker reached over HTTP.
pub struct HttpTracker {
    url: String,
    id: Option<String>,
    last_announce: Option<u64>,
    interval: Option<u64>,
    min_interval: Option<u64>,
}

impl View for HttpTracker {
    type V = HttpTrackerView;

    closed spec fn view(&self) -> HttpTrackerView {
        HttpTrackerView {
            url: self.url@,
            id: opt_text(self.id),
            last_announce: self.last_announce,
            interval: self.interval,
            min_interval: self.min_interval,
        }
    }
}

/// Whether the tracker may be asked again at `now`: never asked, or the
/// interval (the default where none was given) has passed since.
pub open spec fn may_announce(last: Option<u64>, interval: Option<u64>, now: u64) -> bool {
    match last {
        Some(l) => interval_passed(
            l,
            now,
            match interval {
                Some(i) => i,
                None => DEFAULT_MIN_ANNOUNCE_INTERVAL,
            },
        ),
        None => true,
    }
}

/// Whether the interval has passed, the default where none is given.
fn interval_elapsed(last: Option<u64>, interval: Option<u64>, now: u64) -> (r: bool)
    ensures
        r == may_announce(last, interval, now),
{
    match last {
        Some(l) => {
            let secs = match interval {
                Some(i) => i,
                None => DEFAULT_MIN_ANNOUNCE_INTERVAL,
            };
            elapsed_at_least(l, now, secs)
        },
        None => true,
    }
}

impl HttpTracker {
    /// A tracker at `url` (the URL's text), never announced to.
    pub fn new(url: String) -> (t: Self)
        ensures
            t@ == (HttpTrackerView {
                url: url@,
                id: None,
                last_announce: None,
                interval: None,
                min_interval: None,
            }),
    {
        HttpTracker { url, id: None, last_announce: None, interval: None, min_interval: None }
    }

    /// The URL of an announce with `params`.
    pub fn announce_url(&self, params: &AnnounceParams) -> (s: String)
        ensures
            s@ == announce_url_spec(self@.url, *params, self@.id),
    {
        let mut url = self.url.clone();
        url.append("?info_hash=");
        let info_hash = url_encode(vstd::array::array_as_slice(&params.info_hash));
        url.append(info_hash.as_str());
        url.append("&peer_id=");
        let peer_id = url_encode(vstd::array::array_as_slice(&params.client_id));
        url.append(peer_id.as_str());
        url.append("&port=");
        url.append(decimal_string(params.port as u64).as_str());
        url.append("&uploaded=");
        url.append(decimal_string(params.uploaded).as_str());
        url.append("&downloaded=");
        url.append(decimal_string(params.downloaded).as_str());
        url.append("&left=");
        url.append(decimal_string(params.left).as_str());
        url.append("&compact=1");
        let ghost base = url@;
        match params.event {
            Some(e) => {
                url.append("&event=");
                url.append(e.to_string().as_str());
            },
            None => {},
        }
        let ghost with_event = url@;
        match params.num_want {
            Some(n) => {
                url.append("&numwant=");
                url.append(decimal_string(n as u64).as_str());
            },
            None => {},
        }
        let ghost with_num = url@;
        match &self.id {
            Some(id) => {
                url.append("&tracker_id=");
                url.append(id.as_str());
            },
            None => {},
        }
        proof {
            vstd::array::axiom_spec_array_as_slice(&params.info_hash);
            vstd::array::axiom_spec_array_as_slice(&params.client_id);
            assert(url@ =~= announce_url_spec(self@.url, *params, self@.id));
        }
        url
    }

    /// Takes in the tracker's response to an announce made at `now`: a
    /// failure is returned as an error and changes nothing; otherwise the
    /// intervals and id given are kept, the announce time is recorded, and
    /// the peers are returned.
    pub fn handle_response(&mut self, resp: HttpResponse, now: u64) -> (r: Result<Vec<PeerAddr>, TrackerError>)
        ensures
            match resp@.failure_reason {
                Some(f) => r matches Err(TrackerError::ResponseError(m)) && m@ == f && final(self)@ == old(self)@,
                None => r matches Ok(p) && p@ == resp.peers@ && final(self)@ == (HttpTrackerView {
                    url: old(self)@.url,
                    id: if resp@.tracker_id is Some {
                        resp@.tracker_id
                    } else {
                        old(self)@.id
                    },
                    last_announce: Some(now),
                    interval: if resp.interval is Some {
                        resp.interval
                    } else {
                        old(self)@.interval
                    },
                    min_interval: if resp.min_interval is Some {
                        resp.min_interval
                    } else {
                        old(self)@.min_interval
                    },
                }),
            },
    {
        let HttpResponse { failure_reason, interval, min_interval, tracker_id, peers, .. } = resp;
        if let Some(failure) = failure_reason {
            return Err(TrackerError::ResponseError(failure));
        }
        if interval.is_some() {
            self.interval = interval;
        }
        if min_interval.is_some() {
            self.min_interval = min_interval;
        }
        if tracker_id.is_some() {
            self.id = tracker_id;
        }
        self.last_announce = Some(now);
        Ok(peers)
    }

    /// Whether the tracker may be asked for peers at `now`: its minimum
    /// interval has passed since the last announce.
    pub fn can_announce(&self, now: u64) -> (r: bool)
        ensures
            r == may_announce(self@.last_announce, self@.min_interval, now),
    {
        interval_elapsed(self.last_announce, self.min_interval, now)
    }

    /// Whether a regular announce is due at `now`: its interval has passed
    /// since the last announce.
    pub fn should_announce(&self, now: u64) -> (r: bool)
        ensures
            r == may_announce(self@.last_announce, self@.interval, now),
    {
        interval_elapsed(self.last_announce, self.interval, now)
    }
}

} // verus!
