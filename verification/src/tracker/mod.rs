//! Trackers: what a client tells a tracker when it announces, when it may
//! announce again, and what the tracker answers.

pub mod http;
pub mod udp;

use vstd::prelude::*;
use vstd::string::{StringExecFns, StringSliceAdditionalSpecFns};
use crate::ID;

verus! {

#[verifier::external_type_specification]
#[verifier::external_body]
pub struct ExElapsed(tokio::time::error::Elapsed);

/// Errors of a tracker.
#[derive(Debug)]
pub enum TrackerError {
    /// The HTTP request failed; the text of the client's error.
    ReqwestError(String),
    IoError(std::io::Error),
    /// The response is not the bencode that was expected.
    BencodeError(crate::bencode::Error),
    Timeout(tokio::time::error::Elapsed),
    InvalidUrl,
    /// The tracker answered with an error, or with a malformed packet.
    ResponseError(String),
}

/// Seconds between announces where the tracker gives no interval.
pub const DEFAULT_MIN_ANNOUNCE_INTERVAL: u64 = 60;

/// Nanoseconds in a second.
pub const NANOS_PER_SEC: u64 = 1_000_000_000;

/// An event reported with an announce.
#[derive(Copy, Clone, Debug, PartialEq, Eq, Structural, Default)]
pub enum Event {
    Completed,
    #[default]
    Started,
    Stopped,
}

/// The name of an event in an announce.
pub open spec fn event_name(e: Event) -> Seq<char> {
    match e {
        Event::Completed => "completed"@,
        Event::Started => "started"@,
        Event::Stopped => "stopped"@,
    }
}

/// Each event is announced by its own name, `completed`, `started` or
/// `stopped`, and no two events share a name.
pub proof fn law_event_names(a: Event, b: Event)
    ensures
        event_name(a) == match a {
            Event::Completed => "completed"@,
            Event::Started => "started"@,
            Event::Stopped => "stopped"@,
        },
        event_name(a) == event_name(b) ==> a == b,
{
    reveal_strlit("completed");
    reveal_strlit("started");
    reveal_strlit("stopped");
    if a != b {
        let (x, y) = (event_name(a), event_name(b));
        if x.len() == y.len() {
            assert(x[2] != y[2]);
        }
    }
}

impl Event {
    /// The name of the event: `completed`, `started` or `stopped`.
    pub fn to_string(&self) -> (s: String)
        ensures
            s@ == event_name(*self),
            s@ == match *self {
                Event::Completed => "completed"@,
                Event::Started => "started"@,
                Event::Stopped => "stopped"@,
            },
    {
        match self {
            Event::Completed => String::from_str("completed"),
            Event::Started => String::from_str("started"),
            Event::Stopped => String::from_str("stopped"),
        }
    }
}

/// What a client tells a tracker when it announces.
#[derive(Debug, Copy, Clone, Default)]
pub struct AnnounceParams {
    /// Hash of the info dictionary.
    pub info_hash: ID,
    /// The client's 20 byte id.
    pub client_id: ID,
    /// Port the client listens on.
    pub port: u16,
    /// Bytes uploaded since the `started` event.
    pub uploaded: u64,
    /// Bytes downloaded since the `started` event.
    pub downloaded: u64,
    /// Bytes still to download.
    pub left: u64,
    /// The event reported, if any; none for a regular announce.
    pub event: Option<Event>,
    /// Number of peers wanted from the tracker.
    pub num_want: Option<usize>,
}

/// A peer's IPv4 address and port.
#[derive(Debug, Clone, Copy, PartialEq, Eq, Hash, Structural)]
pub struct PeerAddr {
    pub ip: u32,
    pub port: u16,
}

/// Whether `secs` seconds have passed from `last` to `now`, both counted in
/// nanoseconds from one start; a clock that seems to go back counts as no
/// time passed.
pub open spec fn interval_passed(last: u64, now: u64, secs: u64) -> bool {
    (if now >= last { now - last } else { 0 }) >= secs * NANOS_PER_SEC
}

/// Whether `secs` seconds have passed from `last` to `now` (nanoseconds).
pub fn elapsed_at_least(last: u64, now: u64, secs: u64) -> (r: bool)
    ensures
        r == interval_passed(last, now, secs),
{
    let elapsed: u64 = if now >= last { now - last } else { 0 };
    let q: u64 = elapsed / NANOS_PER_SEC;
    proof {
        let n = NANOS_PER_SEC as int;
        let e = elapsed as int;
        vstd::arithmetic::div_mod::lemma_fundamental_div_mod(e, n);
        let r = e % n;
        assert(0 <= r < n);
        assert(e == n * (q as int) + r);
        assert((q as int) >= (secs as int) <==> e >= (secs as int) * n) by (nonlinear_arith)
            requires
                e == n * (q as int) + r,
                0 <= r < n,
                n > 0,
                q >= 0,
                secs >= 0,
        ;
    }
    q >= secs
}

/// Whether an announce is due: an event is to be reported, or peers are
/// wanted and the tracker allows an announce now, or the regular interval
/// has passed.
pub open spec fn announce_due_spec(params: AnnounceParams, can_announce: bool, should_announce: bool) -> bool {
    ||| params.event is Some
    ||| (params.num_want matches Some(n) && n > 0 && can_announce)
    ||| should_announce
}

/// Decides whether to announce with `params`, given whether the tracker
/// allows an announce now and whether the regular interval has passed.
pub fn announce_due(params: &AnnounceParams, can_announce: bool, should_announce: bool) -> (r: bool)
    ensures
        r == announce_due_spec(*params, can_announce, should_announce),
{
    if params.event.is_some() {
        return true;
    }
    let wants_peers = match params.num_want {
        Some(n) => n > 0,
        None => false,
    };
    (wants_peers && can_announce) || should_announce
}

/// The trackers a client can announce to: HTTP and UDP.
#[derive(Debug, Clone, Copy, PartialEq, Eq, Structural)]
pub enum TrackerKind {
    Http,
    Udp,
}

/// Whether text `t` begins with `prefix`.
pub open spec fn has_prefix(t: Seq<u8>, prefix: Seq<u8>) -> bool {
    prefix.len() <= t.len() && t.subrange(0, prefix.len() as int) == prefix
}

/// The tracker that a URL's scheme names: `http` or `udp`, where the URL is
/// written as the url crate writes a parsed URL (its scheme in lower case,
/// then a colon); `None` for any other scheme.
pub open spec fn tracker_kind_of(url: Seq<u8>) -> Option<TrackerKind> {
    if has_prefix(url, "http:".spec_bytes()) {
        Some(TrackerKind::Http)
    } else if has_prefix(url, "udp:".spec_bytes()) {
        Some(TrackerKind::Udp)
    } else {
        None
    }
}

/// Whether `t` begins with `prefix`.
fn starts_with(t: &[u8], prefix: &[u8]) -> (r: bool)
    ensures
        r == has_prefix(t@, prefix@),
{
    if prefix.len() > t.len() {
        return false;
    }
    let mut i: usize = 0;
    while i < prefix.len()
        invariant
            0 <= i <= prefix@.len() <= t@.len(),
            forall|k: int| 0 <= k < i ==> t@[k] == prefix@[k],
        decreases prefix@.len() - i,
    {
        if t[i] != prefix[i] {
            proof {
                assert(t@.subrange(0, prefix@.len() as int)[i as int] != prefix@[i as int]);
            }
            return false;
        }
        i = i + 1;
    }
    proof {
        assert(t@.subrange(0, prefix@.len() as int) =~= prefix@);
    }
    true
}

/// The tracker to start for an announce URL, by its scheme; `None` where the
/// scheme is not supported.
pub fn tracker_kind(url: &str) -> (r: Option<TrackerKind>)
    ensures
        r == tracker_kind_of(url.spec_bytes()),
{
    let b = url.as_bytes();
    let http = "http:";
    let udp = "udp:";
    proof {
        reveal_strlit("http:");
        reveal_strlit("udp:");
    }
    if starts_with(b, http.as_bytes()) {
        Some(TrackerKind::Http)
    } else if starts_with(b, udp.as_bytes()) {
        Some(TrackerKind::Udp)
    } else {
        None
    }
}

/// The announce URLs of all tiers, tier after tier.
pub fn flatten_tiers(urls: Vec<Vec<String>>) -> (r: Vec<String>)
    ensures
        r@ == urls@.map_values(|t: Vec<String>| t@).flatten(),
{
    let ghost tiers = urls@.map_values(|t: Vec<String>| t@);
    let mut out: Vec<String> = Vec::new();
    let mut i: usize = 0;
    while i < urls.len()
        invariant
            0 <= i <= urls@.len(),
            tiers == urls@.map_values(|t: Vec<String>| t@),
            out@ == tiers.take(i as int).flatten_alt(),
        decreases urls@.len() - i,
    {
        let mut j: usize = 0;
        let ghost start = out@;
        while j < urls[i].len()
            invariant
                0 <= i < urls@.len(),
                0 <= j <= urls@[i as int]@.len(),
                out@ == start + urls@[i as int]@.take(j as int),
            decreases urls@[i as int]@.len() - j,
        {
            out.push(urls[i][j].clone());
            proof {
                assert(out@ =~= start + urls@[i as int]@.take(j + 1));
            }
            j = j + 1;
        }
        proof {
            assert(urls@[i as int]@.take(j as int) =~= urls@[i as int]@);
            assert(tiers.take(i + 1).drop_last() =~= tiers.take(i as int));
            assert(tiers.take(i + 1).last() == tiers[i as int]);
        }
        i = i + 1;
    }
    proof {
        assert(tiers.take(i as int) =~= tiers);
        tiers.lemma_flatten_and_flatten_alt_are_equivalent();
    }
    out
}

} // verus!
