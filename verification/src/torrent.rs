//! The decisions of a torrent's task: how many peers to connect to and how
//! much is left to download.

use vstd::prelude::*;
use crate::bitfield::Bitfield;
use crate::fs::AllocationError;
use crate::info::TorrentInfo;
use crate::tracker::{AnnounceParams, Event};
use crate::ID;

verus! {

/// Errors that end a torrent's task.
#[derive(Debug)]
pub enum TorrentError {
    AllocationError(AllocationError),
    IoError(std::io::Error),
    /// A message to the disk task could not be sent or answered.
    DiskFailure,
}

/// The state of a torrent.
#[derive(Debug, Copy, Clone, PartialEq, Eq, Structural)]
pub enum TorrentState {
    Checking,
    Downloading,
    Seeding,
    Stopped,
    Paused,
}

impl Default for TorrentState {
    /// A torrent starts by checking what it has.
    fn default() -> (s: Self)
        ensures
            s == TorrentState::Checking,
    {
        TorrentState::Checking
    }
}

/// What to do when the known peers change: connect to the first `connect`
/// of the available peers; then, where the maximum of peers is reached,
/// tell the trackers to stop, or else announce for more.
#[derive(Debug, Clone, Copy, PartialEq, Eq, Structural)]
pub struct PeerPlan {
    pub connect: usize,
    pub max_reached: bool,
}

/// Connects to as many available peers as the maximum leaves room for.
pub fn manage_peer_nums(max_peers: usize, num_peers: usize, num_available: usize) -> (p: PeerPlan)
    requires
        num_peers <= max_peers,
    ensures
        p.connect == if max_peers - num_peers < num_available {
            max_peers - num_peers
        } else {
            num_available as int
        },
        p.max_reached == (num_peers + p.connect == max_peers),
{
    let count_to_max = max_peers - num_peers;
    let connect = if count_to_max < num_available { count_to_max } else { num_available };
    PeerPlan { connect, max_reached: num_peers + connect == max_peers }
}

/// The bytes of the pieces that `have` marks.
pub open spec fn have_bytes(info: TorrentInfo, have: Seq<bool>) -> nat
    decreases have.len(),
{
    if have.len() == 0 {
        0
    } else {
        have_bytes(info, have.drop_last()) + if have.last() {
            info.spec_piece_len((have.len() - 1) as usize) as nat
        } else {
            0
        }
    }
}

/// Whether the pieces add up to the torrent: every piece but the last has
/// `piece_len` bytes and the last the rest.
pub open spec fn layout_consistent(info: TorrentInfo) -> bool {
    &&& info.num_pieces >= 1
    &&& (info.num_pieces - 1) * info.piece_len + info.last_piece_len == info.total_len
}

/// The pieces among the first `bits.len()` that are had weigh no more than
/// those pieces all together.
proof fn lemma_have_bytes_bound(info: TorrentInfo, bits: Seq<bool>)
    requires
        layout_consistent(info),
        bits.len() <= info.num_pieces,
    ensures
        have_bytes(info, bits) <= if bits.len() == info.num_pieces {
            info.total_len as int
        } else {
            bits.len() * info.piece_len
        },
        have_bytes(info, bits) <= info.total_len,
    decreases bits.len(),
{
    let k = bits.len() as int;
    let pl = info.piece_len as int;
    let n = info.num_pieces as int;
    if k > 0 {
        lemma_have_bytes_bound(info, bits.drop_last());
        assert((k - 1) * pl + pl == k * pl) by (nonlinear_arith);
        assert(((k - 1) as usize) as u32 == k - 1);
    }
    if k < n {
        assert(k * pl <= (n - 1) * pl) by (nonlinear_arith)
            requires
                k <= n - 1,
                0 <= pl,
        ;
    }
}

/// With no piece had all of the torrent is left, and with every piece had
/// nothing is.
pub proof fn law_bytes_left_bounds(info: TorrentInfo, none: Seq<bool>, all: Seq<bool>)
    requires
        layout_consistent(info),
        none.len() == info.num_pieces,
        all.len() == info.num_pieces,
        forall|i: int| 0 <= i < none.len() ==> !none[i],
        forall|i: int| 0 <= i < all.len() ==> all[i],
    ensures
        info.total_len - have_bytes(info, none) == info.total_len,
        info.total_len - have_bytes(info, all) == 0,
{
    lemma_have_bytes_none(info, none);
    lemma_have_bytes_all(info, all);
}

/// No piece had weighs nothing.
proof fn lemma_have_bytes_none(info: TorrentInfo, bits: Seq<bool>)
    requires
        forall|i: int| 0 <= i < bits.len() ==> !bits[i],
    ensures
        have_bytes(info, bits) == 0,
    decreases bits.len(),
{
    if bits.len() > 0 {
        lemma_have_bytes_none(info, bits.drop_last());
    }
}

/// The first pieces all had weigh a full piece each, and with the last
/// piece the whole torrent.
proof fn lemma_have_bytes_all(info: TorrentInfo, bits: Seq<bool>)
    requires
        layout_consistent(info),
        bits.len() <= info.num_pieces,
        forall|i: int| 0 <= i < bits.len() ==> bits[i],
    ensures
        have_bytes(info, bits) == if bits.len() == info.num_pieces {
            info.total_len as int
        } else {
            bits.len() * info.piece_len
        },
    decreases bits.len(),
{
    let k = bits.len() as int;
    let pl = info.piece_len as int;
    if k > 0 {
        lemma_have_bytes_all(info, bits.drop_last());
        assert((k - 1) * pl + pl == k * pl) by (nonlinear_arith);
        assert(((k - 1) as usize) as u32 == k - 1);
    }
}

/// How many bytes are left to download: the torrent's length less the
/// pieces had.
pub fn bytes_left(info: &TorrentInfo, have: &Bitfield) -> (left: u64)
    requires
        layout_consistent(*info),
        have@.len() <= info.num_pieces,
        info.total_len <= usize::MAX,
    ensures
        left == info.total_len - have_bytes(*info, have@),
{
    let len = have.len();
    let mut acc: usize = 0;
    let mut i: usize = 0;
    while i < len
        invariant
            0 <= i <= len,
            len == have@.len(),
            len <= info.num_pieces,
            layout_consistent(*info),
            info.total_len <= usize::MAX,
            acc == have_bytes(*info, have@.take(i as int)),
        decreases len - i,
    {
        proof {
            assert(have@.take(i + 1).drop_last() =~= have@.take(i as int));
            lemma_have_bytes_bound(*info, have@.take(i + 1));
        }
        if have.get(i) {
            acc = acc + info.piece_len(i);
        }
        i = i + 1;
    }
    proof {
        assert(have@.take(len as int) =~= have@);
        lemma_have_bytes_bound(*info, have@);
    }
    info.total_len - acc as u64
}

/// What a torrent tells its trackers when it announces: its info hash, its
/// client id and listening port, the bytes moved each way, the bytes still
/// to download and the event, asking for the tracker's default number of
/// peers.
pub fn announce_params(
    info: &TorrentInfo,
    have: &Bitfield,
    info_hash: ID,
    client_id: ID,
    port: u16,
    uploaded: u64,
    downloaded: u64,
    event: Option<Event>,
) -> (p: AnnounceParams)
    requires
        layout_consistent(*info),
        have@.len() <= info.num_pieces,
        info.total_len <= usize::MAX,
    ensures
        p.info_hash == info_hash,
        p.client_id == client_id,
        p.port == port,
        p.uploaded == uploaded,
        p.downloaded == downloaded,
        p.left == info.total_len - have_bytes(*info, have@),
        p.event == event,
        p.num_want is None,
{
    let left = bytes_left(info, have);
    AnnounceParams { info_hash, client_id, port, uploaded, downloaded, left, event, num_want: None }
}

/// Whether a torrent shuts down after announcing: when the announce could
/// not be handed to the trackers and no peer is left.
pub fn shutdown_after_announce(sent: bool, num_peers: usize) -> (r: bool)
    ensures
        r == (!sent && num_peers == 0),
{
    !sent && num_peers == 0
}

} // verus!
