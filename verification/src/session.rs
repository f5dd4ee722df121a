//! A session with one peer: the connection's state, the requests in both
//! directions, and how each message from the peer changes them and the
//! picker, and what is to be sent or asked of the disk in answer.

use vstd::prelude::*;
use crate::bitfield::{count_true, lemma_count_true_le, lemma_count_true_set, max_bits, Bitfield};
use crate::block::{Block, BlockInfo};
use crate::info::TorrentInfo;
use crate::message::{Message, PeerError};
use crate::partial_piece::{contains_request, BlockState, PartialView};
use crate::picker::{
    count_in, find_part, free_requests_spec, has_wanted, law_pick_blocks_defined, lemma_find_part, lemma_free_step,
    pick_blocks_spec, requests_fit_one, with_parts, Picker, PickerView,
};
use crate::BLOCK_SIZE;

verus! {

/// The state of the connection with a peer.
#[derive(Debug, PartialEq, Eq, Clone, Copy, Structural)]
pub enum ConnState {
    Connecting,
    Handshaking,
    /// Peers tell each other what pieces they have.
    Introducing,
    Connected,
    Disconnected,
}

/// Bytes sent and received in a session.
#[derive(Debug, Clone, Copy, PartialEq, Eq, Structural)]
pub struct Transferred {
    pub up: u64,
    pub down: u64,
}

/// The state of a session, as reported to the torrent.
#[derive(Debug, Clone, Copy, PartialEq, Eq, Structural)]
pub struct SessionState {
    pub conn_state: ConnState,
    /// Whether the client refuses the peer's requests.
    pub choked: bool,
    /// Whether the client wants pieces of the peer.
    pub interested: bool,
    /// Whether the peer refuses the client's requests.
    pub peer_choking: bool,
    /// Whether the peer wants pieces of the client.
    pub peer_interested: bool,
    /// Bytes moved since the session connected.
    pub throughput: Transferred,
    /// Number of pieces the peer has.
    pub num_pieces: usize,
    /// When the session was connected, in nanoseconds from the client's start.
    pub connect_time: Option<u64>,
    /// Whether the state changed since the last report.
    pub changed: bool,
}

/// A session's state before it connects, and after it ends.
pub open spec fn default_state() -> SessionState {
    SessionState {
        conn_state: ConnState::Disconnected,
        choked: true,
        interested: false,
        peer_choking: true,
        peer_interested: false,
        throughput: Transferred { up: 0, down: 0 },
        num_pieces: 0,
        connect_time: None,
        changed: false,
    }
}

impl Default for SessionState {
    fn default() -> (s: SessionState)
        ensures
            s == default_state(),
    {
        SessionState {
            conn_state: ConnState::Disconnected,
            choked: true,
            interested: false,
            peer_choking: true,
            peer_interested: false,
            throughput: Transferred { up: 0, down: 0 },
            num_pieces: 0,
            connect_time: None,
            changed: false,
        }
    }
}

/// Commands to a session from elsewhere in the client.
pub enum PeerCommand {
    /// A piece was written to disk.
    PieceWritten(usize),
    /// A block read from disk for the peer.
    BlockRead(Block),
    Shutdown,
}

/// What a session is to do after taking in a message.
#[derive(Debug, PartialEq, Eq)]
pub enum SessionAction {
    /// Send a message to the peer.
    Send(Message),
    /// Have the disk write a block received.
    WriteBlock(Block),
    /// Have the disk read a block the peer requested.
    ReadBlock(BlockInfo),
    /// End the session.
    Shutdown,
}

/// The model of a session.
pub struct SessionView {
    pub requests_in: Seq<BlockInfo>,
    pub requests_out: Seq<BlockInfo>,
    pub bitfield: Seq<bool>,
    pub state: SessionState,
}

/// A session with a peer.
pub struct PeerSession {
    /// Requests from the peer to the client.
    requests_in: Vec<BlockInfo>,
    /// Requests from the client to the peer.
    requests_out: Vec<BlockInfo>,
    /// The pieces the peer has.
    bitfield: Bitfield,
    state: SessionState,
}

impl View for PeerSession {
    type V = SessionView;

    closed spec fn view(&self) -> SessionView {
        SessionView {
            requests_in: self.requests_in@,
            requests_out: self.requests_out@,
            bitfield: self.bitfield@,
            state: self.state,
        }
    }
}

/// `s` with `x` added, unless it holds it.
pub open spec fn insert_req(s: Seq<BlockInfo>, x: BlockInfo) -> Seq<BlockInfo> {
    if s.contains(x) {
        s
    } else {
        s.push(x)
    }
}

/// `s` with each of `xs` added in turn.
pub open spec fn insert_all(s: Seq<BlockInfo>, xs: Seq<BlockInfo>) -> Seq<BlockInfo>
    decreases xs.len(),
{
    if xs.len() == 0 {
        s
    } else {
        insert_req(insert_all(s, xs.drop_last()), xs.last())
    }
}

/// `s` without `x`.
pub open spec fn without(s: Seq<BlockInfo>, x: BlockInfo) -> Seq<BlockInfo>
    decreases s.len(),
{
    if s.len() == 0 {
        s
    } else {
        let rest = without(s.drop_last(), x);
        if s.last() == x {
            rest
        } else {
            rest.push(s.last())
        }
    }
}

/// Whether a session fits its torrent and the picker: the peer's bitfield
/// has a bit for each piece, and counts as many pieces as the state says;
/// no request is held twice.
pub open spec fn session_ok(s: SessionView, p: PickerView, info: TorrentInfo) -> bool {
    &&& p.wf()
    &&& p.num_pieces == info.num_pieces
    &&& s.bitfield.len() == info.num_pieces
    &&& info.num_pieces <= max_bits()
    &&& s.state.num_pieces == count_true(s.bitfield)
    &&& s.requests_in.no_duplicates()
    &&& s.requests_out.no_duplicates()
    &&& p.piece_len + BLOCK_SIZE - 1 <= usize::MAX
    &&& p.last_piece_len + BLOCK_SIZE - 1 <= usize::MAX
}

/// The request that a block answers.
pub open spec fn block_request(b: Block) -> BlockInfo {
    BlockInfo { piece_idx: b.piece_idx, offset: b.offset, len: b.data.bytes().len() as usize }
}

/// Whether a request falls within a piece of the torrent.
pub open spec fn request_valid(r: BlockInfo, info: TorrentInfo) -> bool {
    &&& r.piece_idx < info.num_pieces
    &&& r.offset + r.len <= info.spec_piece_len(r.piece_idx)
}

/// Whether each request out that a partial piece holds names a block of it.
pub open spec fn requests_fit(reqs: Seq<BlockInfo>, parts: Seq<PartialView>) -> bool {
    forall|i: int, j: int|
        0 <= i < reqs.len() && 0 <= j < parts.len() && #[trigger] parts[j].idx == #[trigger] reqs[i].piece_idx
            ==> reqs[i].offset / BLOCK_SIZE < parts[j].states.len()
}

/// Whether taking in `msg` stays within the machine's limits and the states
/// that the message assumes: counters do not overflow, a request's end fits
/// in `usize`, a block received names a block of its partial piece that was
/// requested, and the requests freed on a choke name blocks of their pieces.
pub open spec fn msg_ok(s: SessionView, p: PickerView, msg: Message) -> bool {
    &&& forall|i: int| 0 <= i < p.freq.len() ==> #[trigger] p.freq[i] < usize::MAX
    &&& match msg {
        Message::Port { .. } => false,
        Message::Request(r) => r.offset + r.len <= usize::MAX,
        Message::Cancel(r) => r.offset + r.len <= usize::MAX,
        Message::Block(b) => {
            let r = block_request(b);
            &&& s.state.throughput.down + b.data.bytes().len() <= u64::MAX
            &&& s.requests_out.contains(r) ==> match find_part(p.parts, r.piece_idx, 0) {
                Some(j) => r.offset / BLOCK_SIZE < p.parts[j].states.len()
                    && p.parts[j].states[(r.offset / BLOCK_SIZE) as int] != BlockState::Free,
                None => true,
            }
        },
        Message::Choke => requests_fit(s.requests_out, p.parts),
        _ => true,
    }
}

/// The state after the interest in the peer is reassessed: an `Interested`
/// message is sent where the client becomes interested.
pub open spec fn interest(s: SessionView, interested: bool) -> (SessionView, Seq<SessionAction>) {
    (
        SessionView { state: SessionState { interested, ..s.state }, ..s },
        if !s.state.interested && interested {
            seq![SessionAction::Send(Message::Interested)]
        } else {
            Seq::empty()
        },
    )
}

/// Requests made to the peer, where it does not choke the client and the
/// client is interested: the picker picks up to twenty outstanding
/// requests' worth of blocks, each recorded and sent.
pub open spec fn make_requests_spec(s: SessionView, p: PickerView) -> Option<
    (SessionView, PickerView, Seq<SessionAction>),
> {
    if s.state.peer_choking || !s.state.interested {
        Some((s, p, Seq::empty()))
    } else {
        match pick_blocks_spec(p, s.requests_out, 20, s.bitfield) {
            Some((bs, p2)) => Some(
                (
                    SessionView { requests_out: insert_all(s.requests_out, bs), ..s },
                    p2,
                    bs.map_values(|b: BlockInfo| SessionAction::Send(Message::Request(b))),
                ),
            ),
            None => None,
        }
    }
}

/// What taking in a block gives, before requests are made: where the block
/// was requested, the request is dropped; where its piece is partial, the
/// block is marked received, and a block not received before is counted
/// and handed to the disk.
pub open spec fn block_spec(s: SessionView, p: PickerView, b: Block) -> (SessionView, PickerView, Seq<SessionAction>) {
    let r = block_request(b);
    if !s.requests_out.contains(r) {
        (s, p, Seq::empty())
    } else {
        let s1 = SessionView { requests_out: without(s.requests_out, r), ..s };
        match find_part(p.parts, r.piece_idx, 0) {
            None => (s1, p, Seq::empty()),
            Some(j) => {
                let k = r.offset / BLOCK_SIZE;
                let q = p.parts[j];
                let p1 = with_parts(
                    p,
                    p.parts.update(
                        j,
                        PartialView { idx: q.idx, len: q.len, states: q.states.update(k as int, BlockState::Received) },
                    ),
                );
                if q.states[k as int] == BlockState::Received {
                    (s1, p1, Seq::empty())
                } else {
                    (
                        SessionView {
                            state: SessionState {
                                throughput: Transferred {
                                    down: (s.state.throughput.down + b.data.bytes().len()) as u64,
                                    ..s.state.throughput
                                },
                                changed: true,
                                ..s.state
                            },
                            ..s1
                        },
                        p1,
                        seq![SessionAction::WriteBlock(b)],
                    )
                }
            },
        }
    }
}

/// How a message is refused.
pub enum Refusal {
    UnexpectedBitfield,
    InvalidMessage,
}

/// What taking in a message does, before the end of the introduction: the
/// session, the picker and the actions after it, or how it is refused.
pub enum Step {
    Refused(Refusal),
    Done(SessionView, PickerView, Seq<SessionAction>),
}

/// The peer's bitfield cut or padded to the number of pieces.
pub open spec fn fit_bits(bits: Seq<bool>, n: int) -> Seq<bool> {
    if n <= bits.len() {
        bits.take(n)
    } else {
        bits + Seq::new((n - bits.len()) as nat, |i: int| false)
    }
}

/// What taking in `msg` does before the end of the introduction.
pub open spec fn msg_step(s: SessionView, p: PickerView, info: TorrentInfo, msg: Message) -> Step {
    match msg {
        Message::Bitfield(bf) => if s.state.conn_state != ConnState::Introducing {
            Step::Refused(Refusal::UnexpectedBitfield)
        } else {
            let bits = fit_bits(bf@, info.num_pieces as int);
            let p1 = PickerView { freq: count_in(p.freq, bits), ..p };
            let s1 = SessionView {
                bitfield: bits,
                state: SessionState { num_pieces: count_true(bits) as usize, changed: true, ..s.state },
                ..s
            };
            let (s2, acts) = interest(s1, has_wanted(bits, p.have));
            Step::Done(s2, p1, acts)
        },
        Message::KeepAlive => Step::Done(s, p, Seq::empty()),
        Message::Choke => if !s.state.peer_choking {
            Step::Done(
                SessionView { requests_out: Seq::empty(), state: SessionState { peer_choking: true, ..s.state }, ..s },
                free_requests_spec(p, s.requests_out),
                Seq::empty(),
            )
        } else {
            Step::Done(s, p, Seq::empty())
        },
        Message::Unchoke => if s.state.peer_choking {
            let s1 = SessionView { state: SessionState { peer_choking: false, ..s.state }, ..s };
            match make_requests_spec(s1, p) {
                Some((s2, p2, acts)) => Step::Done(s2, p2, acts),
                None => Step::Done(s1, p, Seq::empty()),
            }
        } else {
            Step::Done(s, p, Seq::empty())
        },
        Message::Interested => if !s.state.peer_interested {
            Step::Done(
                SessionView { state: SessionState { peer_interested: true, choked: false, ..s.state }, ..s },
                p,
                seq![SessionAction::Send(Message::Unchoke)],
            )
        } else {
            Step::Done(s, p, Seq::empty())
        },
        Message::NotInterested => Step::Done(
            SessionView { state: SessionState { peer_interested: false, ..s.state }, ..s },
            p,
            Seq::empty(),
        ),
        Message::Block(b) => {
            let (s1, p1, acts1) = block_spec(s, p, b);
            match make_requests_spec(s1, p1) {
                Some((s2, p2, acts2)) => Step::Done(s2, p2, acts1 + acts2),
                None => Step::Done(s1, p1, acts1),
            }
        },
        Message::Request(r) => if s.state.choked || !request_valid(r, info) {
            Step::Refused(Refusal::InvalidMessage)
        } else if s.requests_in.contains(r) {
            Step::Done(s, p, Seq::empty())
        } else {
            Step::Done(SessionView { requests_in: s.requests_in.push(r), ..s }, p, seq![SessionAction::ReadBlock(r)])
        },
        Message::Have { idx } => if idx >= info.num_pieces {
            Step::Refused(Refusal::InvalidMessage)
        } else if s.bitfield[idx as int] {
            Step::Done(s, p, Seq::empty())
        } else {
            let s1 = SessionView {
                bitfield: s.bitfield.update(idx as int, true),
                state: SessionState { num_pieces: (s.state.num_pieces + 1) as usize, changed: true, ..s.state },
                ..s
            };
            let p1 = PickerView { freq: p.freq.update(idx as int, (p.freq[idx as int] + 1) as usize), ..p };
            let (s2, acts) = interest(s1, p.have[idx as int]);
            Step::Done(s2, p1, acts)
        },
        Message::Cancel(r) => if !request_valid(r, info) {
            Step::Refused(Refusal::InvalidMessage)
        } else {
            Step::Done(SessionView { requests_in: without(s.requests_in, r), ..s }, p, Seq::empty())
        },
        Message::Port { .. } => Step::Done(s, p, Seq::empty()),
    }
}

/// The end of the introduction, after any message: where neither side has
/// a piece the session ends; otherwise it is connected.
pub open spec fn introduce(s: SessionView, p: PickerView, acts: Seq<SessionAction>) -> (SessionView, Seq<SessionAction>) {
    if s.state.conn_state == ConnState::Introducing {
        if (forall|i: int| 0 <= i < p.have.len() ==> !#[trigger] p.have[i]) && (forall|i: int|
            0 <= i < s.bitfield.len() ==> !#[trigger] s.bitfield[i]) {
            (s, acts.push(SessionAction::Shutdown))
        } else {
            (SessionView { state: SessionState { conn_state: ConnState::Connected, changed: true, ..s.state }, ..s }, acts)
        }
    } else {
        (s, acts)
    }
}

proof fn lemma_insert_req_nodup(s: Seq<BlockInfo>, x: BlockInfo)
    requires
        s.no_duplicates(),
    ensures
        insert_req(s, x).no_duplicates(),
{
}

proof fn lemma_insert_all_nodup(s: Seq<BlockInfo>, xs: Seq<BlockInfo>)
    requires
        s.no_duplicates(),
    ensures
        insert_all(s, xs).no_duplicates(),
    decreases xs.len(),
{
    if xs.len() > 0 {
        lemma_insert_all_nodup(s, xs.drop_last());
        lemma_insert_req_nodup(insert_all(s, xs.drop_last()), xs.last());
    }
}

/// A sequence holds what it held before a push, and what was pushed.
proof fn lemma_push_contains(s: Seq<BlockInfo>, a: BlockInfo, y: BlockInfo)
    ensures
        s.push(a).contains(y) <==> (s.contains(y) || a == y),
{
    if s.contains(y) {
        let i = choose|i: int| 0 <= i < s.len() && s[i] == y;
        assert(s.push(a)[i] == y);
    }
    if a == y {
        assert(s.push(a)[s.len() as int] == y);
    }
}

/// What remains after removing `x`: the others, each once.
proof fn lemma_without(s: Seq<BlockInfo>, x: BlockInfo)
    ensures
        forall|y: BlockInfo| #[trigger] without(s, x).contains(y) <==> (s.contains(y) && y != x),
        s.no_duplicates() ==> without(s, x).no_duplicates(),
        !s.contains(x) ==> without(s, x) == s,
    decreases s.len(),
{
    if s.len() > 0 {
        let dl = s.drop_last();
        let l = s.last();
        let rest = without(dl, x);
        lemma_without(dl, x);
        assert(s =~= dl.push(l));
        assert forall|y: BlockInfo| #[trigger] without(s, x).contains(y) <==> (s.contains(y) && y != x) by {
            lemma_push_contains(dl, l, y);
            lemma_push_contains(rest, l, y);
        }
        if !s.contains(x) {
            lemma_push_contains(dl, l, x);
        }
        if s.no_duplicates() {
            assert(dl.no_duplicates());
            if l != x {
                lemma_push_contains(dl, l, l);
                assert(!dl.contains(l)) by {
                    if dl.contains(l) {
                        let k = choose|k: int| 0 <= k < dl.len() && dl[k] == l;
                        assert(s[k] == s[s.len() - 1]);
                    }
                }
                assert(!rest.contains(l));
            }
        }
    }
}

/// Adds `x` to the requests unless they hold it.
fn insert_request(v: &mut Vec<BlockInfo>, x: BlockInfo)
    ensures
        final(v)@ == insert_req(old(v)@, x),
{
    if !contains_request(v.as_slice(), &x) {
        v.push(x);
    }
}

/// Removes `x` from the requests; returns whether they held it.
fn remove_request(v: &mut Vec<BlockInfo>, x: &BlockInfo) -> (found: bool)
    ensures
        final(v)@ == without(old(v)@, *x),
        found == old(v)@.contains(*x),
{
    let mut out: Vec<BlockInfo> = Vec::new();
    let mut found = false;
    let mut i: usize = 0;
    while i < v.len()
        invariant
            0 <= i <= v@.len(),
            v@ == old(v)@,
            out@ == without(v@.take(i as int), *x),
            found == v@.take(i as int).contains(*x),
        decreases v@.len() - i,
    {
        let ghost t = v@.take(i + 1);
        proof {
            assert(t.drop_last() =~= v@.take(i as int));
            assert(t.last() == v@[i as int]);
            assert(t =~= v@.take(i as int).push(v@[i as int]));
        }
        if v[i] == *x {
            found = true;
        } else {
            out.push(v[i]);
            proof {
                assert(!(v@.take(i as int).contains(*x)) ==> !t.contains(*x)) by {
                    if !v@.take(i as int).contains(*x) && t.contains(*x) {
                        let k = choose|k: int| 0 <= k < t.len() && t[k] == *x;
                        assert(k < i);
                        assert(v@.take(i as int)[k] == *x);
                    }
                }
            }
        }
        proof {
            if v@.take(i as int).contains(*x) {
                let k = choose|k: int| 0 <= k < i && v@.take(i as int)[k] == *x;
                assert(t[k] == *x);
            }
        }
        i = i + 1;
    }
    proof {
        assert(v@.take(i as int) =~= v@);
    }
    *v = out;
    found
}

/// Whether a request falls within a piece of the torrent.
fn request_is_valid(r: &BlockInfo, info: &TorrentInfo) -> (b: bool)
    requires
        r.offset + r.len <= usize::MAX,
    ensures
        b == request_valid(*r, *info),
{
    if r.piece_idx >= info.num_pieces as usize {
        return false;
    }
    if r.offset + r.len > info.piece_len(r.piece_idx) {
        return false;
    }
    true
}

/// A `Cancel` for each request in `reqs` within piece `idx`, in order.
pub open spec fn cancels(reqs: Seq<BlockInfo>, idx: usize) -> Seq<Message>
    decreases reqs.len(),
{
    if reqs.len() == 0 {
        Seq::empty()
    } else {
        cancels(reqs.drop_last(), idx) + if reqs.last().piece_idx == idx {
            seq![Message::Cancel(reqs.last())]
        } else {
            Seq::empty()
        }
    }
}

/// What to send once piece `idx` is written: `Have` where the peer lacks
/// the piece, then a `Cancel` for each request out within it.
pub open spec fn written_msgs(s: SessionView, idx: usize) -> Seq<Message> {
    (if !s.bitfield[idx as int] {
        seq![Message::Have { idx: idx as u32 }]
    } else {
        Seq::empty()
    }) + cancels(s.requests_out, idx)
}

/// Whether a session has been idle too long at `now`: neither side is
/// interested and thirty seconds have passed since it connected.
pub open spec fn idle_too_long(st: SessionState, now: u64) -> bool {
    &&& !st.interested
    &&& !st.peer_interested
    &&& crate::tracker::interval_passed(st.connect_time->Some_0, now, 30)
}

impl PeerSession {
    /// A session with a peer of a torrent of `num_pieces` pieces: no piece
    /// seen at the peer, no request either way, disconnected.
    pub fn new(num_pieces: u32) -> (s: Self)
        requires
            num_pieces <= max_bits(),
        ensures
            s@ == (SessionView {
                requests_in: Seq::empty(),
                requests_out: Seq::empty(),
                bitfield: Seq::new(num_pieces as nat, |i: int| false),
                state: default_state(),
            }),
    {
        let s = PeerSession {
            requests_in: Vec::new(),
            requests_out: Vec::new(),
            bitfield: Bitfield::repeat(false, num_pieces as usize),
            state: SessionState::default(),
        };
        proof {
            assert(s@.requests_in =~= Seq::empty());
            assert(s@.requests_out =~= Seq::empty());
        }
        s
    }

    /// The session's state.
    pub fn state(&self) -> (st: SessionState)
        ensures
            st == self@.state,
    {
        self.state
    }

    /// Moves the connection to `conn_state`, marking the state changed.
    pub fn set_conn_state(&mut self, conn_state: ConnState)
        ensures
            final(self)@ == (SessionView {
                state: SessionState { conn_state, changed: true, ..old(self)@.state },
                ..old(self)@
            }),
    {
        self.state.conn_state = conn_state;
        self.state.changed = true;
    }

    /// Starts the introduction, once connected at `now`.
    pub fn begin_introduction(&mut self, now: u64)
        ensures
            final(self)@ == (SessionView {
                state: SessionState {
                    conn_state: ConnState::Introducing,
                    connect_time: Some(now),
                    changed: true,
                    ..old(self)@.state
                },
                ..old(self)@
            }),
    {
        self.state.connect_time = Some(now);
        self.state.conn_state = ConnState::Introducing;
        self.state.changed = true;
    }

    /// Ends the session: the state is reset and marked changed, and given
    /// back for the torrent.
    pub fn disconnect(&mut self) -> (st: SessionState)
        ensures
            st == (SessionState { changed: true, ..default_state() }),
            final(self)@ == (SessionView { state: st, ..old(self)@ }),
    {
        self.state = SessionState::default();
        self.state.changed = true;
        self.state
    }

    /// Reassesses the interest in the peer: an `Interested` message is sent
    /// where the client becomes interested.
    fn update_interest(&mut self, interested: bool, acts: &mut Vec<SessionAction>)
        ensures
            (final(self)@, final(acts)@.skip(old(acts)@.len() as int)) == interest(old(self)@, interested),
            final(acts)@.take(old(acts)@.len() as int) == old(acts)@,
    {
        let ghost a0 = acts@;
        if !self.state.interested && interested {
            self.state.interested = true;
            acts.push(SessionAction::Send(Message::Interested));
            proof {
                assert(acts@.skip(a0.len() as int) =~= seq![SessionAction::Send(Message::Interested)]);
            }
        } else if self.state.interested && !interested {
            self.state.interested = false;
            proof {
                assert(acts@.skip(a0.len() as int) =~= Seq::<SessionAction>::empty());
            }
        } else {
            proof {
                assert(acts@.skip(a0.len() as int) =~= Seq::<SessionAction>::empty());
            }
        }
        proof {
            assert(acts@.take(a0.len() as int) =~= a0);
        }
    }

    /// Requests blocks from the peer, where it does not choke the client and
    /// the client is interested.
    fn make_requests(&mut self, picker: &mut Picker, info: &TorrentInfo, acts: &mut Vec<SessionAction>)
        requires
            session_ok(old(self)@, old(picker)@, *info),
        ensures
            make_requests_spec(old(self)@, old(picker)@) matches Some((s2, p2, a)) && final(self)@ == s2
                && final(picker)@ == p2 && final(acts)@ == old(acts)@ + a,
            session_ok(final(self)@, final(picker)@, *info),
    {
        let ghost a0 = acts@;
        if self.state.peer_choking || !self.state.interested {
            proof {
                assert(acts@ =~= a0 + Seq::<SessionAction>::empty());
            }
            return;
        }
        proof {
            law_pick_blocks_defined(picker@, self@.requests_out, 20, self@.bitfield);
        }
        let requests = picker.pick_blocks(self.requests_out.as_slice(), 20, &self.bitfield);
        let ghost out0 = self@.requests_out;
        let ghost s0 = self@;
        let mut i: usize = 0;
        while i < requests.len()
            invariant
                0 <= i <= requests@.len(),
                self@ == (SessionView { requests_out: self@.requests_out, ..s0 }),
                out0.no_duplicates(),
                self.requests_out@ == insert_all(out0, requests@.take(i as int)),
                acts@ == a0 + requests@.take(i as int).map_values(
                    |b: BlockInfo| SessionAction::Send(Message::Request(b)),
                ),
            decreases requests@.len() - i,
        {
            let b = requests[i];
            insert_request(&mut self.requests_out, b);
            acts.push(SessionAction::Send(Message::Request(b)));
            proof {
                let t = requests@.take(i + 1);
                assert(t.drop_last() =~= requests@.take(i as int));
                assert(t.last() == b);
                assert(t.map_values(|b: BlockInfo| SessionAction::Send(Message::Request(b))) =~= requests@.take(
                    i as int,
                ).map_values(|b: BlockInfo| SessionAction::Send(Message::Request(b))).push(
                    SessionAction::Send(Message::Request(b)),
                ));
            }
            i = i + 1;
        }
        proof {
            assert(requests@.take(i as int) =~= requests@);
            lemma_insert_all_nodup(out0, requests@);
        }
    }

    /// Frees every request out, for other peers to request.
    fn free_requests_out(&mut self, picker: &mut Picker)
        requires
            old(picker)@.wf(),
            requests_fit(old(self)@.requests_out, old(picker)@.parts),
        ensures
            final(picker)@ == free_requests_spec(old(picker)@, old(self)@.requests_out),
            final(picker)@.wf(),
            final(self)@ == (SessionView { requests_out: Seq::empty(), ..old(self)@ }),
    {
        let ghost p0 = picker@;
        proof {
            let f = free_requests_spec(p0, self.requests_out@.take(0));
            assert forall|j: int| 0 <= j < p0.parts.len() implies f.parts[j] == p0.parts[j] by {
                assert(f.parts[j].states =~= p0.parts[j].states);
            }
            assert(f.parts =~= p0.parts);
        }
        let mut i: usize = 0;
        while i < self.requests_out.len()
            invariant
                0 <= i <= self.requests_out@.len(),
                self@ == old(self)@,
                picker@ == free_requests_spec(p0, self.requests_out@.take(i as int)),
                picker@.wf(),
                picker@.parts.len() == p0.parts.len(),
                forall|j: int| 0 <= j < p0.parts.len() ==> (#[trigger] picker@.parts[j]).idx == p0.parts[j].idx
                    && picker@.parts[j].states.len() == p0.parts[j].states.len(),
                requests_fit(self.requests_out@, p0.parts),
            decreases self.requests_out@.len() - i,
        {
            let r = self.requests_out[i];
            proof {
                assert forall|j: int| 0 <= j < picker@.parts.len() && #[trigger] picker@.parts[j].idx == r.piece_idx
                    implies r.offset / BLOCK_SIZE < picker@.parts[j].states.len() by {
                    assert(p0.parts[j].idx == self.requests_out@[i as int].piece_idx);
                }
            }
            picker.free_block(&r);
            proof {
                lemma_free_step(p0, self.requests_out@.take(i as int), r);
                assert(self.requests_out@.take(i + 1) =~= self.requests_out@.take(i as int).push(r));
            }
            i = i + 1;
        }
        proof {
            assert(self.requests_out@.take(i as int) =~= self.requests_out@);
        }
        self.requests_out = Vec::new();
        proof {
            assert(self@.requests_out =~= Seq::empty());
        }
    }

    /// Takes in a block from the peer: a block that was requested is marked
    /// received in its partial piece, and a block not received before is
    /// counted and handed to the disk.
    fn handle_block(&mut self, picker: &mut Picker, info: &TorrentInfo, block: Block, acts: &mut Vec<SessionAction>)
        requires
            session_ok(old(self)@, old(picker)@, *info),
            msg_ok(old(self)@, old(picker)@, Message::Block(block)),
        ensures
            ({
                let (s1, p1, a) = block_spec(old(self)@, old(picker)@, block);
                final(self)@ == s1 && final(picker)@ == p1 && final(acts)@ == old(acts)@ + a
            }),
            session_ok(final(self)@, final(picker)@, *info),
    {
        let ghost a0 = acts@;
        let ghost s0 = self@;
        let request = BlockInfo { piece_idx: block.piece_idx, offset: block.offset, len: block.data.len() };
        proof {
            lemma_without(s0.requests_out, request);
        }
        if !remove_request(&mut self.requests_out, &request) {
            proof {
                assert(acts@ =~= a0 + Seq::<SessionAction>::empty());
            }
            return;
        }
        let ghost s1 = self@;
        proof {
            lemma_find_part(picker@.parts, request.piece_idx, 0);
        }
        match picker.received_block(&request) {
            None => {
                proof {
                    assert(acts@ =~= a0 + Seq::<SessionAction>::empty());
                }
            },
            Some(dup) => {
                if !dup {
                    let n = block.data.len() as u64;
                    self.state.throughput.down = self.state.throughput.down + n;
                    self.state.changed = true;
                    acts.push(SessionAction::WriteBlock(block));
                    proof {
                        assert(acts@ =~= a0 + seq![SessionAction::WriteBlock(block)]);
                    }
                } else {
                    proof {
                        assert(acts@ =~= a0 + Seq::<SessionAction>::empty());
                    }
                }
            },
        }
    }

    /// Takes in a message before the end of the introduction, as
    /// `msg_step` says.
    #[verifier::spinoff_prover]
    #[verifier::rlimit(60)]
    fn step(&mut self, picker: &mut Picker, info: &TorrentInfo, msg: Message) -> (r: Result<
        Vec<SessionAction>,
        PeerError,
    >)
        requires
            session_ok(old(self)@, old(picker)@, *info),
            msg_ok(old(self)@, old(picker)@, msg),
        ensures
            match msg_step(old(self)@, old(picker)@, *info, msg) {
                Step::Refused(Refusal::UnexpectedBitfield) => r matches Err(PeerError::UnexpectedBitfield)
                    && final(self)@ == old(self)@ && final(picker)@ == old(picker)@,
                Step::Refused(Refusal::InvalidMessage) => r matches Err(PeerError::InvalidMessage)
                    && final(self)@ == old(self)@ && final(picker)@ == old(picker)@,
                Step::Done(s1, p1, a1) => {
                    &&& r matches Ok(a) && a@ == a1
                    &&& final(self)@ == s1
                    &&& final(picker)@ == p1
                    &&& session_ok(final(self)@, final(picker)@, *info)
                },
            },
    {
        let ghost s0 = self@;
        let ghost p0 = picker@;
        let mut acts: Vec<SessionAction> = Vec::new();
        match msg {
            Message::Bitfield(bf) => {
                if self.state.conn_state != ConnState::Introducing {
                    return Err(PeerError::UnexpectedBitfield);
                }
                let mut bitfield = bf;
                bitfield.resize(info.num_pieces as usize, false);
                proof {
                    assert(bitfield@ =~= fit_bits(bf@, info.num_pieces as int));
                }
                let interested = picker.bitfield_update(&bitfield);
                let n = bitfield.count_ones();
                self.state.num_pieces = n;
                self.state.changed = true;
                self.bitfield = bitfield;
                self.update_interest(interested, &mut acts);
                proof {
                    assert(acts@.skip(0) =~= acts@);
                }
            },
            Message::KeepAlive => {},
            Message::Choke => {
                if !self.state.peer_choking {
                    self.state.peer_choking = true;
                    self.free_requests_out(picker);
                }
            },
            Message::Unchoke => {
                if self.state.peer_choking {
                    self.state.peer_choking = false;
                    if self.state.interested {
                        self.make_requests(picker, info, &mut acts);
                    } else {
                        proof {
                            assert(acts@ =~= Seq::<SessionAction>::empty());
                        }
                    }
                }
            },
            Message::Interested => {
                if !self.state.peer_interested {
                    self.state.peer_interested = true;
                    acts.push(SessionAction::Send(Message::Unchoke));
                    self.state.choked = false;
                }
            },
            Message::NotInterested => {
                self.state.peer_interested = false;
            },
            Message::Block(block) => {
                let ghost b = block;
                self.handle_block(picker, info, block, &mut acts);
                let ghost a1 = acts@;
                self.make_requests(picker, info, &mut acts);
            },
            Message::Request(request) => {
                if self.state.choked {
                    return Err(PeerError::InvalidMessage);
                }
                if !request_is_valid(&request, info) {
                    return Err(PeerError::InvalidMessage);
                }
                if !contains_request(self.requests_in.as_slice(), &request) {
                    self.requests_in.push(request);
                    acts.push(SessionAction::ReadBlock(request));
                    proof {
                        assert(self@.requests_in.no_duplicates());
                    }
                }
            },
            Message::Have { idx } => {
                if idx >= info.num_pieces {
                    return Err(PeerError::InvalidMessage);
                }
                let i = idx as usize;
                if !self.bitfield.get(i) {
                    proof {
                        lemma_count_true_set(self@.bitfield, i as int);
                        lemma_count_true_le(self@.bitfield.update(i as int, true));
                    }
                    self.bitfield.set(i, true);
                    self.state.num_pieces = self.state.num_pieces + 1;
                    self.state.changed = true;
                    let interested = picker.increment_piece(i);
                    self.update_interest(interested, &mut acts);
                    proof {
                        assert(acts@.skip(0) =~= acts@);
                    }
                }
            },
            Message::Cancel(request) => {
                if !request_is_valid(&request, info) {
                    return Err(PeerError::InvalidMessage);
                }
                proof {
                    lemma_without(self@.requests_in, request);
                }
                remove_request(&mut self.requests_in, &request);
            },
            Message::Port { .. } => {
                proof {
                    assert(false);
                }
            },
        }
        Ok(acts)
    }

    /// Takes in a message from the peer: changes the session and the picker
    /// as `msg_step` says, and at the end of the introduction either ends
    /// the session, where neither side has a piece, or connects it. Gives
    /// what is to be sent or done in answer, or the error that ends the
    /// session.
    pub fn handle_msg(&mut self, picker: &mut Picker, info: &TorrentInfo, msg: Message) -> (r: Result<
        Vec<SessionAction>,
        PeerError,
    >)
        requires
            session_ok(old(self)@, old(picker)@, *info),
            msg_ok(old(self)@, old(picker)@, msg),
        ensures
            match msg_step(old(self)@, old(picker)@, *info, msg) {
                Step::Refused(Refusal::UnexpectedBitfield) => r matches Err(PeerError::UnexpectedBitfield)
                    && final(self)@ == old(self)@ && final(picker)@ == old(picker)@,
                Step::Refused(Refusal::InvalidMessage) => r matches Err(PeerError::InvalidMessage)
                    && final(self)@ == old(self)@ && final(picker)@ == old(picker)@,
                Step::Done(s1, p1, a1) => {
                    let (s2, a2) = introduce(s1, p1, a1);
                    &&& r matches Ok(a) && a@ == a2
                    &&& final(self)@ == s2
                    &&& final(picker)@ == p1
                    &&& session_ok(final(self)@, final(picker)@, *info)
                },
            },
    {
        let mut acts = match self.step(picker, info, msg) {
            Ok(a) => a,
            Err(e) => {
                return Err(e);
            },
        };
        if self.state.conn_state == ConnState::Introducing {
            if picker.has_no_piece() && self.bitfield.not_any() {
                acts.push(SessionAction::Shutdown);
                return Ok(acts);
            }
            self.state.conn_state = ConnState::Connected;
            self.state.changed = true;
        }
        Ok(acts)
    }

    /// Whether `msg` can be taken in, as `msg_ok` says: a session is not to
    /// be handed a message that cannot.
    pub fn accepts(&self, picker: &Picker, msg: &Message) -> (r: bool)
        requires
            picker@.wf(),
        ensures
            r == msg_ok(self@, picker@, *msg),
    {
        if !picker.counts_below_max() {
            return false;
        }
        match msg {
            Message::Port { .. } => false,
            Message::Request(r) => r.len <= usize::MAX - r.offset,
            Message::Cancel(r) => r.len <= usize::MAX - r.offset,
            Message::Block(b) => {
                let len = b.data.len();
                if len as u64 > u64::MAX - self.state.throughput.down {
                    return false;
                }
                let r = BlockInfo { piece_idx: b.piece_idx, offset: b.offset, len };
                if contains_request(self.requests_out.as_slice(), &r) {
                    picker.block_pending(&r)
                } else {
                    true
                }
            },
            Message::Choke => {
                let mut i: usize = 0;
                while i < self.requests_out.len()
                    invariant
                        0 <= i <= self.requests_out@.len(),
                        picker@.wf(),
                        *msg is Choke,
                        forall|k: int| 0 <= k < picker@.freq.len() ==> #[trigger] picker@.freq[k] < usize::MAX,
                        self@.requests_out == self.requests_out@,
                        forall|k: int| 0 <= k < i ==> requests_fit_one(#[trigger] self.requests_out@[k], picker@.parts),
                    decreases self.requests_out@.len() - i,
                {
                    if !picker.request_fits(&self.requests_out[i]) {
                        proof {
                            let bad = self.requests_out@[i as int];
                            let j = choose|j: int|
                                0 <= j < picker@.parts.len() && #[trigger] picker@.parts[j].idx == bad.piece_idx
                                    && !(bad.offset / BLOCK_SIZE < picker@.parts[j].states.len());
                            assert(picker@.parts[j].idx == self@.requests_out[i as int].piece_idx);
                            assert(!requests_fit(self@.requests_out, picker@.parts));
                        }
                        return false;
                    }
                    i = i + 1;
                }
                proof {
                    assert forall|a: int, j: int|
                        0 <= a < self@.requests_out.len() && 0 <= j < picker@.parts.len() && #[trigger] picker@.parts[j].idx
                            == #[trigger] self@.requests_out[a].piece_idx implies self@.requests_out[a].offset / BLOCK_SIZE
                        < picker@.parts[j].states.len() by {
                        assert(requests_fit_one(self.requests_out@[a], picker@.parts));
                    }
                }
                true
            },
            _ => true,
        }
    }

    /// The messages to send once piece `idx` is written.
    pub fn handle_written_piece(&self, idx: usize) -> (msgs: Vec<Message>)
        requires
            idx < self@.bitfield.len(),
            self@.bitfield.len() <= u32::MAX,
        ensures
            msgs@ == written_msgs(self@, idx),
    {
        let mut msgs: Vec<Message> = Vec::new();
        if !self.bitfield.get(idx) {
            msgs.push(Message::Have { idx: idx as u32 });
        }
        let ghost head = msgs@;
        proof {
            assert(head == (if !self@.bitfield[idx as int] {
                seq![Message::Have { idx: idx as u32 }]
            } else {
                Seq::<Message>::empty()
            }));
            assert(self.requests_out@.take(0) =~= Seq::<BlockInfo>::empty());
            assert(msgs@ =~= head + cancels(self.requests_out@.take(0), idx));
        }
        let mut i: usize = 0;
        while i < self.requests_out.len()
            invariant
                0 <= i <= self.requests_out@.len(),
                msgs@ == head + cancels(self.requests_out@.take(i as int), idx),
            decreases self.requests_out@.len() - i,
        {
            let b = self.requests_out[i];
            proof {
                let t = self.requests_out@.take(i + 1);
                assert(t.drop_last() =~= self.requests_out@.take(i as int));
                assert(t.last() == b);
            }
            if b.piece_idx == idx {
                msgs.push(Message::Cancel(b));
                proof {
                    assert(msgs@ =~= head + (cancels(self.requests_out@.take(i as int), idx) + seq![Message::Cancel(b)]));
                }
            } else {
                proof {
                    assert(msgs@ =~= head + (cancels(self.requests_out@.take(i as int), idx) + Seq::<Message>::empty()));
                }
            }
            i = i + 1;
        }
        proof {
            assert(self.requests_out@.take(i as int) =~= self.requests_out@);
        }
        msgs
    }

    /// Answers a request of the peer with a block read from disk: where the
    /// request is held, it is dropped, the bytes are counted, and the block
    /// is to be sent.
    pub fn send_block(&mut self, block: Block) -> (m: Option<Message>)
        requires
            old(self)@.state.throughput.up + block.data.bytes().len() <= u64::MAX,
            old(self)@.requests_in.no_duplicates(),
        ensures
            ({
                let r = block_request(block);
                if old(self)@.requests_in.contains(r) {
                    &&& m == Some(Message::Block(block))
                    &&& final(self)@ == (SessionView {
                        requests_in: without(old(self)@.requests_in, r),
                        state: SessionState {
                            throughput: Transferred {
                                up: (old(self)@.state.throughput.up + r.len) as u64,
                                ..old(self)@.state.throughput
                            },
                            changed: true,
                            ..old(self)@.state
                        },
                        ..old(self)@
                    })
                } else {
                    m is None && final(self)@ == old(self)@
                }
            }),
            final(self)@.requests_in.no_duplicates(),
    {
        let request = BlockInfo { piece_idx: block.piece_idx, offset: block.offset, len: block.data.len() };
        proof {
            lemma_without(self@.requests_in, request);
        }
        if !remove_request(&mut self.requests_in, &request) {
            return None;
        }
        self.state.throughput.up = self.state.throughput.up + request.len as u64;
        self.state.changed = true;
        Some(Message::Block(block))
    }

    /// The once-a-second check at `now`: an idle session times out;
    /// otherwise gives whether the state changed since the last check, and
    /// clears that mark.
    pub fn tick(&mut self, now: u64) -> (r: Result<bool, PeerError>)
        requires
            old(self)@.state.connect_time is Some,
        ensures
            if idle_too_long(old(self)@.state, now) {
                r matches Err(PeerError::Timeout) && final(self)@ == old(self)@
            } else {
                &&& r == Ok::<bool, PeerError>(old(self)@.state.changed)
                &&& final(self)@ == (SessionView {
                    state: SessionState { changed: false, ..old(self)@.state },
                    ..old(self)@
                })
            },
    {
        let connected = match self.state.connect_time {
            Some(t) => t,
            None => {
                proof {
                    assert(false);
                }
                0
            },
        };
        if !self.state.interested && !self.state.peer_interested && crate::tracker::elapsed_at_least(
            connected,
            now,
            30,
        ) {
            return Err(PeerError::Timeout);
        }
        let changed = self.state.changed;
        self.state.changed = false;
        Ok(changed)
    }
}

} // verus!
