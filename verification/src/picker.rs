//! Choosing the blocks to request from a peer: first from pieces already
//! begun, then from new pieces, and once every piece has been begun, blocks
//! that are requested but not yet received (the end game).

use vstd::prelude::*;
use crate::bitfield::{count_true, max_bits, Bitfield};
use crate::block::{spec_num_blocks, BlockInfo};
use crate::partial_piece::{block_request, lemma_pick_from_end_game, lemma_pick_from_facts, lemma_pick_from_some, pick_from, BlockState, PartialPiece, PartialView};
use crate::piece_picker::{candidate, first_pickable, pick_reads_past, pickable, Pieces};
use crate::stats::PieceStats;
use crate::torrent::TorrentState;
use crate::BLOCK_SIZE;

verus! {

/// The model of a picker: the frequency, partial flag and possession of
/// every piece, the pieces being downloaded, and the torrent's geometry.
pub struct PickerView {
    pub freq: Seq<usize>,
    pub partial: Seq<bool>,
    pub have: Seq<bool>,
    pub parts: Seq<PartialView>,
    pub num_pieces: u32,
    pub piece_len: usize,
    pub last_piece_len: usize,
}

/// The models of a sequence of partial pieces.
pub open spec fn parts_view(v: Seq<PartialPiece>) -> Seq<PartialView> {
    v.map_values(|p: PartialPiece| p@)
}

/// Whether partial piece `p` is consistent with a picker of `num_pieces`
/// pieces whose partial flags are `partial`.
pub open spec fn part_ok(p: PartialView, num_pieces: u32, partial: Seq<bool>) -> bool {
    &&& p.wf()
    &&& p.idx < num_pieces
    &&& partial[p.idx as int]
}

impl PickerView {
    /// Every piece is counted once in each table; each partial piece is
    /// well formed, flagged partial, and appears once.
    pub open spec fn wf(self) -> bool {
        &&& self.have.len() == self.num_pieces
        &&& self.freq.len() == self.num_pieces
        &&& self.partial.len() == self.num_pieces
        &&& forall|i: int| 0 <= i < self.parts.len() ==> part_ok(#[trigger] self.parts[i], self.num_pieces, self.partial)
        &&& forall|i: int, j: int|
            0 <= i < j < self.parts.len() ==> #[trigger] self.parts[i].idx != #[trigger] self.parts[j].idx
    }

    /// Length of piece `idx`: the last piece may be shorter.
    pub open spec fn piece_len_of(self, idx: int) -> usize {
        if idx == self.num_pieces - 1 { self.last_piece_len } else { self.piece_len }
    }
}

/// The block states of a piece of `len` bytes that has just been begun.
pub open spec fn fresh_states(len: usize) -> Seq<BlockState> {
    Seq::new(spec_num_blocks(len as int) as u32 as nat, |i: int| BlockState::Free)
}

/// Picking up to `remaining` blocks from the partial pieces `parts[from..]`
/// in order, skipping the pieces that the peer's bitfield `bf` does not
/// hold. Gives the requests and the pieces after; `None` where `bf` is too
/// short to say, or where a free block is met in end game.
pub open spec fn pick_in_parts(
    parts: Seq<PartialView>,
    from: int,
    remaining: int,
    end_game: bool,
    prev: Seq<BlockInfo>,
    bf: Seq<bool>,
) -> Option<(Seq<BlockInfo>, Seq<PartialView>)>
    decreases parts.len() - from,
{
    if from < 0 || from >= parts.len() || remaining <= 0 {
        Some((Seq::empty(), parts))
    } else {
        let p = parts[from];
        if p.idx >= bf.len() {
            None
        } else if !bf[p.idx as int] {
            pick_in_parts(parts, from + 1, remaining, end_game, prev, bf)
        } else {
            match pick_from(p.states, 0, remaining, end_game, prev, p.idx, p.len) {
                Some((bs, st)) => {
                    let q = PartialView { idx: p.idx, len: p.len, states: st };
                    match pick_in_parts(parts.update(from, q), from + 1, remaining - bs.len(), end_game, prev, bf) {
                        Some((bs2, ps)) => Some((bs + bs2, ps)),
                        None => None,
                    }
                },
                None => None,
            }
        }
    }
}

/// The picker `v` with the parts `ps`.
pub open spec fn with_parts(v: PickerView, ps: Seq<PartialView>) -> PickerView {
    PickerView {
        freq: v.freq,
        partial: v.partial,
        have: v.have,
        parts: ps,
        num_pieces: v.num_pieces,
        piece_len: v.piece_len,
        last_piece_len: v.last_piece_len,
    }
}

/// The picker `v` after beginning piece `k`, with block states `st`.
pub open spec fn begin_piece(v: PickerView, k: int, st: Seq<BlockState>) -> PickerView {
    PickerView {
        freq: v.freq,
        partial: v.partial.update(k, true),
        have: v.have,
        parts: v.parts.push(PartialView { idx: k as usize, len: v.piece_len_of(k), states: st }),
        num_pieces: v.num_pieces,
        piece_len: v.piece_len,
        last_piece_len: v.last_piece_len,
    }
}

/// Beginning new pieces, scanning from piece `k` on, while requests remain;
/// once no piece can be begun, the end game over all partial pieces.
/// `None` where the scan reads past the end of `bf`, or where the end game
/// meets a free block.
pub open spec fn pick_new_parts(
    v: PickerView,
    bf: Seq<bool>,
    k: int,
    remaining: int,
    prev: Seq<BlockInfo>,
) -> Option<(Seq<BlockInfo>, PickerView)>
    decreases v.have.len() - k,
{
    if remaining <= 0 {
        Some((Seq::empty(), v))
    } else if k < 0 || k >= v.have.len() {
        match pick_in_parts(v.parts, 0, remaining, true, prev, bf) {
            Some((bs, ps)) => Some((bs, with_parts(v, ps))),
            None => None,
        }
    } else if candidate(v.freq, v.partial, v.have, k) && k >= bf.len() {
        None
    } else if pickable(v.freq, v.partial, v.have, bf, k) {
        let len = v.piece_len_of(k);
        match pick_from(fresh_states(len), 0, remaining, false, prev, k as usize, len) {
            Some((bs, st)) => match pick_new_parts(begin_piece(v, k, st), bf, k + 1, remaining - bs.len(), prev) {
                Some((bs2, v2)) => Some((bs + bs2, v2)),
                None => None,
            },
            None => None,
        }
    } else {
        pick_new_parts(v, bf, k + 1, remaining, prev)
    }
}

/// Number of requests wanted: the target queue length less the requests
/// already outstanding, or none.
pub open spec fn wanted(prev: Seq<BlockInfo>, target: int) -> int {
    if target > prev.len() { target - prev.len() } else { 0 }
}

/// What picking blocks gives: the requests, and the picker after.
pub open spec fn pick_blocks_spec(v: PickerView, prev: Seq<BlockInfo>, target: int, bf: Seq<bool>) -> Option<
    (Seq<BlockInfo>, PickerView),
> {
    let remaining = wanted(prev, target);
    if remaining == 0 {
        Some((Seq::empty(), v))
    } else {
        match pick_in_parts(v.parts, 0, remaining, false, prev, bf) {
            Some((bs, ps)) => match pick_new_parts(with_parts(v, ps), bf, 0, remaining - bs.len(), prev) {
                Some((bs2, v2)) => Some((bs + bs2, v2)),
                None => None,
            },
            None => None,
        }
    }
}

/// Whether no block of `states` is free.
pub open spec fn no_free(states: Seq<BlockState>) -> bool {
    forall|k: int| 0 <= k < states.len() ==> states[k] != BlockState::Free
}

/// What picking from partial pieces keeps: each piece's index, length and
/// number of blocks, the pieces before `from`, and no more requests than
/// asked for; a pick that falls short of `remaining` has visited every piece
/// from `from` on, and outside end game left no free block in those the
/// peer has.
pub proof fn lemma_pick_in_parts_facts(
    parts: Seq<PartialView>,
    from: int,
    remaining: int,
    end_game: bool,
    prev: Seq<BlockInfo>,
    bf: Seq<bool>,
)
    requires
        0 <= from,
        pick_in_parts(parts, from, remaining, end_game, prev, bf) is Some,
    ensures
        pick_in_parts(parts, from, remaining, end_game, prev, bf) matches Some((bs, ps)) && {
            &&& ps.len() == parts.len()
            &&& bs.len() <= if remaining > 0 { remaining } else { 0 }
            &&& forall|j: int| 0 <= j < ps.len() ==> {
                &&& (#[trigger] ps[j]).idx == parts[j].idx
                &&& ps[j].len == parts[j].len
                &&& ps[j].states.len() == parts[j].states.len()
                &&& j < from ==> ps[j] == parts[j]
            }
            &&& bs.len() < remaining ==> forall|j: int| from <= j < ps.len() ==> {
                &&& (#[trigger] ps[j]).idx < bf.len()
                &&& (!end_game && bf[ps[j].idx as int]) ==> no_free(ps[j].states)
            }
        },
    decreases parts.len() - from,
{
    if from >= parts.len() || remaining <= 0 {
    } else {
        let p = parts[from];
        if !bf[p.idx as int] {
            lemma_pick_in_parts_facts(parts, from + 1, remaining, end_game, prev, bf);
        } else {
            lemma_pick_from_facts(p.states, 0, remaining, end_game, prev, p.idx, p.len);
            let (bs1, st) = pick_from(p.states, 0, remaining, end_game, prev, p.idx, p.len)->Some_0;
            let q = PartialView { idx: p.idx, len: p.len, states: st };
            let parts2 = parts.update(from, q);
            lemma_pick_in_parts_facts(parts2, from + 1, remaining - bs1.len(), end_game, prev, bf);
            let (bs2, ps) = pick_in_parts(parts2, from + 1, remaining - bs1.len(), end_game, prev, bf)->Some_0;
            assert(ps[from] == q);
        }
    }
}

/// In end game, picking from partial pieces succeeds where `bf` covers every
/// piece from `from` on and no piece that the peer has holds a free block.
pub proof fn lemma_pick_in_parts_end_game(
    parts: Seq<PartialView>,
    from: int,
    remaining: int,
    prev: Seq<BlockInfo>,
    bf: Seq<bool>,
)
    requires
        0 <= from,
        forall|j: int| from <= j < parts.len() ==> (#[trigger] parts[j]).idx < bf.len() && (bf[parts[j].idx as int]
            ==> no_free(parts[j].states)),
    ensures
        pick_in_parts(parts, from, remaining, true, prev, bf) is Some,
    decreases parts.len() - from,
{
    if from >= parts.len() || remaining <= 0 {
    } else {
        let p = parts[from];
        if !bf[p.idx as int] {
            lemma_pick_in_parts_end_game(parts, from + 1, remaining, prev, bf);
        } else {
            lemma_pick_from_end_game(p.states, 0, remaining, prev, p.idx, p.len);
            lemma_pick_from_facts(p.states, 0, remaining, true, prev, p.idx, p.len);
            let (bs1, st) = pick_from(p.states, 0, remaining, true, prev, p.idx, p.len)->Some_0;
            let q = PartialView { idx: p.idx, len: p.len, states: st };
            let parts2 = parts.update(from, q);
            lemma_pick_in_parts_end_game(parts2, from + 1, remaining - bs1.len(), prev, bf);
        }
    }
}

/// Whether the scan for a new piece passes piece `m` by: the piece cannot be
/// picked, and the scan does not read past the end of `bf` there.
pub open spec fn skipped(v: PickerView, bf: Seq<bool>, m: int) -> bool {
    &&& !pickable(v.freq, v.partial, v.have, bf, m)
    &&& !(candidate(v.freq, v.partial, v.have, m) && m >= bf.len())
}

/// Whether the scan passes by every piece before `k`.
pub open spec fn scanned(v: PickerView, bf: Seq<bool>, k: int) -> bool {
    forall|m: int| 0 <= m < k ==> #[trigger] skipped(v, bf, m)
}

/// A scan from the first piece finds what a scan from `k` finds, where every
/// piece before `k` is passed by.
proof fn lemma_scanned_prefix(v: PickerView, bf: Seq<bool>, k: int)
    requires
        0 <= k <= v.have.len(),
        scanned(v, bf, k),
    ensures
        first_pickable(v.freq, v.partial, v.have, bf, 0) == first_pickable(v.freq, v.partial, v.have, bf, k),
        pick_reads_past(v.freq, v.partial, v.have, bf, 0) == pick_reads_past(v.freq, v.partial, v.have, bf, k),
    decreases k,
{
    if k > 0 {
        assert(skipped(v, bf, k - 1));
        lemma_scanned_prefix(v, bf, k - 1);
    }
}

/// Where beginning new pieces from `k` succeeds, the scan from `k` does not
/// read past `bf`, and picking resumes at the piece that the scan finds, or
/// goes to the end game if it finds none.
proof fn lemma_scan(v: PickerView, bf: Seq<bool>, k: int, remaining: int, prev: Seq<BlockInfo>)
    requires
        0 <= k <= v.have.len(),
        remaining > 0,
        pick_new_parts(v, bf, k, remaining, prev) is Some,
    ensures
        !pick_reads_past(v.freq, v.partial, v.have, bf, k),
        match first_pickable(v.freq, v.partial, v.have, bf, k) {
            Some(i) => {
                &&& k <= i < v.have.len()
                &&& i < bf.len()
                &&& pickable(v.freq, v.partial, v.have, bf, i)
                &&& pick_new_parts(v, bf, k, remaining, prev) == pick_new_parts(v, bf, i, remaining, prev)
                &&& forall|m: int| k <= m < i ==> #[trigger] skipped(v, bf, m)
            },
            None => {
                &&& pick_new_parts(v, bf, k, remaining, prev) == pick_new_parts(
                    v,
                    bf,
                    v.have.len() as int,
                    remaining,
                    prev,
                )
                &&& forall|m: int| k <= m < v.have.len() ==> #[trigger] skipped(v, bf, m)
            },
        },
    decreases v.have.len() - k,
{
    if k < v.have.len() {
        if !pickable(v.freq, v.partial, v.have, bf, k) {
            lemma_scan(v, bf, k + 1, remaining, prev);
            assert(skipped(v, bf, k));
        }
    }
}

/// Outside end game, picking from partial pieces succeeds where `bf` covers
/// every piece from `from` on.
proof fn lemma_pick_in_parts_some(
    parts: Seq<PartialView>,
    from: int,
    remaining: int,
    prev: Seq<BlockInfo>,
    bf: Seq<bool>,
)
    requires
        0 <= from,
        forall|j: int| from <= j < parts.len() ==> (#[trigger] parts[j]).idx < bf.len(),
    ensures
        pick_in_parts(parts, from, remaining, false, prev, bf) is Some,
    decreases parts.len() - from,
{
    if from >= parts.len() || remaining <= 0 {
    } else {
        let p = parts[from];
        if !bf[p.idx as int] {
            lemma_pick_in_parts_some(parts, from + 1, remaining, prev, bf);
        } else {
            lemma_pick_from_some(p.states, 0, remaining, prev, p.idx, p.len);
            lemma_pick_from_facts(p.states, 0, remaining, false, prev, p.idx, p.len);
            let (bs1, st) = pick_from(p.states, 0, remaining, false, prev, p.idx, p.len)->Some_0;
            let q = PartialView { idx: p.idx, len: p.len, states: st };
            lemma_pick_in_parts_some(parts.update(from, q), from + 1, remaining - bs1.len(), prev, bf);
        }
    }
}

/// Beginning new pieces from `k` succeeds, and asks for no more than
/// `remaining` requests, where `bf` covers every piece and, while requests
/// remain, no partial piece that the peer has holds a free block.
proof fn lemma_pick_new_parts_total(v: PickerView, bf: Seq<bool>, k: int, remaining: int, prev: Seq<BlockInfo>)
    requires
        0 <= k,
        v.have.len() <= bf.len(),
        forall|j: int| 0 <= j < v.parts.len() ==> (#[trigger] v.parts[j]).idx < bf.len(),
        remaining > 0 ==> forall|j: int| 0 <= j < v.parts.len() && bf[(#[trigger] v.parts[j]).idx as int]
            ==> no_free(v.parts[j].states),
    ensures
        pick_new_parts(v, bf, k, remaining, prev) matches Some((bs, v2)) && bs.len() <= if remaining > 0 {
            remaining
        } else {
            0
        },
    decreases v.have.len() - k,
{
    if remaining <= 0 {
    } else if k >= v.have.len() {
        lemma_pick_in_parts_end_game(v.parts, 0, remaining, prev, bf);
        lemma_pick_in_parts_facts(v.parts, 0, remaining, true, prev, bf);
    } else if pickable(v.freq, v.partial, v.have, bf, k) {
        let len = v.piece_len_of(k);
        lemma_pick_from_some(fresh_states(len), 0, remaining, prev, k as usize, len);
        lemma_pick_from_facts(fresh_states(len), 0, remaining, false, prev, k as usize, len);
        let (bs1, st) = pick_from(fresh_states(len), 0, remaining, false, prev, k as usize, len)->Some_0;
        let v2 = begin_piece(v, k, st);
        assert forall|j: int| 0 <= j < v2.parts.len() implies (#[trigger] v2.parts[j]).idx < bf.len() by {
            if j < v.parts.len() {
                assert(v2.parts[j] == v.parts[j]);
            }
        }
        if remaining - bs1.len() > 0 {
            assert forall|j: int| 0 <= j < v2.parts.len() && bf[(#[trigger] v2.parts[j]).idx as int] implies no_free(
                v2.parts[j].states,
            ) by {
                if j < v.parts.len() {
                    assert(v2.parts[j] == v.parts[j]);
                }
            }
        }
        lemma_pick_new_parts_total(v2, bf, k + 1, remaining - bs1.len(), prev);
    } else {
        lemma_pick_new_parts_total(v, bf, k + 1, remaining, prev);
    }
}

/// With a peer bitfield that covers every piece, picking blocks is always
/// defined: the scan for new pieces never reads past the bitfield, and the
/// end game never meets a free block. It asks for no more blocks than
/// wanted: the target queue length less the outstanding requests.
pub proof fn law_pick_blocks_defined(v: PickerView, prev: Seq<BlockInfo>, target: int, bf: Seq<bool>)
    requires
        v.wf(),
        bf.len() >= v.num_pieces,
    ensures
        pick_blocks_spec(v, prev, target, bf) matches Some((bs, v2)) && bs.len() <= wanted(prev, target),
{
    let remaining = wanted(prev, target);
    if remaining != 0 {
        assert forall|j: int| 0 <= j < v.parts.len() implies (#[trigger] v.parts[j]).idx < bf.len() by {
            assert(part_ok(v.parts[j], v.num_pieces, v.partial));
        }
        lemma_pick_in_parts_some(v.parts, 0, remaining, prev, bf);
        lemma_pick_in_parts_facts(v.parts, 0, remaining, false, prev, bf);
        let (bs, ps) = pick_in_parts(v.parts, 0, remaining, false, prev, bf)->Some_0;
        let v1 = with_parts(v, ps);
        assert forall|j: int| 0 <= j < v1.parts.len() implies (#[trigger] v1.parts[j]).idx < bf.len() by {
            assert(v1.parts[j].idx == v.parts[j].idx);
        }
        lemma_pick_new_parts_total(v1, bf, 0, remaining - bs.len(), prev);
    }
}

/// Whether `r` asks for one of the blocks of partial piece `p`: block `k`
/// of the piece, at `k * BLOCK_SIZE` and with the block's length.
pub open spec fn block_of(r: BlockInfo, p: PartialView) -> bool {
    exists|k: int| 0 <= k < p.states.len() && r == #[trigger] block_request(p.idx, p.len, k)
}

/// Whether `r` asks for a block of a piece that the peer has (by `bf`),
/// one of the pieces being downloaded, `parts`.
pub open spec fn request_ok(r: BlockInfo, parts: Seq<PartialView>, bf: Seq<bool>) -> bool {
    &&& r.piece_idx < bf.len()
    &&& bf[r.piece_idx as int]
    &&& exists|j: int| 0 <= j < parts.len() && block_of(r, #[trigger] parts[j])
}

/// Whether two partial pieces are of the same piece, with the same length
/// and number of blocks.
pub open spec fn same_shape(p: PartialView, q: PartialView) -> bool {
    p.idx == q.idx && p.len == q.len && p.states.len() == q.states.len()
}

/// A request of a block of `a` is one of a block of `b`, where `b` begins
/// with pieces of the same shapes as those of `a`.
proof fn lemma_request_ok_shape(r: BlockInfo, a: Seq<PartialView>, b: Seq<PartialView>, bf: Seq<bool>)
    requires
        a.len() <= b.len(),
        forall|j: int| 0 <= j < a.len() ==> same_shape(#[trigger] a[j], b[j]),
        request_ok(r, a, bf),
    ensures
        request_ok(r, b, bf),
{
    let j = choose|j: int| 0 <= j < a.len() && block_of(r, #[trigger] a[j]);
    let k = choose|k: int| 0 <= k < a[j].states.len() && r == #[trigger] block_request(a[j].idx, a[j].len, k);
    assert(same_shape(a[j], b[j]));
    assert(r == block_request(b[j].idx, b[j].len, k));
    assert(block_of(r, b[j]));
}

/// Picking from one piece asks only for blocks of that piece.
proof fn lemma_pick_from_blocks(
    states: Seq<BlockState>,
    i: int,
    remaining: int,
    end_game: bool,
    prev: Seq<BlockInfo>,
    idx: usize,
    len: usize,
)
    requires
        0 <= i,
        pick_from(states, i, remaining, end_game, prev, idx, len) is Some,
    ensures
        pick_from(states, i, remaining, end_game, prev, idx, len) matches Some((bs, st)) && forall|m: int|
            #![trigger bs[m]]
            0 <= m < bs.len() ==> exists|k: int| 0 <= k < states.len() && bs[m] == #[trigger] block_request(idx, len, k),
    decreases states.len() - i,
{
    if i >= states.len() || remaining <= 0 {
    } else if states[i] == BlockState::Free {
        if !end_game {
            let s2 = states.update(i, BlockState::Requested);
            lemma_pick_from_blocks(s2, i + 1, remaining - 1, end_game, prev, idx, len);
            let (bs, st) = pick_from(states, i, remaining, end_game, prev, idx, len)->Some_0;
            let (bs2, st2) = pick_from(s2, i + 1, remaining - 1, end_game, prev, idx, len)->Some_0;
            assert forall|m: int| #![trigger bs[m]] 0 <= m < bs.len() implies exists|k: int|
                0 <= k < states.len() && bs[m] == #[trigger] block_request(idx, len, k) by {
                if m == 0 {
                    assert(bs[0] == block_request(idx, len, i));
                } else {
                    assert(bs[m] == bs2[m - 1]);
                }
            }
        }
    } else if end_game && states[i] == BlockState::Requested && !prev.contains(block_request(idx, len, i)) {
        lemma_pick_from_blocks(states, i + 1, remaining - 1, end_game, prev, idx, len);
        let (bs, st) = pick_from(states, i, remaining, end_game, prev, idx, len)->Some_0;
        let (bs2, st2) = pick_from(states, i + 1, remaining - 1, end_game, prev, idx, len)->Some_0;
        assert forall|m: int| #![trigger bs[m]] 0 <= m < bs.len() implies exists|k: int|
            0 <= k < states.len() && bs[m] == #[trigger] block_request(idx, len, k) by {
            if m == 0 {
                assert(bs[0] == block_request(idx, len, i));
            } else {
                assert(bs[m] == bs2[m - 1]);
            }
        }
    } else {
        lemma_pick_from_blocks(states, i + 1, remaining, end_game, prev, idx, len);
    }
}

/// Picking from partial pieces asks only for blocks of those pieces that
/// the peer has.
proof fn lemma_pick_in_parts_blocks(
    parts: Seq<PartialView>,
    from: int,
    remaining: int,
    end_game: bool,
    prev: Seq<BlockInfo>,
    bf: Seq<bool>,
)
    requires
        0 <= from,
        pick_in_parts(parts, from, remaining, end_game, prev, bf) is Some,
    ensures
        pick_in_parts(parts, from, remaining, end_game, prev, bf) matches Some((bs, ps)) && forall|m: int|
            0 <= m < bs.len() ==> request_ok(#[trigger] bs[m], parts, bf),
    decreases parts.len() - from,
{
    if from >= parts.len() || remaining <= 0 {
    } else {
        let p = parts[from];
        if !bf[p.idx as int] {
            lemma_pick_in_parts_blocks(parts, from + 1, remaining, end_game, prev, bf);
        } else {
            lemma_pick_from_blocks(p.states, 0, remaining, end_game, prev, p.idx, p.len);
            lemma_pick_from_facts(p.states, 0, remaining, end_game, prev, p.idx, p.len);
            let (bs1, st) = pick_from(p.states, 0, remaining, end_game, prev, p.idx, p.len)->Some_0;
            let q = PartialView { idx: p.idx, len: p.len, states: st };
            let parts2 = parts.update(from, q);
            lemma_pick_in_parts_blocks(parts2, from + 1, remaining - bs1.len(), end_game, prev, bf);
            let (bs2, ps) = pick_in_parts(parts2, from + 1, remaining - bs1.len(), end_game, prev, bf)->Some_0;
            let bs = bs1 + bs2;
            assert forall|m: int| 0 <= m < bs.len() implies request_ok(#[trigger] bs[m], parts, bf) by {
                if m < bs1.len() {
                    let k = choose|k: int| 0 <= k < p.states.len() && bs1[m] == #[trigger] block_request(p.idx, p.len, k);
                    assert(bs[m] == block_request(parts[from].idx, parts[from].len, k));
                    assert(block_of(bs[m], parts[from]));
                } else {
                    assert(bs[m] == bs2[m - bs1.len()]);
                    assert(request_ok(bs2[m - bs1.len()], parts2, bf));
                    assert forall|j: int| 0 <= j < parts2.len() implies same_shape(#[trigger] parts2[j], parts[j]) by {
                        if j == from {
                            assert(parts2[j] == q);
                        }
                    }
                    lemma_request_ok_shape(bs[m], parts2, parts, bf);
                }
            }
        }
    }
}

/// Beginning new pieces keeps the shapes of the pieces already being
/// downloaded, and asks only for blocks of the pieces being downloaded
/// after, that the peer has.
proof fn lemma_pick_new_parts_blocks(v: PickerView, bf: Seq<bool>, k: int, remaining: int, prev: Seq<BlockInfo>)
    requires
        0 <= k,
        v.have.len() <= u32::MAX,
        pick_new_parts(v, bf, k, remaining, prev) is Some,
    ensures
        pick_new_parts(v, bf, k, remaining, prev) matches Some((bs, v2)) && {
            &&& v2.parts.len() >= v.parts.len()
            &&& forall|j: int| 0 <= j < v.parts.len() ==> same_shape(#[trigger] v.parts[j], v2.parts[j])
            &&& forall|m: int| 0 <= m < bs.len() ==> request_ok(#[trigger] bs[m], v2.parts, bf)
        },
    decreases v.have.len() - k,
{
    if remaining <= 0 {
    } else if k >= v.have.len() {
        lemma_pick_in_parts_blocks(v.parts, 0, remaining, true, prev, bf);
        lemma_pick_in_parts_facts(v.parts, 0, remaining, true, prev, bf);
        let (bs, ps) = pick_in_parts(v.parts, 0, remaining, true, prev, bf)->Some_0;
        assert forall|j: int| 0 <= j < v.parts.len() implies same_shape(#[trigger] v.parts[j], ps[j]) by {
            assert(ps[j].idx == v.parts[j].idx);
        }
        assert forall|m: int| 0 <= m < bs.len() implies request_ok(#[trigger] bs[m], ps, bf) by {
            lemma_request_ok_shape(bs[m], v.parts, ps, bf);
        }
    } else if pickable(v.freq, v.partial, v.have, bf, k) {
        let len = v.piece_len_of(k);
        lemma_pick_from_blocks(fresh_states(len), 0, remaining, false, prev, k as usize, len);
        lemma_pick_from_facts(fresh_states(len), 0, remaining, false, prev, k as usize, len);
        let (bs1, st) = pick_from(fresh_states(len), 0, remaining, false, prev, k as usize, len)->Some_0;
        let v1 = begin_piece(v, k, st);
        lemma_pick_new_parts_blocks(v1, bf, k + 1, remaining - bs1.len(), prev);
        let (bs2, v2) = pick_new_parts(v1, bf, k + 1, remaining - bs1.len(), prev)->Some_0;
        let bs = bs1 + bs2;
        let n = v.parts.len() as int;
        assert(v1.parts[n] == PartialView { idx: k as usize, len, states: st });
        assert forall|j: int| 0 <= j < v.parts.len() implies same_shape(#[trigger] v.parts[j], v2.parts[j]) by {
            assert(v1.parts[j] == v.parts[j]);
            assert(same_shape(v1.parts[j], v2.parts[j]));
        }
        assert(same_shape(v1.parts[n], v2.parts[n]));
        assert(k < bf.len());
        assert((k as usize) as int == k);
        assert forall|m: int| 0 <= m < bs.len() implies request_ok(#[trigger] bs[m], v2.parts, bf) by {
            if m < bs1.len() {
                let kk = choose|kk: int|
                    0 <= kk < fresh_states(len).len() && bs1[m] == #[trigger] block_request(k as usize, len, kk);
                assert(bs[m] == block_request(v2.parts[n].idx, v2.parts[n].len, kk));
                assert(block_of(bs[m], v2.parts[n]));
            } else {
                assert(bs[m] == bs2[m - bs1.len()]);
            }
        }
    } else {
        lemma_pick_new_parts_blocks(v, bf, k + 1, remaining, prev);
    }
}

/// What picking blocks asks for: no more blocks than wanted (the target
/// queue length less the outstanding requests), and only blocks of pieces
/// that the peer has and that are being downloaded after the pick, each
/// block `k` of its piece at `k * BLOCK_SIZE` with the block's length.
pub proof fn law_picked_requests(v: PickerView, prev: Seq<BlockInfo>, target: int, bf: Seq<bool>)
    requires
        v.wf(),
        bf.len() >= v.num_pieces,
    ensures
        pick_blocks_spec(v, prev, target, bf) matches Some((bs, v2)) && {
            &&& bs.len() <= wanted(prev, target)
            &&& forall|m: int| 0 <= m < bs.len() ==> request_ok(#[trigger] bs[m], v2.parts, bf)
        },
{
    law_pick_blocks_defined(v, prev, target, bf);
    let remaining = wanted(prev, target);
    if remaining != 0 {
        lemma_pick_in_parts_blocks(v.parts, 0, remaining, false, prev, bf);
        lemma_pick_in_parts_facts(v.parts, 0, remaining, false, prev, bf);
        let (bs1, ps) = pick_in_parts(v.parts, 0, remaining, false, prev, bf)->Some_0;
        let v1 = with_parts(v, ps);
        lemma_pick_new_parts_blocks(v1, bf, 0, remaining - bs1.len(), prev);
        let (bs2, v2) = pick_new_parts(v1, bf, 0, remaining - bs1.len(), prev)->Some_0;
        let bs = bs1 + bs2;
        assert forall|m: int| 0 <= m < bs.len() implies request_ok(#[trigger] bs[m], v2.parts, bf) by {
            if m < bs1.len() {
                assert(bs[m] == bs1[m]);
                assert forall|j: int| 0 <= j < v.parts.len() implies same_shape(#[trigger] v.parts[j], ps[j]) by {
                    assert(ps[j].idx == v.parts[j].idx);
                }
                lemma_request_ok_shape(bs[m], v.parts, ps, bf);
                lemma_request_ok_shape(bs[m], ps, v2.parts, bf);
            } else {
                assert(bs[m] == bs2[m - bs1.len()]);
            }
        }
    }
}

/// Outside end game, picking from one piece asks for blocks of that piece
/// from block `i` on, none twice.
proof fn lemma_pick_from_distinct(
    states: Seq<BlockState>,
    i: int,
    remaining: int,
    prev: Seq<BlockInfo>,
    idx: usize,
    len: usize,
)
    requires
        0 <= i,
        states.len() * BLOCK_SIZE <= usize::MAX,
    ensures
        pick_from(states, i, remaining, false, prev, idx, len) matches Some((bs, st)) && {
            &&& bs.no_duplicates()
            &&& forall|m: int| #![trigger bs[m]] 0 <= m < bs.len() ==> bs[m].piece_idx == idx && i * BLOCK_SIZE <= bs[m].offset
        },
    decreases states.len() - i,
{
    lemma_pick_from_some(states, i, remaining, prev, idx, len);
    if i >= states.len() || remaining <= 0 {
    } else if states[i] == BlockState::Free {
        let s2 = states.update(i, BlockState::Requested);
        lemma_pick_from_distinct(s2, i + 1, remaining - 1, prev, idx, len);
        let (bs, st) = pick_from(states, i, remaining, false, prev, idx, len)->Some_0;
        let (bs2, st2) = pick_from(s2, i + 1, remaining - 1, false, prev, idx, len)->Some_0;
        let n = states.len() as int;
        assert(i * 16384 < (i + 1) * 16384 && (i + 1) * 16384 <= n * 16384) by (nonlinear_arith)
            requires
                0 <= i < n,
        ;
        let b = block_request(idx, len, i);
        assert(b.offset == i * BLOCK_SIZE);
        assert(bs == seq![b] + bs2);
        assert forall|m: int| #![trigger bs[m]] 0 <= m < bs.len() implies bs[m].piece_idx == idx && i * BLOCK_SIZE
            <= bs[m].offset by {
            if m > 0 {
                assert(bs[m] == bs2[m - 1]);
            }
        }
        assert forall|a: int, c: int| 0 <= a < bs.len() && 0 <= c < bs.len() && a != c implies bs[a] != bs[c] by {
            if a > 0 && c > 0 {
                assert(bs[a] == bs2[a - 1]);
                assert(bs[c] == bs2[c - 1]);
            } else if a == 0 {
                assert(bs[c] == bs2[c - 1]);
            } else {
                assert(bs[a] == bs2[a - 1]);
            }
        }
    } else {
        lemma_pick_from_distinct(states, i + 1, remaining, prev, idx, len);
        let (bs, st) = pick_from(states, i, remaining, false, prev, idx, len)->Some_0;
        assert(i * 16384 <= (i + 1) * 16384) by (nonlinear_arith)
            requires
                0 <= i,
        ;
    }
}

/// Outside end game, picking from partial pieces of distinct pieces asks
/// for no block twice, and only for blocks of the pieces from `from` on.
proof fn lemma_pick_in_parts_distinct(
    parts: Seq<PartialView>,
    from: int,
    remaining: int,
    prev: Seq<BlockInfo>,
    bf: Seq<bool>,
)
    requires
        0 <= from,
        forall|j: int| 0 <= j < parts.len() ==> (#[trigger] parts[j]).idx < bf.len() && parts[j].states.len()
            * BLOCK_SIZE <= usize::MAX,
        forall|a: int, c: int| 0 <= a < c < parts.len() ==> #[trigger] parts[a].idx != #[trigger] parts[c].idx,
    ensures
        pick_in_parts(parts, from, remaining, false, prev, bf) matches Some((bs, ps)) && {
            &&& bs.no_duplicates()
            &&& forall|m: int| #![trigger bs[m]] 0 <= m < bs.len() ==> exists|j: int|
                from <= j < parts.len() && bs[m].piece_idx == #[trigger] parts[j].idx
        },
    decreases parts.len() - from,
{
    lemma_pick_in_parts_some(parts, from, remaining, prev, bf);
    if from >= parts.len() || remaining <= 0 {
    } else {
        let p = parts[from];
        if !bf[p.idx as int] {
            lemma_pick_in_parts_distinct(parts, from + 1, remaining, prev, bf);
            let (bs, ps) = pick_in_parts(parts, from, remaining, false, prev, bf)->Some_0;
            assert forall|m: int| #![trigger bs[m]] 0 <= m < bs.len() implies exists|j: int|
                from <= j < parts.len() && bs[m].piece_idx == #[trigger] parts[j].idx by {
                let j = choose|j: int| from + 1 <= j < parts.len() && bs[m].piece_idx == #[trigger] parts[j].idx;
                assert(from <= j);
            }
        } else {
            lemma_pick_from_distinct(p.states, 0, remaining, prev, p.idx, p.len);
            lemma_pick_from_facts(p.states, 0, remaining, false, prev, p.idx, p.len);
            let (bs1, st) = pick_from(p.states, 0, remaining, false, prev, p.idx, p.len)->Some_0;
            let q = PartialView { idx: p.idx, len: p.len, states: st };
            let parts2 = parts.update(from, q);
            assert forall|j: int| 0 <= j < parts2.len() implies (#[trigger] parts2[j]).idx < bf.len()
                && parts2[j].states.len() * BLOCK_SIZE <= usize::MAX by {
                if j != from {
                    assert(parts2[j] == parts[j]);
                }
            }
            assert forall|a: int, c: int| 0 <= a < c < parts2.len() implies #[trigger] parts2[a].idx
                != #[trigger] parts2[c].idx by {
                assert(parts2[a].idx == parts[a].idx);
                assert(parts2[c].idx == parts[c].idx);
            }
            lemma_pick_in_parts_distinct(parts2, from + 1, remaining - bs1.len(), prev, bf);
            let (bs2, ps) = pick_in_parts(parts2, from + 1, remaining - bs1.len(), false, prev, bf)->Some_0;
            let bs = bs1 + bs2;
            assert forall|m: int| #![trigger bs2[m]] 0 <= m < bs2.len() implies bs2[m].piece_idx != p.idx by {
                let j = choose|j: int| from + 1 <= j < parts2.len() && bs2[m].piece_idx == #[trigger] parts2[j].idx;
                assert(parts2[j].idx == parts[j].idx);
                assert(parts[from].idx != parts[j].idx);
            }
            assert forall|m: int| #![trigger bs[m]] 0 <= m < bs.len() implies exists|j: int|
                from <= j < parts.len() && bs[m].piece_idx == #[trigger] parts[j].idx by {
                if m < bs1.len() {
                    assert(bs[m] == bs1[m]);
                    assert(bs[m].piece_idx == parts[from].idx);
                } else {
                    assert(bs[m] == bs2[m - bs1.len()]);
                    let j = choose|j: int|
                        from + 1 <= j < parts2.len() && bs2[m - bs1.len()].piece_idx == #[trigger] parts2[j].idx;
                    assert(parts2[j].idx == parts[j].idx);
                }
            }
            assert forall|a: int, c: int| 0 <= a < bs.len() && 0 <= c < bs.len() && a != c implies bs[a] != bs[c] by {
                if a < bs1.len() && c < bs1.len() {
                    assert(bs[a] == bs1[a] && bs[c] == bs1[c]);
                } else if a >= bs1.len() && c >= bs1.len() {
                    assert(bs[a] == bs2[a - bs1.len()] && bs[c] == bs2[c - bs1.len()]);
                } else if a < bs1.len() {
                    assert(bs[a] == bs1[a] && bs[c] == bs2[c - bs1.len()]);
                    assert(bs2[c - bs1.len()].piece_idx != p.idx);
                } else {
                    assert(bs[c] == bs1[c] && bs[a] == bs2[a - bs1.len()]);
                    assert(bs2[a - bs1.len()].piece_idx != p.idx);
                }
            }
        }
    }
}

/// The requests of beginning new pieces from piece `k` on, before the end
/// game.
pub open spec fn pick_new_parts_fresh(
    v: PickerView,
    bf: Seq<bool>,
    k: int,
    remaining: int,
    prev: Seq<BlockInfo>,
) -> Seq<BlockInfo>
    decreases v.have.len() - k,
{
    if remaining <= 0 || k < 0 || k >= v.have.len() {
        Seq::empty()
    } else if candidate(v.freq, v.partial, v.have, k) && k >= bf.len() {
        Seq::empty()
    } else if pickable(v.freq, v.partial, v.have, bf, k) {
        let len = v.piece_len_of(k);
        match pick_from(fresh_states(len), 0, remaining, false, prev, k as usize, len) {
            Some((bs, st)) => bs + pick_new_parts_fresh(begin_piece(v, k, st), bf, k + 1, remaining - bs.len(), prev),
            None => Seq::empty(),
        }
    } else {
        pick_new_parts_fresh(v, bf, k + 1, remaining, prev)
    }
}

/// The requests of picking blocks before the end game: from the partial
/// pieces, then from new pieces.
pub open spec fn pick_blocks_fresh(v: PickerView, prev: Seq<BlockInfo>, target: int, bf: Seq<bool>) -> Seq<BlockInfo> {
    let remaining = wanted(prev, target);
    if remaining == 0 {
        Seq::empty()
    } else {
        match pick_in_parts(v.parts, 0, remaining, false, prev, bf) {
            Some((bs, ps)) => bs + pick_new_parts_fresh(with_parts(v, ps), bf, 0, remaining - bs.len(), prev),
            None => Seq::empty(),
        }
    }
}

/// Beginning new pieces asks first for the blocks of the new pieces, none
/// twice, each of a piece from `k` on that was not partial; the end game
/// comes after.
proof fn lemma_pick_new_parts_distinct(v: PickerView, bf: Seq<bool>, k: int, remaining: int, prev: Seq<BlockInfo>)
    requires
        0 <= k,
        pick_new_parts(v, bf, k, remaining, prev) is Some,
        v.have.len() <= u32::MAX,
        v.partial.len() == v.have.len(),
        v.piece_len + BLOCK_SIZE - 1 <= usize::MAX,
        v.last_piece_len + BLOCK_SIZE - 1 <= usize::MAX,
    ensures
        pick_new_parts(v, bf, k, remaining, prev) matches Some((bs, v2)) && {
            let f = pick_new_parts_fresh(v, bf, k, remaining, prev);
            &&& f.len() <= bs.len()
            &&& bs.take(f.len() as int) == f
            &&& f.no_duplicates()
            &&& forall|m: int| #![trigger f[m]] 0 <= m < f.len() ==> k <= f[m].piece_idx < v.have.len()
                && !v.partial[f[m].piece_idx as int]
        },
    decreases v.have.len() - k,
{
    if remaining <= 0 || k >= v.have.len() {
        let (bs, v2) = pick_new_parts(v, bf, k, remaining, prev)->Some_0;
        assert(bs.take(0) =~= Seq::<BlockInfo>::empty());
    } else if pickable(v.freq, v.partial, v.have, bf, k) {
        let len = v.piece_len_of(k);
        let n = spec_num_blocks(len as int) as u32 as int;
        assert(n <= spec_num_blocks(len as int));
        assert(n * BLOCK_SIZE <= len + BLOCK_SIZE - 1) by (nonlinear_arith)
            requires
                0 <= n <= (len + 16383) / 16384,
        ;
        lemma_pick_from_distinct(fresh_states(len), 0, remaining, prev, k as usize, len);
        lemma_pick_from_facts(fresh_states(len), 0, remaining, false, prev, k as usize, len);
        let (bs1, st) = pick_from(fresh_states(len), 0, remaining, false, prev, k as usize, len)->Some_0;
        let v1 = begin_piece(v, k, st);
        lemma_pick_new_parts_distinct(v1, bf, k + 1, remaining - bs1.len(), prev);
        let (bs2, v2) = pick_new_parts(v1, bf, k + 1, remaining - bs1.len(), prev)->Some_0;
        let f2 = pick_new_parts_fresh(v1, bf, k + 1, remaining - bs1.len(), prev);
        let bs = bs1 + bs2;
        let f = bs1 + f2;
        assert(f == pick_new_parts_fresh(v, bf, k, remaining, prev));
        assert(bs.take(f.len() as int) =~= f) by {
            assert forall|m: int| 0 <= m < f.len() implies bs[m] == f[m] by {
                if m >= bs1.len() {
                    assert(bs2.take(f2.len() as int)[m - bs1.len()] == f2[m - bs1.len()]);
                }
            }
        }
        assert((k as usize) as int == k);
        assert forall|m: int| #![trigger f[m]] 0 <= m < f.len() implies k <= f[m].piece_idx < v.have.len()
            && !v.partial[f[m].piece_idx as int] by {
            if m < bs1.len() {
                assert(f[m] == bs1[m]);
                assert(f[m].piece_idx == k);
            } else {
                assert(f[m] == f2[m - bs1.len()]);
                assert(v1.partial == v.partial.update(k, true));
                assert(k + 1 <= f[m].piece_idx);
                assert(!v1.partial[f[m].piece_idx as int]);
            }
        }
        assert forall|a: int, c: int| 0 <= a < f.len() && 0 <= c < f.len() && a != c implies f[a] != f[c] by {
            if a < bs1.len() && c < bs1.len() {
                assert(f[a] == bs1[a] && f[c] == bs1[c]);
            } else if a >= bs1.len() && c >= bs1.len() {
                assert(f[a] == f2[a - bs1.len()] && f[c] == f2[c - bs1.len()]);
            } else if a < bs1.len() {
                assert(f[a] == bs1[a] && f[c] == f2[c - bs1.len()]);
            } else {
                assert(f[c] == bs1[c] && f[a] == f2[a - bs1.len()]);
            }
        }
    } else {
        lemma_pick_new_parts_distinct(v, bf, k + 1, remaining, prev);
    }
}

/// Outside the end game, picking asks for no block twice: the requests
/// picked before the end game (from the partial pieces, then from new
/// pieces) come first and are distinct; the end game only adds after them.
pub proof fn law_pick_distinct_before_end_game(v: PickerView, prev: Seq<BlockInfo>, target: int, bf: Seq<bool>)
    requires
        v.wf(),
        bf.len() >= v.num_pieces,
        v.piece_len + BLOCK_SIZE - 1 <= usize::MAX,
        v.last_piece_len + BLOCK_SIZE - 1 <= usize::MAX,
    ensures
        pick_blocks_spec(v, prev, target, bf) matches Some((bs, v2)) && {
            let f = pick_blocks_fresh(v, prev, target, bf);
            &&& f.len() <= bs.len()
            &&& bs.take(f.len() as int) == f
            &&& f.no_duplicates()
        },
{
    law_pick_blocks_defined(v, prev, target, bf);
    let remaining = wanted(prev, target);
    if remaining == 0 {
        let (bs, v2) = pick_blocks_spec(v, prev, target, bf)->Some_0;
        assert(bs.take(0) =~= Seq::<BlockInfo>::empty());
    } else {
        assert forall|j: int| 0 <= j < v.parts.len() implies (#[trigger] v.parts[j]).idx < bf.len()
            && v.parts[j].states.len() * BLOCK_SIZE <= usize::MAX by {
            assert(part_ok(v.parts[j], v.num_pieces, v.partial));
        }
        lemma_pick_in_parts_distinct(v.parts, 0, remaining, prev, bf);
        lemma_pick_in_parts_facts(v.parts, 0, remaining, false, prev, bf);
        let (bs1, ps) = pick_in_parts(v.parts, 0, remaining, false, prev, bf)->Some_0;
        let v1 = with_parts(v, ps);
        lemma_pick_new_parts_distinct(v1, bf, 0, remaining - bs1.len(), prev);
        let (bs2, v2) = pick_new_parts(v1, bf, 0, remaining - bs1.len(), prev)->Some_0;
        let f2 = pick_new_parts_fresh(v1, bf, 0, remaining - bs1.len(), prev);
        let bs = bs1 + bs2;
        let f = bs1 + f2;
        assert(bs.take(f.len() as int) =~= f) by {
            assert forall|m: int| 0 <= m < f.len() implies bs[m] == f[m] by {
                if m >= bs1.len() {
                    assert(bs2.take(f2.len() as int)[m - bs1.len()] == f2[m - bs1.len()]);
                }
            }
        }
        assert forall|m: int| #![trigger bs1[m]] 0 <= m < bs1.len() implies v.partial[bs1[m].piece_idx as int] by {
            let j = choose|j: int| 0 <= j < v.parts.len() && bs1[m].piece_idx == #[trigger] v.parts[j].idx;
            assert(part_ok(v.parts[j], v.num_pieces, v.partial));
        }
        assert forall|a: int, c: int| 0 <= a < f.len() && 0 <= c < f.len() && a != c implies f[a] != f[c] by {
            if a < bs1.len() && c < bs1.len() {
                assert(f[a] == bs1[a] && f[c] == bs1[c]);
            } else if a >= bs1.len() && c >= bs1.len() {
                assert(f[a] == f2[a - bs1.len()] && f[c] == f2[c - bs1.len()]);
            } else if a < bs1.len() {
                assert(f[a] == bs1[a] && f[c] == f2[c - bs1.len()]);
            } else {
                assert(f[c] == bs1[c] && f[a] == f2[a - bs1.len()]);
            }
        }
    }
}

/// The index of the partial piece of piece `idx`, scanning from `from`.
pub open spec fn find_part(parts: Seq<PartialView>, idx: usize, from: int) -> Option<int>
    decreases parts.len() - from,
{
    if from < 0 || from >= parts.len() {
        None
    } else if parts[from].idx == idx {
        Some(from)
    } else {
        find_part(parts, idx, from + 1)
    }
}

/// Where the scan finds a partial piece, it has the index sought, and none
/// before it from `from` on has.
pub proof fn lemma_find_part(parts: Seq<PartialView>, idx: usize, from: int)
    requires
        0 <= from,
    ensures
        match find_part(parts, idx, from) {
            Some(j) => from <= j < parts.len() && parts[j].idx == idx,
            None => forall|j: int| from <= j < parts.len() ==> parts[j].idx != idx,
        },
    decreases parts.len() - from,
{
    if from < parts.len() && parts[from].idx != idx {
        lemma_find_part(parts, idx, from + 1);
    }
}

/// Whether one of `reqs` names block `k` of piece `idx`.
pub open spec fn frees(reqs: Seq<BlockInfo>, idx: usize, k: int) -> bool {
    exists|i: int| 0 <= i < reqs.len() && (#[trigger] reqs[i]).piece_idx == idx && reqs[i].offset / BLOCK_SIZE == k
}

/// A partial piece after the blocks that `reqs` names are freed.
pub open spec fn freed(p: PartialView, reqs: Seq<BlockInfo>) -> PartialView {
    PartialView {
        idx: p.idx,
        len: p.len,
        states: Seq::new(
            p.states.len(),
            |k: int| if frees(reqs, p.idx, k) {
                BlockState::Free
            } else {
                p.states[k]
            },
        ),
    }
}

/// The picker after the blocks that `reqs` names are freed for other peers.
pub open spec fn free_requests_spec(p: PickerView, reqs: Seq<BlockInfo>) -> PickerView {
    with_parts(p, p.parts.map_values(|q: PartialView| freed(q, reqs)))
}

/// Freeing requests one more at a time frees them all.
pub proof fn lemma_free_step(p: PickerView, reqs: Seq<BlockInfo>, x: BlockInfo)
    ensures
        free_requests_spec(free_requests_spec(p, reqs), seq![x]) == free_requests_spec(p, reqs.push(x)),
{
    let a = free_requests_spec(free_requests_spec(p, reqs), seq![x]).parts;
    let b = free_requests_spec(p, reqs.push(x)).parts;
    assert forall|j: int| 0 <= j < a.len() implies a[j] == b[j] by {
        let q = p.parts[j];
        assert forall|k: int| 0 <= k < q.states.len() implies a[j].states[k] == b[j].states[k] by {
            let r2 = reqs.push(x);
            if frees(reqs, q.idx, k) {
                let i = choose|i: int| 0 <= i < reqs.len() && (#[trigger] reqs[i]).piece_idx == q.idx && reqs[i].offset / BLOCK_SIZE == k;
                assert(r2[i] == reqs[i]);
            }
            if frees(seq![x], q.idx, k) {
                assert(seq![x][0] == x);
                assert(r2[reqs.len() as int] == x);
            }
            if frees(r2, q.idx, k) {
                let i = choose|i: int| 0 <= i < r2.len() && (#[trigger] r2[i]).piece_idx == q.idx && r2[i].offset / BLOCK_SIZE == k;
                if i < reqs.len() {
                    assert(r2[i] == reqs[i]);
                } else {
                    assert(seq![x][0] == x);
                }
            }
        }
        assert(a[j].states =~= b[j].states);
    }
    assert(a =~= b);
}

/// The frequencies after a peer's bitfield is counted in.
pub open spec fn count_in(freq: Seq<usize>, bits: Seq<bool>) -> Seq<usize> {
    Seq::new(
        freq.len(),
        |i: int| if i < bits.len() && bits[i] {
            (freq[i] + 1) as usize
        } else {
            freq[i]
        },
    )
}

/// Whether the peer has a piece that the client lacks.
pub open spec fn has_wanted(bits: Seq<bool>, have: Seq<bool>) -> bool {
    exists|i: int| 0 <= i < bits.len() && bits[i] && !#[trigger] have[i]
}

/// Whether request `r`, where its piece is partial, names a block of it.
pub open spec fn requests_fit_one(r: BlockInfo, parts: Seq<PartialView>) -> bool {
    forall|j: int| 0 <= j < parts.len() && #[trigger] parts[j].idx == r.piece_idx ==> r.offset / BLOCK_SIZE
        < parts[j].states.len()
}

/// The picker after piece `idx` was written with the right hash: the piece
/// is had and its partial piece is dropped.
pub open spec fn piece_written(v: PickerView, idx: usize) -> PickerView {
    PickerView {
        have: v.have.update(idx as int, true),
        parts: match find_part(v.parts, idx, 0) {
            Some(j) => v.parts.remove(j),
            None => v.parts,
        },
        ..v
    }
}

/// A piece written with the right hash is never picked again, from any
/// peer.
pub proof fn law_written_piece_not_picked(v: PickerView, idx: usize, bf: Seq<bool>)
    requires
        v.wf(),
        idx < v.num_pieces,
    ensures
        ({
            let w = piece_written(v, idx);
            &&& w.wf()
            &&& !pickable(w.freq, w.partial, w.have, bf, idx as int)
            &&& first_pickable(w.freq, w.partial, w.have, bf, 0) != Some(idx as int)
        }),
{
    let w = piece_written(v, idx);
    lemma_find_part(v.parts, idx, 0);
    lemma_first_pickable_is_pickable(w.freq, w.partial, w.have, bf, 0);
    match find_part(v.parts, idx, 0) {
        Some(j) => {
            assert forall|a: int| 0 <= a < w.parts.len() implies part_ok(#[trigger] w.parts[a], w.num_pieces, w.partial) by {
                if a >= j {
                    assert(w.parts[a] == v.parts[a + 1]);
                } else {
                    assert(w.parts[a] == v.parts[a]);
                }
            }
            assert forall|a: int, b: int| 0 <= a < b < w.parts.len() implies #[trigger] w.parts[a].idx
                != #[trigger] w.parts[b].idx by {
                let a0 = if a >= j { a + 1 } else { a };
                let b0 = if b >= j { b + 1 } else { b };
                assert(w.parts[a] == v.parts[a0]);
                assert(w.parts[b] == v.parts[b0]);
                assert(v.parts[a0].idx != v.parts[b0].idx);
            }
        },
        None => {},
    }
}

/// The scan for a piece to pick finds only a piece that can be picked.
proof fn lemma_first_pickable_is_pickable(freq: Seq<usize>, partial: Seq<bool>, have: Seq<bool>, bf: Seq<bool>, from: int)
    ensures
        first_pickable(freq, partial, have, bf, from) matches Some(i) ==> pickable(freq, partial, have, bf, i),
    decreases have.len() - from,
{
    if 0 <= from < have.len() && !pickable(freq, partial, have, bf, from) {
        lemma_first_pickable_is_pickable(freq, partial, have, bf, from + 1);
    }
}

/// The picker after piece `idx` failed its hash: every block of its partial
/// piece is free again.
pub open spec fn piece_refused(v: PickerView, idx: usize) -> PickerView {
    match find_part(v.parts, idx, 0) {
        Some(j) => with_parts(
            v,
            v.parts.update(
                j,
                PartialView {
                    states: Seq::new(v.parts[j].states.len(), |k: int| BlockState::Free),
                    ..v.parts[j]
                },
            ),
        ),
        None => v,
    }
}

/// Picks the blocks to request from a peer.
#[derive(Debug)]
pub struct Picker {
    /// Frequencies and states of the pieces.
    pub piece_picker: Pieces,
    /// The pieces being downloaded.
    pub partial_pieces: Vec<PartialPiece>,
    num_pieces: u32,
    piece_len: usize,
    last_piece_len: usize,
}

impl View for Picker {
    type V = PickerView;

    closed spec fn view(&self) -> PickerView {
        PickerView {
            freq: self.piece_picker.frequencies(),
            partial: self.piece_picker.partial(),
            have: self.piece_picker.have(),
            parts: parts_view(self.partial_pieces@),
            num_pieces: self.num_pieces,
            piece_len: self.piece_len,
            last_piece_len: self.last_piece_len,
        }
    }
}

impl Picker {
    /// A picker for `num_pieces` pieces of `piece_len` bytes, the last of
    /// `last_piece_len`; nothing seen, had or begun.
    pub fn new(num_pieces: u32, piece_len: usize, last_piece_len: usize) -> (p: Self)
        requires
            num_pieces <= max_bits(),
        ensures
            p@.wf(),
            p@.freq == Seq::new(num_pieces as nat, |i: int| 0usize),
            p@.partial == Seq::new(num_pieces as nat, |i: int| false),
            p@.have == Seq::new(num_pieces as nat, |i: int| false),
            p@.parts == Seq::<PartialView>::empty(),
            p@.num_pieces == num_pieces,
            p@.piece_len == piece_len,
            p@.last_piece_len == last_piece_len,
    {
        let p = Picker {
            piece_picker: Pieces::new(num_pieces as usize),
            partial_pieces: Vec::new(),
            num_pieces,
            piece_len,
            last_piece_len,
        };
        proof {
            assert(p@.parts =~= Seq::<PartialView>::empty());
        }
        p
    }

    /// Counts a peer's pieces into the frequencies; returns whether the peer
    /// has a piece that the client lacks.
    pub fn bitfield_update(&mut self, bf: &Bitfield) -> (interested: bool)
        requires
            bf@.len() <= old(self)@.num_pieces,
            old(self)@.wf(),
            forall|i: int| 0 <= i < bf@.len() && bf@[i] ==> #[trigger] old(self)@.freq[i] < usize::MAX,
        ensures
            final(self)@ == (PickerView { freq: count_in(old(self)@.freq, bf@), ..old(self)@ }),
            interested == has_wanted(bf@, old(self)@.have),
    {
        let r = self.piece_picker.bitfield_update(bf);
        proof {
            assert(count_in(old(self)@.freq, bf@) =~= self@.freq);
        }
        r
    }

    /// Counts one more peer having piece `idx`; returns whether the client
    /// has it.
    pub fn increment_piece(&mut self, idx: usize) -> (r: bool)
        requires
            old(self)@.wf(),
            idx < old(self)@.num_pieces,
            old(self)@.freq[idx as int] < usize::MAX,
        ensures
            final(self)@ == (PickerView {
                freq: old(self)@.freq.update(idx as int, (old(self)@.freq[idx as int] + 1) as usize),
                ..old(self)@
            }),
            r == old(self)@.have[idx as int],
    {
        self.piece_picker.increment_piece(idx)
    }

    /// Whether the client has no piece.
    pub fn has_no_piece(&self) -> (r: bool)
        ensures
            r == (forall|i: int| 0 <= i < self@.have.len() ==> !#[trigger] self@.have[i]),
    {
        let bf = self.piece_picker.own_bitfield();
        proof {
            assert(bf@ == self@.have);
        }
        bf.not_any()
    }

    /// The position of the partial piece of piece `idx`.
    fn find_part_exec(&self, idx: usize) -> (r: Option<usize>)
        ensures
            match r {
                Some(j) => find_part(self@.parts, idx, 0) == Some(j as int),
                None => find_part(self@.parts, idx, 0) is None,
            },
    {
        let mut j: usize = 0;
        while j < self.partial_pieces.len()
            invariant
                0 <= j <= self.partial_pieces@.len(),
                self@.parts.len() == self.partial_pieces@.len(),
                find_part(self@.parts, idx, 0) == find_part(self@.parts, idx, j as int),
            decreases self.partial_pieces@.len() - j,
        {
            proof {
                assert(self@.parts[j as int] == self.partial_pieces@[j as int]@);
            }
            if self.partial_pieces[j].idx == idx {
                return Some(j);
            }
            j = j + 1;
        }
        None
    }

    /// Frees the block that `r` names in its partial piece, if the piece is
    /// partial, for other peers to request.
    pub fn free_block(&mut self, r: &BlockInfo)
        requires
            old(self)@.wf(),
            requests_fit_one(*r, old(self)@.parts),
        ensures
            final(self)@ == free_requests_spec(old(self)@, seq![*r]),
            final(self)@.wf(),
    {
        let ghost v0 = self@;
        proof {
            lemma_find_part(v0.parts, r.piece_idx, 0);
        }
        match self.find_part_exec(r.piece_idx) {
            Some(j) => {
                proof {
                    assert(find_part(v0.parts, r.piece_idx, 0) == Some(j as int));
                    assert(v0.parts[j as int] == self.partial_pieces@[j as int]@);
                    assert(v0.parts[j as int].idx == r.piece_idx);
                    assert(self.partial_pieces@[j as int].idx == r.piece_idx);
                }
                self.partial_pieces[j].free_block(r);
                proof {
                    let target = free_requests_spec(v0, seq![*r]);
                    assert(seq![*r][0] == *r);
                    assert forall|m: int| 0 <= m < self@.parts.len() implies self@.parts[m] == target.parts[m] by {
                        assert(part_ok(v0.parts[m], v0.num_pieces, v0.partial));
                        if m == j {
                            assert(self@.parts[m].states =~= target.parts[m].states);
                        } else {
                            assert(self@.parts[m] == v0.parts[m]);
                            assert(v0.parts[m].idx != r.piece_idx);
                            assert(v0.parts[m].states =~= target.parts[m].states);
                        }
                    }
                    assert(self@.parts =~= target.parts);
                    assert forall|m: int| 0 <= m < self@.parts.len() implies part_ok(
                        #[trigger] self@.parts[m],
                        self@.num_pieces,
                        self@.partial,
                    ) by {
                        assert(part_ok(v0.parts[m], v0.num_pieces, v0.partial));
                        assert(self@.parts[m].idx == v0.parts[m].idx);
                        assert(self@.parts[m].states.len() == v0.parts[m].states.len());
                        assert(self@.parts[m].len == v0.parts[m].len);
                    }
                    assert forall|a: int, b: int| 0 <= a < b < self@.parts.len() implies #[trigger] self@.parts[a].idx
                        != #[trigger] self@.parts[b].idx by {
                        assert(v0.parts[a].idx != v0.parts[b].idx);
                    }
                }
            },
            None => {
                proof {
                    let target = free_requests_spec(v0, seq![*r]);
                    assert(seq![*r][0] == *r);
                    assert forall|m: int| 0 <= m < self@.parts.len() implies self@.parts[m] == target.parts[m] by {
                        assert(v0.parts[m].idx != r.piece_idx);
                        assert(v0.parts[m].states =~= target.parts[m].states);
                    }
                    assert(self@.parts =~= target.parts);
                }
            },
        }
    }

    /// The state a torrent runs in once it has checked its pieces: seeding
    /// where it has them all, downloading otherwise.
    pub fn start_state(&self) -> (s: TorrentState)
        ensures
            s == if forall|i: int| 0 <= i < self@.have.len() ==> #[trigger] self@.have[i] {
                TorrentState::Seeding
            } else {
                TorrentState::Downloading
            },
    {
        let all = self.piece_picker.all();
        proof {
            assert(self@.have == self.piece_picker.have());
        }
        if all {
            TorrentState::Seeding
        } else {
            TorrentState::Downloading
        }
    }

    /// The piece counts that a torrent reports each second: its pieces, the
    /// pieces being downloaded, and the pieces had.
    pub fn piece_stats(&self) -> (s: PieceStats)
        ensures
            s.num_pieces == self@.num_pieces,
            s.num_pending == self@.parts.len(),
            s.num_downloaded == count_true(self@.have),
    {
        let num_downloaded = self.piece_picker.own_bitfield().count_ones();
        PieceStats {
            num_pieces: self.num_pieces as usize,
            num_pending: self.partial_pieces.len(),
            num_downloaded,
        }
    }

    /// Whether each piece's count of peers can grow by one.
    pub fn counts_below_max(&self) -> (r: bool)
        ensures
            r == forall|i: int| 0 <= i < self@.freq.len() ==> #[trigger] self@.freq[i] < usize::MAX,
    {
        let r = self.piece_picker.counts_below_max();
        proof {
            assert(self@.freq == self.piece_picker.frequencies());
        }
        r
    }

    /// Whether a block received for request `r` is one that the picker has
    /// out: where `r`'s piece is partial, the block lies in it and is not
    /// free.
    pub fn block_pending(&self, r: &BlockInfo) -> (b: bool)
        ensures
            b == match find_part(self@.parts, r.piece_idx, 0) {
                Some(j) => r.offset / BLOCK_SIZE < self@.parts[j].states.len() && self@.parts[j].states[(r.offset
                    / BLOCK_SIZE) as int] != BlockState::Free,
                None => true,
            },
    {
        proof {
            lemma_find_part(self@.parts, r.piece_idx, 0);
        }
        match self.find_part_exec(r.piece_idx) {
            Some(j) => {
                proof {
                    assert(self@.parts[j as int] == self.partial_pieces@[j as int]@);
                }
                let k = r.offset / BLOCK_SIZE;
                k < self.partial_pieces[j].blocks_states.len() && self.partial_pieces[j].blocks_states[k]
                    != BlockState::Free
            },
            None => true,
        }
    }

    /// Whether request `r` names a block of its partial piece, where the
    /// piece is partial.
    pub fn request_fits(&self, r: &BlockInfo) -> (b: bool)
        requires
            self@.wf(),
        ensures
            b == requests_fit_one(*r, self@.parts),
    {
        proof {
            lemma_find_part(self@.parts, r.piece_idx, 0);
        }
        match self.find_part_exec(r.piece_idx) {
            Some(j) => {
                proof {
                    assert(self@.parts[j as int] == self.partial_pieces@[j as int]@);
                    assert forall|m: int| 0 <= m < self@.parts.len() && #[trigger] self@.parts[m].idx == r.piece_idx
                        implies m == j by {
                        if m != j {
                            let (a, b) = if m < j { (m, j as int) } else { (j as int, m) };
                            assert(self@.parts[a].idx != self@.parts[b].idx);
                        }
                    }
                }
                r.offset / BLOCK_SIZE < self.partial_pieces[j].blocks_states.len()
            },
            None => true,
        }
    }

    /// Takes in the disk's verdict on piece `idx`. A piece written with the
    /// right hash leaves the partial pieces and is had, and the number of
    /// pieces still missing comes back; a piece whose hash did not match has
    /// every block freed, to be downloaded again, and `None` comes back.
    pub fn handle_piece_write(&mut self, idx: usize, valid: bool) -> (missing: Option<usize>)
        requires
            old(self)@.wf(),
            idx < old(self)@.num_pieces,
        ensures
            final(self)@.wf(),
            valid ==> final(self)@ == piece_written(old(self)@, idx) && missing == Some(
                (final(self)@.have.len() - count_true(final(self)@.have)) as usize,
            ),
            !valid ==> final(self)@ == piece_refused(old(self)@, idx) && missing is None,
    {
        let ghost v0 = self@;
        proof {
            lemma_find_part(v0.parts, idx, 0);
        }
        let pos = self.find_part_exec(idx);
        if valid {
            match pos {
                Some(j) => {
                    let ghost before = self.partial_pieces@;
                    self.partial_pieces.remove(j);
                    proof {
                        assert(parts_view(self.partial_pieces@) =~= parts_view(before).remove(j as int));
                    }
                },
                None => {},
            }
            self.piece_picker.received_piece(idx);
            let missing = self.piece_picker.own_bitfield().count_zeros();
            proof {
                let w = piece_written(v0, idx);
                assert(self@.have =~= w.have);
                assert(self@.parts =~= w.parts);
                assert forall|a: int| 0 <= a < self@.parts.len() implies part_ok(
                    #[trigger] self@.parts[a],
                    self@.num_pieces,
                    self@.partial,
                ) by {
                    if let Some(j) = pos {
                        if a >= j {
                            assert(self@.parts[a] == v0.parts[a + 1]);
                        } else {
                            assert(self@.parts[a] == v0.parts[a]);
                        }
                    } else {
                        assert(self@.parts[a] == v0.parts[a]);
                    }
                }
                assert forall|a: int, b: int| 0 <= a < b < self@.parts.len() implies #[trigger] self@.parts[a].idx
                    != #[trigger] self@.parts[b].idx by {
                    if let Some(j) = pos {
                        let a0 = if a >= j { a + 1 } else { a };
                        let b0 = if b >= j { b + 1 } else { b };
                        assert(self@.parts[a] == v0.parts[a0]);
                        assert(self@.parts[b] == v0.parts[b0]);
                        assert(v0.parts[a0].idx != v0.parts[b0].idx);
                    } else {
                        assert(v0.parts[a].idx != v0.parts[b].idx);
                    }
                }
            }
            Some(missing)
        } else {
            match pos {
                Some(j) => {
                    self.partial_pieces[j].free_all_blocks();
                    proof {
                        let w = piece_refused(v0, idx);
                        assert forall|m: int| 0 <= m < self@.parts.len() implies self@.parts[m] == w.parts[m] by {
                            if m == j {
                                assert(self@.parts[m].states =~= w.parts[m].states);
                            }
                        }
                        assert(self@.parts =~= w.parts);
                        assert forall|m: int| 0 <= m < self@.parts.len() implies part_ok(
                            #[trigger] self@.parts[m],
                            self@.num_pieces,
                            self@.partial,
                        ) by {
                            assert(part_ok(v0.parts[m], v0.num_pieces, v0.partial));
                        }
                        assert forall|a: int, b: int| 0 <= a < b < self@.parts.len() implies #[trigger] self@.parts[a].idx
                            != #[trigger] self@.parts[b].idx by {
                            assert(v0.parts[a].idx != v0.parts[b].idx);
                        }
                    }
                },
                None => {},
            }
            None
        }
    }

    /// Marks the block that `r` names received in its partial piece:
    /// whether it had been received before, or `None` where the piece is not
    /// partial.
    pub fn received_block(&mut self, r: &BlockInfo) -> (dup: Option<bool>)
        requires
            old(self)@.wf(),
            match find_part(old(self)@.parts, r.piece_idx, 0) {
                Some(j) => r.offset / BLOCK_SIZE < old(self)@.parts[j].states.len()
                    && old(self)@.parts[j].states[(r.offset / BLOCK_SIZE) as int] != BlockState::Free,
                None => true,
            },
        ensures
            final(self)@.wf(),
            match find_part(old(self)@.parts, r.piece_idx, 0) {
                Some(j) => {
                    let k = r.offset / BLOCK_SIZE;
                    let q = old(self)@.parts[j];
                    &&& dup == Some(q.states[k as int] == BlockState::Received)
                    &&& final(self)@ == with_parts(
                        old(self)@,
                        old(self)@.parts.update(
                            j,
                            PartialView { idx: q.idx, len: q.len, states: q.states.update(k as int, BlockState::Received) },
                        ),
                    )
                },
                None => dup is None && final(self)@ == old(self)@,
            },
    {
        let ghost v0 = self@;
        proof {
            lemma_find_part(v0.parts, r.piece_idx, 0);
        }
        match self.find_part_exec(r.piece_idx) {
            Some(j) => {
                proof {
                    assert(find_part(v0.parts, r.piece_idx, 0) == Some(j as int));
                    assert(v0.parts[j as int] == self.partial_pieces@[j as int]@);
                    assert(self.partial_pieces@[j as int].blocks_states@ == v0.parts[j as int].states);
                }
                let d = self.partial_pieces[j].received_block(r);
                proof {
                    let k = r.offset / BLOCK_SIZE;
                    let q = v0.parts[j as int];
                    let target = v0.parts.update(
                        j as int,
                        PartialView { idx: q.idx, len: q.len, states: q.states.update(k as int, BlockState::Received) },
                    );
                    assert(self@.parts =~= target);
                    assert forall|m: int| 0 <= m < self@.parts.len() implies part_ok(
                        #[trigger] self@.parts[m],
                        self@.num_pieces,
                        self@.partial,
                    ) by {
                        assert(part_ok(v0.parts[m], v0.num_pieces, v0.partial));
                        assert(self@.parts[m].idx == v0.parts[m].idx);
                        assert(self@.parts[m].states.len() == v0.parts[m].states.len());
                        assert(self@.parts[m].len == v0.parts[m].len);
                    }
                    assert forall|a: int, b: int| 0 <= a < b < self@.parts.len() implies #[trigger] self@.parts[a].idx
                        != #[trigger] self@.parts[b].idx by {
                        assert(v0.parts[a].idx != v0.parts[b].idx);
                    }
                }
                Some(d)
            },
            None => None,
        }
    }

    /// Picks up to `remaining` blocks from the partial pieces that the peer
    /// has, in order; returns how many requests remain wanted.
    fn pick_from_parts(
        &mut self,
        remaining: usize,
        requests: &mut Vec<BlockInfo>,
        prev: &[BlockInfo],
        bf: &Bitfield,
        end_game: bool,
    ) -> (left: usize)
        requires
            old(self)@.wf(),
            pick_in_parts(old(self)@.parts, 0, remaining as int, end_game, prev@, bf@) is Some,
        ensures
            final(self)@.wf(),
            pick_in_parts(old(self)@.parts, 0, remaining as int, end_game, prev@, bf@) matches Some((bs, ps))
                && final(requests)@ == old(requests)@ + bs && final(self)@ == with_parts(old(self)@, ps)
                && left == remaining - bs.len(),
    {
        let ghost v0 = self@;
        let ghost r0 = requests@;
        let ghost result = pick_in_parts(v0.parts, 0, remaining as int, end_game, prev@, bf@)->Some_0;
        let ghost mut got: Seq<BlockInfo> = Seq::empty();
        proof {
            lemma_pick_in_parts_facts(v0.parts, 0, remaining as int, end_game, prev@, bf@);
            assert(self@ == with_parts(v0, self@.parts));
        }
        let mut left = remaining;
        let mut i: usize = 0;
        while i < self.partial_pieces.len() && left > 0
            invariant
                0 <= i <= self.partial_pieces@.len(),
                self@.wf(),
                self@ == with_parts(v0, self@.parts),
                self@.parts.len() == self.partial_pieces@.len(),
                requests@ == r0 + got,
                left + got.len() == remaining,
                pick_in_parts(self@.parts, i as int, left as int, end_game, prev@, bf@) matches Some((bs, ps))
                    && result.0 == got + bs && ps == result.1,
            decreases self.partial_pieces@.len() - i,
        {
            let ghost parts_i = self@.parts;
            let ghost vec_i = self.partial_pieces@;
            let ghost got_i = got;
            let ghost req_i = requests@;
            let idx = self.partial_pieces[i].idx;
            proof {
                assert(parts_i[i as int] == vec_i[i as int]@);
            }
            if bf.get(idx) {
                let ghost p = parts_i[i as int];
                proof {
                    lemma_pick_from_facts(p.states, 0, left as int, end_game, prev@, p.idx, p.len);
                }
                let n = self.partial_pieces[i].pick_next_blocks(left, requests, prev, end_game);
                let ghost (bs1, st) = pick_from(p.states, 0, left as int, end_game, prev@, p.idx, p.len)->Some_0;
                let ghost q = PartialView { idx: p.idx, len: p.len, states: st };
                proof {
                    assert(self.partial_pieces@[i as int]@ == q);
                    assert(self@.parts =~= parts_i.update(i as int, q));
                    got = got + bs1;
                    assert(requests@ =~= r0 + got);
                    let (bs2, ps2) = pick_in_parts(parts_i.update(i as int, q), i + 1, left - bs1.len(), end_game, prev@, bf@)->Some_0;
                    assert(result.0 =~= got + bs2);
                    assert forall|j: int| 0 <= j < self@.parts.len() implies part_ok(
                        #[trigger] self@.parts[j],
                        self@.num_pieces,
                        self@.partial,
                    ) by {
                        if j != i {
                            assert(self@.parts[j] == parts_i[j]);
                        }
                    }
                    assert forall|j: int, m: int| 0 <= j < m < self@.parts.len() implies #[trigger] self@.parts[j].idx
                        != #[trigger] self@.parts[m].idx by {
                        assert(self@.parts[j].idx == parts_i[j].idx);
                        assert(self@.parts[m].idx == parts_i[m].idx);
                    }
                }
                left = left - n;
            }
            i = i + 1;
        }
        proof {
            assert(got + Seq::<BlockInfo>::empty() =~= got);
        }
        left
    }

    /// Picks up to `target_queue_len` less the outstanding requests of
    /// blocks that the peer with bitfield `bf` has: first from the partial
    /// pieces, then from new pieces; once every piece has been begun, blocks
    /// that are requested but not in `current_requests` (the end game).
    pub fn pick_blocks(
        &mut self,
        current_requests: &[BlockInfo],
        target_queue_len: usize,
        bf: &Bitfield,
    ) -> (r: Vec<BlockInfo>)
        requires
            old(self)@.wf(),
            current_requests@.no_duplicates(),
            old(self)@.piece_len + BLOCK_SIZE - 1 <= usize::MAX,
            old(self)@.last_piece_len + BLOCK_SIZE - 1 <= usize::MAX,
            bf@.len() >= old(self)@.num_pieces,
        ensures
            final(self)@.wf(),
            pick_blocks_spec(old(self)@, current_requests@, target_queue_len as int, bf@) matches Some((bs, v))
                && r@ == bs && final(self)@ == v,
            final(self)@.freq == old(self)@.freq,
            final(self)@.have == old(self)@.have,
            final(self)@.num_pieces == old(self)@.num_pieces,
            final(self)@.piece_len == old(self)@.piece_len,
            final(self)@.last_piece_len == old(self)@.last_piece_len,
    {
        proof {
            law_pick_blocks_defined(self@, current_requests@, target_queue_len as int, bf@);
        }
        let mut requests: Vec<BlockInfo> = Vec::new();
        let mut remaining: usize = if target_queue_len > current_requests.len() {
            target_queue_len - current_requests.len()
        } else {
            0
        };
        if remaining == 0 {
            proof {
                assert(requests@ =~= Seq::<BlockInfo>::empty());
            }
            return requests;
        }
        let ghost v0 = self@;
        let ghost prev = current_requests@;
        let ghost expected = pick_blocks_spec(v0, prev, target_queue_len as int, bf@)->Some_0;
        remaining = self.pick_from_parts(remaining, &mut requests, current_requests, bf, false);
        let ghost mut k: int = 0;
        proof {
            assert(requests@.len() >= 0);
        }
        while remaining > 0
            invariant
                self@.wf(),
                self@.freq == v0.freq,
                self@.have == v0.have,
                self@.num_pieces == v0.num_pieces,
                self@.piece_len == v0.piece_len,
                self@.last_piece_len == v0.last_piece_len,
                v0.piece_len + BLOCK_SIZE - 1 <= usize::MAX,
                v0.last_piece_len + BLOCK_SIZE - 1 <= usize::MAX,
                prev == current_requests@,
                v0 == old(self)@,
                pick_blocks_spec(v0, prev, target_queue_len as int, bf@) == Some(expected),
                0 <= k <= self@.have.len(),
                scanned(self@, bf@, k),
                pick_new_parts(self@, bf@, k, remaining as int, prev) matches Some((bs, v)) && expected.0
                    == requests@ + bs && expected.1 == v,
            decreases self@.have.len() - k,
        {
            let ghost v1 = self@;
            proof {
                lemma_scan(v1, bf@, k, remaining as int, prev);
                lemma_scanned_prefix(v1, bf@, k);
            }
            match self.piece_picker.pick_new_piece(bf) {
                Some(idx) => {
                    let len = if idx as u32 == self.num_pieces - 1 {
                        self.last_piece_len
                    } else {
                        self.piece_len
                    };
                    let mut partial_piece = PartialPiece::new(idx, len);
                    proof {
                        assert(partial_piece.blocks_states@ =~= fresh_states(len));
                        lemma_pick_from_facts(fresh_states(len), 0, remaining as int, false, prev, idx, len);
                    }
                    let ghost req_before = requests@;
                    let n = partial_piece.pick_next_blocks(remaining, &mut requests, current_requests, false);
                    let ghost (bs1, st) = pick_from(fresh_states(len), 0, remaining as int, false, prev, idx, len)->Some_0;
                    let ghost rem_before = remaining as int;
                    remaining = remaining - n;
                    self.partial_pieces.push(partial_piece);
                    proof {
                        let q = PartialView { idx, len, states: st };
                        assert(self@.parts =~= v1.parts.push(q));
                        assert(self@ == begin_piece(v1, idx as int, st));
                        let (bs2, v2) = pick_new_parts(begin_piece(v1, idx as int, st), bf@, idx + 1, rem_before - bs1.len(), prev)->Some_0;
                        assert(expected.0 =~= requests@ + bs2);
                        assert forall|j: int| 0 <= j < self@.parts.len() implies part_ok(
                            #[trigger] self@.parts[j],
                            self@.num_pieces,
                            self@.partial,
                        ) by {
                            if j < v1.parts.len() {
                                assert(self@.parts[j] == v1.parts[j]);
                                assert(part_ok(v1.parts[j], v1.num_pieces, v1.partial));
                            }
                        }
                        assert forall|j: int, m: int| 0 <= j < m < self@.parts.len() implies #[trigger] self@.parts[j].idx
                            != #[trigger] self@.parts[m].idx by {
                            if m == v1.parts.len() {
                                assert(part_ok(v1.parts[j], v1.num_pieces, v1.partial));
                            }
                        }
                        assert forall|m: int| 0 <= m < idx + 1 implies #[trigger] skipped(self@, bf@, m) by {
                            if m != idx {
                                assert(skipped(v1, bf@, m));
                            }
                        }
                        k = idx + 1;
                    }
                },
                None => {
                    let ghost (bs, ps) = pick_in_parts(v1.parts, 0, remaining as int, true, prev, bf@)->Some_0;
                    proof {
                        assert(self@ == v1);
                    }
                    remaining = self.pick_from_parts(remaining, &mut requests, current_requests, bf, true);
                    return requests;
                },
            }
        }
        proof {
            assert(requests@ + Seq::<BlockInfo>::empty() =~= requests@);
        }
        requests
    }
}

} // verus!
