//! A piece being downloaded: the request state of each of its blocks.

use vstd::prelude::*;
use crate::block::{block_len, num_blocks, spec_block_len, spec_num_blocks, BlockInfo};
use crate::BLOCK_SIZE;

verus! {

/// Request state of a block.
#[derive(Debug, Default, PartialEq, Eq, Clone, Copy, Structural)]
pub enum BlockState {
    /// The block has not been requested.
    #[default]
    Free,
    /// The block has been requested from at least one peer.
    Requested,
    /// The block has been received.
    Received,
}

/// A partially downloaded piece.
#[derive(Debug)]
pub struct PartialPiece {
    /// Piece index.
    pub idx: usize,
    /// Length of the piece.
    pub len: usize,
    /// State of every block of the piece.
    pub blocks_states: Vec<BlockState>,
}

/// The model of a partial piece: its index, its length and the state of
/// each of its blocks.
pub struct PartialView {
    pub idx: usize,
    pub len: usize,
    pub states: Seq<BlockState>,
}

impl PartialView {
    /// Whether every block of the piece starts within it.
    pub open spec fn wf(self) -> bool {
        &&& self.states.len() > 0 ==> (self.states.len() - 1) * BLOCK_SIZE <= self.len
        &&& self.states.len() * BLOCK_SIZE <= usize::MAX
    }
}

impl View for PartialPiece {
    type V = PartialView;

    open spec fn view(&self) -> PartialView {
        PartialView { idx: self.idx, len: self.len, states: self.blocks_states@ }
    }
}

/// The request for block `i` of piece `idx` of length `len`.
pub open spec fn block_request(idx: usize, len: usize, i: int) -> BlockInfo {
    BlockInfo { piece_idx: idx, offset: (i * BLOCK_SIZE) as usize, len: spec_block_len(len as int, i) as usize }
}

/// Picking up to `remaining` blocks from block `i` on: a free block is
/// requested and marked requested; in end game a block already requested is
/// requested again unless `prev` holds that request. Gives the requests and
/// the new states, or `None` where a free block is met in end game.
pub open spec fn pick_from(
    states: Seq<BlockState>,
    i: int,
    remaining: int,
    end_game: bool,
    prev: Seq<BlockInfo>,
    idx: usize,
    len: usize,
) -> Option<(Seq<BlockInfo>, Seq<BlockState>)>
    decreases states.len() - i,
{
    if i < 0 || i >= states.len() || remaining <= 0 {
        Some((Seq::empty(), states))
    } else if states[i] == BlockState::Free {
        if end_game {
            None
        } else {
            match pick_from(states.update(i, BlockState::Requested), i + 1, remaining - 1, end_game, prev, idx, len) {
                Some((bs, st)) => Some((seq![block_request(idx, len, i)] + bs, st)),
                None => None,
            }
        }
    } else if end_game && states[i] == BlockState::Requested && !prev.contains(block_request(idx, len, i)) {
        match pick_from(states, i + 1, remaining - 1, end_game, prev, idx, len) {
            Some((bs, st)) => Some((seq![block_request(idx, len, i)] + bs, st)),
            None => None,
        }
    } else {
        pick_from(states, i + 1, remaining, end_game, prev, idx, len)
    }
}

/// The free blocks from block `i` on, in ascending order.
pub open spec fn free_from(states: Seq<BlockState>, i: int) -> Seq<int>
    decreases states.len() - i,
{
    if i < 0 || i >= states.len() {
        Seq::empty()
    } else {
        (if states[i] == BlockState::Free { seq![i] } else { Seq::empty() }) + free_from(states, i + 1)
    }
}

/// The free blocks from `i` on lie at `i` or after, and are free.
proof fn lemma_free_from_bounds(states: Seq<BlockState>, i: int)
    requires
        0 <= i,
    ensures
        forall|m: int| 0 <= m < free_from(states, i).len() ==> {
            &&& i <= #[trigger] free_from(states, i)[m] < states.len()
            &&& states[free_from(states, i)[m]] == BlockState::Free
        },
    decreases states.len() - i,
{
    if i < states.len() {
        lemma_free_from_bounds(states, i + 1);
        let head: Seq<int> = if states[i] == BlockState::Free { seq![i] } else { Seq::empty() };
        let f = free_from(states, i);
        assert forall|m: int| 0 <= m < f.len() implies i <= #[trigger] f[m] < states.len() && states[f[m]]
            == BlockState::Free by {
            if m >= head.len() {
                assert(f[m] == free_from(states, i + 1)[m - head.len()]);
            }
        }
    }
}

/// Changing a block before `i` leaves the free blocks from `i` on as they
/// were.
proof fn lemma_free_from_update(states: Seq<BlockState>, i: int, j: int, b: BlockState)
    requires
        0 <= j < i,
        j < states.len(),
    ensures
        free_from(states.update(j, b), i) == free_from(states, i),
    decreases states.len() - i,
{
    if 0 <= i < states.len() {
        lemma_free_from_update(states, i + 1, j, b);
    }
}

/// Outside end game, picking takes the first free blocks from `i` on, in
/// ascending order, as many as asked for or as there are, and marks just
/// those requested.
pub proof fn lemma_pick_from_free_blocks(
    states: Seq<BlockState>,
    i: int,
    remaining: int,
    prev: Seq<BlockInfo>,
    idx: usize,
    len: usize,
)
    requires
        0 <= i,
    ensures
        ({
            let f = free_from(states, i);
            let k = if remaining <= 0 { 0 } else if remaining < f.len() { remaining } else { f.len() as int };
            let picked = f.take(k);
            pick_from(states, i, remaining, false, prev, idx, len) == Some((
                picked.map_values(|j: int| block_request(idx, len, j)),
                Seq::new(states.len(), |j: int| if picked.contains(j) { BlockState::Requested } else { states[j] }),
            ))
        }),
    decreases states.len() - i,
{
    let f = free_from(states, i);
    let k = if remaining <= 0 { 0 } else if remaining < f.len() { remaining } else { f.len() as int };
    let picked = f.take(k);
    let st = Seq::new(states.len(), |j: int| if picked.contains(j) { BlockState::Requested } else { states[j] });
    if i >= states.len() || remaining <= 0 {
        assert(picked =~= Seq::<int>::empty());
        assert(st =~= states);
        assert(picked.map_values(|j: int| block_request(idx, len, j)) =~= Seq::<BlockInfo>::empty());
    } else if states[i] == BlockState::Free {
        let s2 = states.update(i, BlockState::Requested);
        lemma_pick_from_free_blocks(s2, i + 1, remaining - 1, prev, idx, len);
        lemma_free_from_update(states, i + 1, i, BlockState::Requested);
        lemma_free_from_bounds(states, i + 1);
        let f2 = free_from(states, i + 1);
        assert(f == seq![i] + f2);
        let k2 = if remaining - 1 <= 0 { 0 } else if remaining - 1 < f2.len() { remaining - 1 } else { f2.len() as int };
        assert(k == k2 + 1);
        let p2 = f2.take(k2);
        assert(picked =~= seq![i] + p2);
        assert(picked.map_values(|j: int| block_request(idx, len, j)) =~= seq![block_request(idx, len, i)]
            + p2.map_values(|j: int| block_request(idx, len, j)));
        let st2 = Seq::new(s2.len(), |j: int| if p2.contains(j) { BlockState::Requested } else { s2[j] });
        assert forall|j: int| 0 <= j < states.len() implies st[j] == st2[j] by {
            if j == i {
                assert(picked[0] == i);
            } else {
                if p2.contains(j) {
                    let m = choose|m: int| 0 <= m < p2.len() && p2[m] == j;
                    assert(picked[m + 1] == j);
                }
                if picked.contains(j) {
                    let m = choose|m: int| 0 <= m < picked.len() && picked[m] == j;
                    assert(m > 0);
                    assert(p2[m - 1] == j);
                }
            }
        }
        assert(st =~= st2);
    } else {
        lemma_pick_from_free_blocks(states, i + 1, remaining, prev, idx, len);
        assert(f == free_from(states, i + 1)) by {
            assert(f =~= Seq::<int>::empty() + free_from(states, i + 1));
        }
    }
}

/// What picking keeps: the number of states, the states before `i`, and no
/// more requests than asked for; outside end game, a pick that falls short
/// of `remaining` leaves no free block from `i` on.
pub proof fn lemma_pick_from_facts(
    states: Seq<BlockState>,
    i: int,
    remaining: int,
    end_game: bool,
    prev: Seq<BlockInfo>,
    idx: usize,
    len: usize,
)
    requires
        0 <= i,
        pick_from(states, i, remaining, end_game, prev, idx, len) is Some,
    ensures
        pick_from(states, i, remaining, end_game, prev, idx, len) matches Some((bs, st)) && {
            &&& st.len() == states.len()
            &&& bs.len() <= if remaining > 0 { remaining } else { 0 }
            &&& forall|j: int| 0 <= j < i && j < states.len() ==> st[j] == states[j]
            &&& (!end_game && bs.len() < remaining) ==> forall|j: int| i <= j < st.len() ==> st[j]
                != BlockState::Free
        },
    decreases states.len() - i,
{
    if i >= states.len() || remaining <= 0 {
    } else if states[i] == BlockState::Free {
        if !end_game {
            let s2 = states.update(i, BlockState::Requested);
            lemma_pick_from_facts(s2, i + 1, remaining - 1, end_game, prev, idx, len);
        }
    } else if end_game && states[i] == BlockState::Requested && !prev.contains(block_request(idx, len, i)) {
        lemma_pick_from_facts(states, i + 1, remaining - 1, end_game, prev, idx, len);
    } else {
        lemma_pick_from_facts(states, i + 1, remaining, end_game, prev, idx, len);
    }
}

/// In end game, picking from states with no free block from `i` on always
/// succeeds.
pub proof fn lemma_pick_from_end_game(
    states: Seq<BlockState>,
    i: int,
    remaining: int,
    prev: Seq<BlockInfo>,
    idx: usize,
    len: usize,
)
    requires
        0 <= i,
        forall|j: int| i <= j < states.len() ==> states[j] != BlockState::Free,
    ensures
        pick_from(states, i, remaining, true, prev, idx, len) is Some,
    decreases states.len() - i,
{
    if i >= states.len() || remaining <= 0 {
    } else if states[i] == BlockState::Requested && !prev.contains(block_request(idx, len, i)) {
        lemma_pick_from_end_game(states, i + 1, remaining - 1, prev, idx, len);
    } else {
        lemma_pick_from_end_game(states, i + 1, remaining, prev, idx, len);
    }
}

/// Outside end game, picking always succeeds.
pub proof fn lemma_pick_from_some(
    states: Seq<BlockState>,
    i: int,
    remaining: int,
    prev: Seq<BlockInfo>,
    idx: usize,
    len: usize,
)
    ensures
        pick_from(states, i, remaining, false, prev, idx, len) is Some,
    decreases states.len() - i,
{
    if i < 0 || i >= states.len() || remaining <= 0 {
    } else if states[i] == BlockState::Free {
        lemma_pick_from_some(states.update(i, BlockState::Requested), i + 1, remaining - 1, prev, idx, len);
    } else {
        lemma_pick_from_some(states, i + 1, remaining, prev, idx, len);
    }
}

impl PartialPiece {
    /// Whether every block of the piece starts within it.
    pub open spec fn wf(&self) -> bool {
        self@.wf()
    }

    /// A piece with every block free.
    pub fn new(idx: usize, len: usize) -> (p: Self)
        requires
            len + BLOCK_SIZE - 1 <= usize::MAX,
        ensures
            p.idx == idx,
            p.len == len,
            p.blocks_states@ == Seq::new(spec_num_blocks(len as int) as u32 as nat, |i: int| BlockState::Free),
            p.wf(),
    {
        let n = num_blocks(len) as usize;
        let mut blocks_states: Vec<BlockState> = Vec::new();
        let mut i: usize = 0;
        while i < n
            invariant
                0 <= i <= n,
                n == spec_num_blocks(len as int) as u32,
                blocks_states@ == Seq::new(i as nat, |k: int| BlockState::Free),
            decreases n - i,
        {
            blocks_states.push(BlockState::Free);
            proof {
                assert(blocks_states@ =~= Seq::new((i + 1) as nat, |k: int| BlockState::Free));
            }
            i = i + 1;
        }
        proof {
            assert(n <= spec_num_blocks(len as int));
            if n > 0 {
                let k = n - 1;
                assert(k * BLOCK_SIZE <= len) by (nonlinear_arith)
                    requires
                        k < (len + 16383) / 16384,
                        0 <= k,
                ;
            }
            assert(n * BLOCK_SIZE <= len + BLOCK_SIZE - 1) by (nonlinear_arith)
                requires
                    n <= (len + 16383) / 16384,
            ;
        }
        PartialPiece { idx, len, blocks_states }
    }

    /// Marks a requested block free again, for other peers to request.
    pub fn free_block(&mut self, block: &BlockInfo)
        requires
            block.piece_idx == old(self).idx,
            block.offset / BLOCK_SIZE < old(self).blocks_states@.len(),
        ensures
            final(self).idx == old(self).idx,
            final(self).len == old(self).len,
            final(self).blocks_states@ == old(self).blocks_states@.update(
                (block.offset / BLOCK_SIZE) as int,
                BlockState::Free,
            ),
    {
        let i = block.idx_in_piece();
        self.blocks_states.set(i, BlockState::Free);
    }

    /// Marks every block free.
    pub fn free_all_blocks(&mut self)
        ensures
            final(self).idx == old(self).idx,
            final(self).len == old(self).len,
            final(self).blocks_states@ == Seq::new(
                old(self).blocks_states@.len(),
                |i: int| BlockState::Free,
            ),
    {
        let mut i: usize = 0;
        while i < self.blocks_states.len()
            invariant
                0 <= i <= self.blocks_states@.len(),
                self.idx == old(self).idx,
                self.len == old(self).len,
                self.blocks_states@.len() == old(self).blocks_states@.len(),
                forall|k: int| 0 <= k < i ==> self.blocks_states@[k] == BlockState::Free,
            decreases self.blocks_states.len() - i,
        {
            self.blocks_states.set(i, BlockState::Free);
            i = i + 1;
        }
        proof {
            assert(self.blocks_states@ =~= Seq::new(
                old(self).blocks_states@.len(),
                |i: int| BlockState::Free,
            ));
        }
    }

    /// Marks a requested block received; returns whether it had been
    /// received before (a duplicate). A block that was never requested
    /// cannot be received.
    pub fn received_block(&mut self, block: &BlockInfo) -> (dup: bool)
        requires
            block.offset / BLOCK_SIZE < old(self).blocks_states@.len(),
            old(self).blocks_states@[(block.offset / BLOCK_SIZE) as int] != BlockState::Free,
        ensures
            final(self).idx == old(self).idx,
            final(self).len == old(self).len,
            final(self).blocks_states@ == old(self).blocks_states@.update(
                (block.offset / BLOCK_SIZE) as int,
                BlockState::Received,
            ),
            dup == (old(self).blocks_states@[(block.offset / BLOCK_SIZE) as int]
                == BlockState::Received),
    {
        let i = block.idx_in_piece();
        match self.blocks_states[i] {
            BlockState::Free => {
                proof {
                    assert(false);
                }
                false
            },
            BlockState::Requested => {
                self.blocks_states.set(i, BlockState::Received);
                false
            },
            BlockState::Received => {
                proof {
                    assert(self.blocks_states@ =~= old(self).blocks_states@.update(
                        i as int,
                        BlockState::Received,
                    ));
                }
                true
            },
        }
    }

    /// Picks up to `num` blocks in order: free blocks are requested and
    /// marked requested; in end game, blocks already requested are requested
    /// again unless `prev` holds the request. Appends the requests to `buf`
    /// and returns how many it appended. In end game no block may be free.
    pub fn pick_next_blocks(
        &mut self,
        num: usize,
        buf: &mut Vec<BlockInfo>,
        prev: &[BlockInfo],
        end_game: bool,
    ) -> (n: usize)
        requires
            old(self).wf(),
            pick_from(old(self).blocks_states@, 0, num as int, end_game, prev@, old(self).idx, old(self).len) is Some,
        ensures
            final(self).idx == old(self).idx,
            final(self).len == old(self).len,
            final(self).wf(),
            pick_from(old(self).blocks_states@, 0, num as int, end_game, prev@, old(self).idx, old(self).len)
                matches Some((bs, st)) && final(buf)@ == old(buf)@ + bs && final(self).blocks_states@ == st
                && n == bs.len(),
    {
        let ghost idx = self.idx;
        let ghost len = self.len;
        let ghost s0 = self.blocks_states@;
        let ghost b0 = buf@;
        let mut num_picked: usize = 0;
        let mut i: usize = 0;
        while i < self.blocks_states.len() && num_picked < num
            invariant
                0 <= i <= self.blocks_states@.len(),
                num_picked <= num,
                self.idx == idx,
                self.len == len,
                self.wf(),
                self.blocks_states@.len() == s0.len(),
                buf@.len() == b0.len() + num_picked,
                pick_from(s0, 0, num as int, end_game, prev@, idx, len) matches Some((bs, st))
                    && pick_from(self.blocks_states@, i as int, num - num_picked, end_game, prev@, idx, len)
                    matches Some((bs2, st2)) && bs == buf@.skip(b0.len() as int) + bs2 && st == st2
                    && buf@.take(b0.len() as int) == b0,
            decreases self.blocks_states.len() - i,
        {
            let ghost st_i = self.blocks_states@;
            let ghost buf_i = buf@;
            proof {
                assert(i * BLOCK_SIZE <= len);
            }
            if self.blocks_states[i] == BlockState::Free {
                let b = BlockInfo { piece_idx: self.idx, offset: i * BLOCK_SIZE, len: block_len(self.len, i) };
                buf.push(b);
                self.blocks_states.set(i, BlockState::Requested);
                num_picked = num_picked + 1;
                proof {
                    assert(buf@.skip(b0.len() as int) =~= buf_i.skip(b0.len() as int).push(b));
                    assert(buf@.take(b0.len() as int) =~= buf_i.take(b0.len() as int));
                }
            } else if end_game && self.blocks_states[i] == BlockState::Requested {
                let b = BlockInfo { piece_idx: self.idx, offset: i * BLOCK_SIZE, len: block_len(self.len, i) };
                if !contains_request(prev, &b) {
                    buf.push(b);
                    num_picked = num_picked + 1;
                    proof {
                        assert(buf@.skip(b0.len() as int) =~= buf_i.skip(b0.len() as int).push(b));
                        assert(buf@.take(b0.len() as int) =~= buf_i.take(b0.len() as int));
                    }
                }
            }
            i = i + 1;
        }
        proof {
            assert(buf@ =~= b0 + buf@.skip(b0.len() as int));
            assert(pick_from(self.blocks_states@, i as int, num - num_picked, end_game, prev@, idx, len)
                == Some((Seq::<BlockInfo>::empty(), self.blocks_states@)));
            assert(buf@.skip(b0.len() as int) + Seq::<BlockInfo>::empty() =~= buf@.skip(b0.len() as int));
        }
        num_picked
    }
}

/// Whether `prev` holds the request `b`.
pub fn contains_request(prev: &[BlockInfo], b: &BlockInfo) -> (r: bool)
    ensures
        r == prev@.contains(*b),
{
    let mut i: usize = 0;
    while i < prev.len()
        invariant
            0 <= i <= prev.len(),
            forall|k: int| 0 <= k < i ==> prev@[k] != *b,
        decreases prev.len() - i,
    {
        if prev[i] == *b {
            proof {
                assert(prev@[i as int] == *b);
            }
            return true;
        }
        i = i + 1;
    }
    false
}

} // verus!
