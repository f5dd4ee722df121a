//! Which pieces to download next: piece frequencies among peers and the
//! client's own pieces.

use vstd::prelude::*;
use crate::bitfield::{max_bits, Bitfield};

verus! {

#[derive(Clone, Copy, Default, Debug)]
struct PieceInfo {
    /// Number of peers that have this piece.
    frequency: usize,
    /// Whether the piece is partially downloaded.
    is_partial: bool,
}

/// Every piece of the torrent with its frequency and state, and the pieces
/// the client has.
#[derive(Debug)]
pub struct Pieces {
    pieces: Vec<PieceInfo>,
    have: Bitfield,
}

/// Whether piece `i` can be picked: not had, some peer has it, not partial,
/// and the peer's bitfield `bf` has it.
pub open spec fn pickable(freq: Seq<usize>, partial: Seq<bool>, have: Seq<bool>, bf: Seq<bool>, i: int) -> bool {
    !have[i] && freq[i] > 0 && !partial[i] && bf[i]
}

/// Whether piece `i` passes the tests that come before the peer's bitfield is read.
pub open spec fn candidate(freq: Seq<usize>, partial: Seq<bool>, have: Seq<bool>, i: int) -> bool {
    !have[i] && freq[i] > 0 && !partial[i]
}

/// The first piece from `from` on that can be picked.
pub open spec fn first_pickable(freq: Seq<usize>, partial: Seq<bool>, have: Seq<bool>, bf: Seq<bool>, from: int) -> Option<int>
    decreases have.len() - from,
{
    if from < 0 || from >= have.len() {
        None
    } else if pickable(freq, partial, have, bf, from) {
        Some(from)
    } else {
        first_pickable(freq, partial, have, bf, from + 1)
    }
}

/// Whether the scan for a piece to pick reads past the end of the peer's
/// bitfield before it stops.
pub open spec fn pick_reads_past(freq: Seq<usize>, partial: Seq<bool>, have: Seq<bool>, bf: Seq<bool>, from: int) -> bool
    decreases have.len() - from,
{
    if from < 0 || from >= have.len() {
        false
    } else if candidate(freq, partial, have, from) && from >= bf.len() {
        true
    } else if pickable(freq, partial, have, bf, from) {
        false
    } else {
        pick_reads_past(freq, partial, have, bf, from + 1)
    }
}

impl Pieces {
    /// Frequency of each piece among peers.
    pub closed spec fn frequencies(&self) -> Seq<usize> {
        self.pieces@.map_values(|p: PieceInfo| p.frequency)
    }

    /// Whether each piece is partially downloaded.
    pub closed spec fn partial(&self) -> Seq<bool> {
        self.pieces@.map_values(|p: PieceInfo| p.is_partial)
    }

    /// The pieces the client has.
    pub closed spec fn have(&self) -> Seq<bool> {
        self.have@
    }

    /// A torrent of `num_pieces` pieces, none had, none seen at a peer.
    pub fn new(num_pieces: usize) -> (p: Self)
        requires
            num_pieces <= max_bits(),
        ensures
            p.frequencies() == Seq::new(num_pieces as nat, |i: int| 0usize),
            p.partial() == Seq::new(num_pieces as nat, |i: int| false),
            p.have() == Seq::new(num_pieces as nat, |i: int| false),
    {
        let mut have = Bitfield::new();
        have.resize(num_pieces, false);
        let mut pieces: Vec<PieceInfo> = Vec::new();
        let mut i: usize = 0;
        while i < num_pieces
            invariant
                0 <= i <= num_pieces,
                forall|k: int| 0 <= k < pieces@.len() ==> #[trigger] pieces@[k] == (PieceInfo { frequency: 0, is_partial: false }),
                pieces@.len() == i,
            decreases num_pieces - i,
        {
            pieces.push(PieceInfo { frequency: 0, is_partial: false });
            i = i + 1;
        }
        let p = Pieces { pieces, have };
        proof {
            assert(p.frequencies() =~= Seq::new(num_pieces as nat, |i: int| 0usize));
            assert(p.partial() =~= Seq::new(num_pieces as nat, |i: int| false));
            assert(p.have() =~= Seq::new(num_pieces as nat, |i: int| false));
        }
        p
    }

    /// Whether each piece's count of peers can grow by one.
    pub fn counts_below_max(&self) -> (r: bool)
        ensures
            r == forall|i: int| 0 <= i < self.frequencies().len() ==> #[trigger] self.frequencies()[i] < usize::MAX,
    {
        let mut i: usize = 0;
        while i < self.pieces.len()
            invariant
                0 <= i <= self.pieces@.len(),
                forall|k: int| 0 <= k < i ==> #[trigger] self.frequencies()[k] < usize::MAX,
            decreases self.pieces@.len() - i,
        {
            proof {
                assert(self.frequencies()[i as int] == self.pieces@[i as int].frequency);
            }
            if self.pieces[i].frequency == usize::MAX {
                return false;
            }
            i = i + 1;
        }
        true
    }

    /// The pieces the client has.
    pub fn own_bitfield(&self) -> (bf: &Bitfield)
        ensures
            bf@ == self.have(),
    {
        &self.have
    }

    /// Whether the client has every piece.
    pub fn all(&self) -> (r: bool)
        ensures
            r == (forall|i: int| 0 <= i < self.have().len() ==> #[trigger] self.have()[i]),
    {
        let r = self.have.all();
        proof {
            assert(self.have() == self.have@);
        }
        r
    }

    /// Replaces the client's pieces.
    pub fn set_own_bitfield(&mut self, bf: Bitfield)
        ensures
            final(self).have() == bf@,
            final(self).frequencies() == old(self).frequencies(),
            final(self).partial() == old(self).partial(),
    {
        self.have = bf;
    }

    /// Counts one more peer having piece `idx`; returns whether the client
    /// has the piece.
    pub fn increment_piece(&mut self, idx: usize) -> (r: bool)
        requires
            idx < old(self).frequencies().len(),
            idx < old(self).have().len(),
            old(self).frequencies()[idx as int] < usize::MAX,
        ensures
            final(self).frequencies() == old(self).frequencies().update(
                idx as int,
                (old(self).frequencies()[idx as int] + 1) as usize,
            ),
            final(self).partial() == old(self).partial(),
            final(self).have() == old(self).have(),
            r == old(self).have()[idx as int],
    {
        let mut p = self.pieces[idx];
        p.frequency = p.frequency + 1;
        self.pieces.set(idx, p);
        proof {
            assert(self.frequencies() =~= old(self).frequencies().update(
                idx as int,
                (old(self).frequencies()[idx as int] + 1) as usize,
            ));
            assert(self.partial() =~= old(self).partial());
        }
        self.have.get(idx)
    }

    /// Records that the client has piece `idx`.
    pub fn received_piece(&mut self, idx: usize)
        requires
            idx < old(self).frequencies().len(),
            idx < old(self).have().len(),
        ensures
            final(self).have() == old(self).have().update(idx as int, true),
            final(self).frequencies() == old(self).frequencies(),
            final(self).partial() == old(self).partial(),
    {
        self.have.set(idx, true);
    }

    /// Counts a peer's pieces into the frequencies; returns whether the peer
    /// has a piece that the client does not have.
    pub fn bitfield_update(&mut self, bf: &Bitfield) -> (interested: bool)
        requires
            bf@.len() <= old(self).frequencies().len(),
            bf@.len() <= old(self).have().len(),
            forall|i: int| 0 <= i < bf@.len() && bf@[i] ==> #[trigger] old(self).frequencies()[i] < usize::MAX,
        ensures
            final(self).frequencies() == Seq::new(
                old(self).frequencies().len(),
                |i: int| if i < bf@.len() && bf@[i] {
                    (old(self).frequencies()[i] + 1) as usize
                } else {
                    old(self).frequencies()[i]
                },
            ),
            final(self).partial() == old(self).partial(),
            final(self).have() == old(self).have(),
            interested == (exists|i: int| 0 <= i < bf@.len() && bf@[i] && !#[trigger] old(self).have()[i]),
    {
        let mut interested = false;
        let n = bf.len();
        let mut i: usize = 0;
        proof {
            assert(self.frequencies() =~= Seq::new(
                old(self).frequencies().len(),
                |k: int| if k < 0 && bf@[k] {
                    (old(self).frequencies()[k] + 1) as usize
                } else {
                    old(self).frequencies()[k]
                },
            ));
        }
        while i < n
            invariant
                0 <= i <= n,
                self.pieces@.len() == old(self).frequencies().len(),
                n == bf@.len(),
                n <= old(self).frequencies().len(),
                n <= old(self).have().len(),
                forall|k: int| 0 <= k < bf@.len() && bf@[k] ==> #[trigger] old(self).frequencies()[k] < usize::MAX,
                self.have() == old(self).have(),
                self.partial() == old(self).partial(),
                self.frequencies() == Seq::new(
                    old(self).frequencies().len(),
                    |k: int| if k < i && bf@[k] {
                        (old(self).frequencies()[k] + 1) as usize
                    } else {
                        old(self).frequencies()[k]
                    },
                ),
                interested == (exists|k: int| 0 <= k < i && bf@[k] && !#[trigger] old(self).have()[k]),
            decreases n - i,
        {
            if bf.get(i) {
                let ghost before = self.frequencies();
                proof {
                    assert(before[i as int] == self.pieces@[i as int].frequency);
                    assert(before[i as int] == old(self).frequencies()[i as int]);
                }
                let ghost pv = self.pieces@;
                let mut p = self.pieces[i];
                p.frequency = p.frequency + 1;
                self.pieces.set(i, p);
                if !self.have.get(i) {
                    interested = true;
                }
                proof {
                    let target = Seq::new(
                        old(self).frequencies().len(),
                        |k: int| if k < i + 1 && bf@[k] {
                            (old(self).frequencies()[k] + 1) as usize
                        } else {
                            old(self).frequencies()[k]
                        },
                    );
                    assert forall|k: int| 0 <= k < target.len() implies self.frequencies()[k] == target[k] by {
                        if k != i {
                            assert(self.pieces@[k] == pv[k]);
                            assert(before[k] == pv[k].frequency);
                        }
                    }
                    assert(self.frequencies() =~= target);
                    assert(self.partial() =~= old(self).partial());
                }
            } else {
                proof {
                    assert(self.frequencies() =~= Seq::new(
                        old(self).frequencies().len(),
                        |k: int| if k < i + 1 && bf@[k] {
                            (old(self).frequencies()[k] + 1) as usize
                        } else {
                            old(self).frequencies()[k]
                        },
                    ));
                }
            }
            i = i + 1;
        }
        interested
    }

    /// Picks the first piece that the client lacks, some peer has, is not
    /// partially downloaded, and the peer's bitfield `bf` has; marks it
    /// partial.
    pub fn pick_new_piece(&mut self, bf: &Bitfield) -> (r: Option<usize>)
        requires
            old(self).have().len() <= old(self).frequencies().len(),
            !pick_reads_past(old(self).frequencies(), old(self).partial(), old(self).have(), bf@, 0),
        ensures
            r == (match first_pickable(old(self).frequencies(), old(self).partial(), old(self).have(), bf@, 0) {
                Some(i) => Some(i as usize),
                None => None::<usize>,
            }),
            final(self).partial() == (match r {
                Some(i) => old(self).partial().update(i as int, true),
                None => old(self).partial(),
            }),
            final(self).frequencies() == old(self).frequencies(),
            final(self).have() == old(self).have(),
    {
        let ghost f = self.frequencies();
        let ghost pa = self.partial();
        let ghost h = self.have();
        let n = self.have.len();
        let mut idx: usize = 0;
        while idx < n
            invariant
                0 <= idx <= n,
                n == h.len(),
                h.len() <= f.len(),
                f == self.frequencies(),
                pa == self.partial(),
                h == self.have(),
                f == old(self).frequencies(),
                pa == old(self).partial(),
                h == old(self).have(),
                first_pickable(f, pa, h, bf@, 0) == first_pickable(f, pa, h, bf@, idx as int),
                !pick_reads_past(f, pa, h, bf@, idx as int),
            decreases n - idx,
        {
            let p = self.pieces[idx];
            proof {
                assert(f[idx as int] == p.frequency);
                assert(pa[idx as int] == p.is_partial);
            }
            if !self.have.get(idx) && p.frequency > 0 && !p.is_partial && bf.get(idx) {
                let mut q = p;
                q.is_partial = true;
                self.pieces.set(idx, q);
                proof {
                    assert(self.partial() =~= pa.update(idx as int, true));
                    assert(self.frequencies() =~= f);
                }
                return Some(idx);
            }
            idx = idx + 1;
        }
        None
    }
}

} // verus!
