//! Statistics of a torrent that the client reports to its user.

use vstd::prelude::*;

verus! {

/// How many of a torrent's pieces are had, being downloaded, and in all.
#[derive(Debug, Default, Clone, Copy, PartialEq, Eq, Structural)]
pub struct PieceStats {
    pub num_pieces: usize,
    pub num_pending: usize,
    pub num_downloaded: usize,
}

impl PieceStats {
    /// Whether every piece is had.
    pub fn is_seed(&self) -> (r: bool)
        ensures
            r == (self.num_downloaded == self.num_pieces),
    {
        self.num_downloaded == self.num_pieces
    }
}

} // verus!
