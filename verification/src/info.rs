//! Piece layout of a torrent.

use vstd::prelude::*;
use crate::metainfo::{total_len_of, InfoView, MetaInfo};

pub use crate::store::FileInfo;

verus! {

/// Lengths and counts of a torrent's pieces.
#[derive(Debug, Clone, Copy)]
pub struct TorrentInfo {
    /// Length of the torrent in bytes.
    pub total_len: u64,
    /// Length of every piece but the last.
    pub piece_len: usize,
    /// Length of the last piece.
    pub last_piece_len: usize,
    /// Number of pieces.
    pub num_pieces: u32,
}

/// Whether the metainfo's piece layout can be held: the total length fits
/// in `u64`, there is a piece, and the pieces before the last fit in the
/// total.
pub open spec fn layout_fits(i: InfoView) -> bool {
    &&& total_len_of(i) <= u64::MAX
    &&& (i.pieces.len() as u32) / 20 >= 1
    &&& i.piece_length * ((i.pieces.len() as u32) / 20 - 1) <= total_len_of(i)
}

/// The piece layout of a torrent: its length, the number and length of its
/// pieces, and the length of the last piece (what the other pieces leave of
/// the total).
pub open spec fn torrent_info_of(i: InfoView) -> TorrentInfo {
    let n = (i.pieces.len() as u32) / 20;
    TorrentInfo {
        total_len: total_len_of(i) as u64,
        piece_len: i.piece_length as usize,
        last_piece_len: (total_len_of(i) - i.piece_length * (n - 1)) as usize,
        num_pieces: n,
    }
}

impl TorrentInfo {
    /// Length of piece `idx`: the last piece (compared as `u32`) has its own length.
    pub open spec fn spec_piece_len(self, idx: usize) -> usize {
        if idx as u32 == self.num_pieces - 1 {
            self.last_piece_len
        } else {
            self.piece_len
        }
    }

    /// Returns the length of a piece given its index.
    pub fn piece_len(&self, idx: usize) -> (n: usize)
        requires
            self.num_pieces >= 1,
        ensures
            n == self.spec_piece_len(idx),
    {
        if idx as u32 == self.num_pieces - 1 {
            self.last_piece_len
        } else {
            self.piece_len
        }
    }

    /// The piece layout of a torrent: its length, the number and length of
    /// its pieces, and the length of the last piece (what the other pieces
    /// leave of the total).
    pub fn new(metainfo: &MetaInfo) -> (t: Self)
        requires
            layout_fits(metainfo@.info),
        ensures
            t == torrent_info_of(metainfo@.info),
    {
        let total_len = metainfo.total_len();
        let num_pieces = metainfo.num_pieces();
        let piece_len = metainfo.piece_len();
        proof {
            assert(piece_len as u64 * (num_pieces as u64 - 1) <= total_len);
        }
        let last_piece_len = (total_len - (piece_len as u64 * (num_pieces as u64 - 1))) as usize;
        TorrentInfo { total_len, piece_len, last_piece_len, num_pieces }
    }
}

} // verus!
