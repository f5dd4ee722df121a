//! Blocks: the 16 KiB units in which pieces are requested and sent.

use vstd::prelude::*;
use std::sync::Arc;
use crate::BLOCK_SIZE;
use crate::store::StoreInfo;

verus! {

/// The data of a block, either owned or shared with a read cache.
#[derive(Debug, Clone, PartialEq, Eq)]
pub enum BlockData {
    Owned(Vec<u8>),
    Cached(Arc<Vec<u8>>),
}

impl BlockData {
    /// The bytes the block holds.
    pub open spec fn bytes(&self) -> Seq<u8> {
        match self {
            BlockData::Owned(data) => data@,
            BlockData::Cached(data) => (**data)@,
        }
    }

    /// The bytes of the block.
    pub fn as_slice(&self) -> (r: &[u8])
        ensures
            r@ == self.bytes(),
    {
        match self {
            BlockData::Owned(data) => data.as_slice(),
            BlockData::Cached(data) => data.as_slice(),
        }
    }

    /// Number of bytes in the block.
    pub fn len(&self) -> (n: usize)
        ensures
            n == self.bytes().len(),
    {
        match self {
            BlockData::Owned(data) => data.len(),
            BlockData::Cached(data) => data.len(),
        }
    }

    /// Takes the owned bytes out; only owned data can be converted.
    pub fn into_owned(self) -> (v: Vec<u8>)
        requires
            self is Owned,
        ensures
            v@ == self.bytes(),
    {
        match self {
            BlockData::Owned(data) => data,
            BlockData::Cached(data) => {
                proof {
                    assert(false);
                }
                Vec::new()
            },
        }
    }
}

/// A block of data within a piece.
#[derive(Debug, Clone, PartialEq, Eq)]
pub struct Block {
    /// Index of the piece that holds the block.
    pub piece_idx: usize,
    /// Offset in bytes of the block within its piece.
    pub offset: usize,
    /// Data of the block.
    pub data: BlockData,
}

/// A request for a block: piece, offset within the piece and length.
#[derive(Debug, Clone, Copy, PartialEq, Eq, Hash, Structural)]
pub struct BlockInfo {
    pub piece_idx: usize,
    pub offset: usize,
    pub len: usize,
}

impl Block {
    /// Index of the block within its piece.
    pub fn idx_in_piece(&self) -> (i: usize)
        ensures
            i == self.offset / BLOCK_SIZE,
    {
        self.offset / BLOCK_SIZE
    }
}

impl BlockInfo {
    /// Index of the requested block within its piece.
    pub fn idx_in_piece(&self) -> (i: usize)
        ensures
            i == self.offset / BLOCK_SIZE,
    {
        self.offset / BLOCK_SIZE
    }

    /// Whether the request lies within the torrent: the piece exists and the
    /// block ends within the piece.
    pub open spec fn spec_is_valid(&self, info: StoreInfo) -> bool {
        &&& self.piece_idx < info.num_pieces
        &&& self.offset + self.len <= info.spec_piece_len(self.piece_idx)
    }

    /// Checks that the request lies within the torrent described by `info`.
    pub fn is_valid(&self, info: &StoreInfo) -> (b: bool)
        requires
            info.num_pieces >= 1,
            self.offset + self.len <= usize::MAX,
        ensures
            b == self.spec_is_valid(*info),
    {
        if self.piece_idx >= info.num_pieces as usize {
            return false;
        }
        if self.offset + self.len > info.piece_len(self.piece_idx) {
            return false;
        }
        true
    }
}

/// Length of block `block_idx` in a piece of `piece_len` bytes: a full block,
/// or what remains of the piece for the last block.
pub open spec fn spec_block_len(piece_len: int, block_idx: int) -> int {
    let remaining = piece_len - block_idx * BLOCK_SIZE;
    if remaining < BLOCK_SIZE { remaining } else { BLOCK_SIZE as int }
}

/// Number of blocks in a piece of `piece_len` bytes (the last may be short).
pub open spec fn spec_num_blocks(piece_len: int) -> int {
    (piece_len + BLOCK_SIZE - 1) / (BLOCK_SIZE as int)
}

/// Length of block `block_idx` within a piece of length `piece_len`.
pub fn block_len(piece_len: usize, block_idx: usize) -> (n: usize)
    requires
        block_idx * BLOCK_SIZE <= piece_len,
    ensures
        n == spec_block_len(piece_len as int, block_idx as int),
{
    let remaining = piece_len - block_idx * BLOCK_SIZE;
    if remaining < BLOCK_SIZE { remaining } else { BLOCK_SIZE }
}

/// Number of blocks in a piece of length `piece_len`, truncated to `u32`.
pub fn num_blocks(piece_len: usize) -> (n: u32)
    requires
        piece_len + BLOCK_SIZE - 1 <= usize::MAX,
    ensures
        n == (spec_num_blocks(piece_len as int) as u32),
{
    ((piece_len + (BLOCK_SIZE - 1)) / BLOCK_SIZE) as u32
}

} // verus!
