//! Pieces assembled from blocks for the file store.

use vstd::prelude::*;
use std::ops::Range;
use crate::hash::{hash_eq, sha1, sha1_digest};
use crate::block::{num_blocks, spec_num_blocks, Block, BlockData, BlockInfo};
use lru::LruCache;
use std::sync::Arc;
use crate::store::{files_contiguous, first_file_containing, FileInfo, StoreInfo};
use crate::bitfield::{count_true, lemma_count_true_full, lemma_count_true_lt, lemma_count_true_set, max_bits, Bitfield};
use crate::metainfo::{hex_encode, hex_text};
use crate::BLOCK_SIZE;

verus! {

/// `data` with the bytes from `offset` on replaced by `bytes`.
pub open spec fn splice(data: Seq<u8>, offset: int, bytes: Seq<u8>) -> Seq<u8> {
    data.take(offset) + bytes + data.skip(offset + bytes.len())
}

/// Copies `bytes` into `data` from `offset` on.
pub(crate) fn copy_into(data: &mut Vec<u8>, offset: usize, bytes: &[u8])
    requires
        offset + bytes@.len() <= old(data)@.len(),
    ensures
        final(data)@ == splice(old(data)@, offset as int, bytes@),
{
    let mut i: usize = 0;
    while i < bytes.len()
        invariant
            0 <= i <= bytes.len(),
            offset + bytes@.len() <= old(data)@.len(),
            data@.len() == old(data)@.len(),
            offset + bytes@.len() <= data.len(),
            forall|k: int| 0 <= k < offset ==> data@[k] == old(data)@[k],
            forall|k: int| offset + bytes@.len() <= k < data@.len() ==> data@[k] == old(data)@[k],
            forall|k: int| offset <= k < offset + i ==> data@[k] == bytes@[k - offset],
            forall|k: int| offset + i <= k < offset + bytes@.len() ==> data@[k] == old(data)@[k],
        decreases bytes.len() - i,
    {
        data.set(offset + i, bytes[i]);
        i = i + 1;
    }
    proof {
        assert(data@ =~= splice(old(data)@, offset as int, bytes@));
    }
}

/// Errors of the file store.
#[derive(Debug)]
pub enum DiskError {
    IoError(std::io::Error),
    SyncError(String),
    ChannelError(String),
    /// No torrent with this info hash (hex) is on disk.
    TorrentNotFound(String),
    AllocationError(AllocationError),
    /// Fewer or more bytes than expected were read or written.
    IoSizeError { expected: usize, actual: usize },
}

/// Errors of allocating a new torrent in the file store.
#[derive(Debug)]
pub enum AllocationError {
    DuplicateTorrent,
    IoError(std::io::Error),
}

/// A piece being assembled from its blocks.
#[derive(Debug)]
pub struct Piece {
    /// Hash of the piece given in the metainfo.
    pub hash: [u8; 20],
    /// Length of the piece in bytes.
    pub length: usize,
    /// Piece data.
    pub data: Vec<u8>,
    /// Which blocks have been received, to spot duplicates.
    pub blocks_received: Vec<bool>,
    /// Number of blocks received.
    pub num_blocks_received: u32,
    /// Range of indices of the files that the piece overlaps.
    pub file_overlap: Range<usize>,
}

impl Piece {
    /// Adds the block at `offset`; a block received before is left as it was.
    pub fn add_block(&mut self, offset: usize, data: Vec<u8>)
        requires
            offset / BLOCK_SIZE < old(self).blocks_received@.len(),
            !old(self).blocks_received@[(offset / BLOCK_SIZE) as int] ==> {
                &&& offset + data@.len() <= old(self).data@.len()
                &&& old(self).num_blocks_received < u32::MAX
            },
        ensures
            ({
                let i = (offset / BLOCK_SIZE) as int;
                if old(self).blocks_received@[i] {
                    *final(self) == *old(self)
                } else {
                    &&& final(self).blocks_received@ == old(self).blocks_received@.update(i, true)
                    &&& final(self).num_blocks_received == old(self).num_blocks_received + 1
                    &&& final(self).data@ == splice(old(self).data@, offset as int, data@)
                    &&& final(self).hash == old(self).hash
                    &&& final(self).length == old(self).length
                    &&& final(self).file_overlap == old(self).file_overlap
                }
            }),
            old(self).num_blocks_received == count_true(old(self).blocks_received@)
                ==> final(self).num_blocks_received == count_true(final(self).blocks_received@),
    {
        let block_idx = offset / BLOCK_SIZE;
        if self.blocks_received[block_idx] {
            return;
        }
        proof {
            lemma_count_true_set(self.blocks_received@, block_idx as int);
        }
        self.blocks_received.set(block_idx, true);
        self.num_blocks_received = self.num_blocks_received + 1;
        copy_into(&mut self.data, offset, data.as_slice());
    }

    /// Whether every block has come: as many blocks received as the piece
    /// has; where the count is that of the received flags, exactly when
    /// every flag is set.
    pub fn is_complete(&self) -> (r: bool)
        ensures
            r == (self.num_blocks_received == self.blocks_received@.len()),
            self.num_blocks_received == count_true(self.blocks_received@) ==> (r <==> forall|k: int|
                0 <= k < self.blocks_received@.len() ==> self.blocks_received@[k]),
    {
        proof {
            lemma_count_true_full(self.blocks_received@);
        }
        self.num_blocks_received as usize == self.blocks_received.len()
    }

    /// Whether the SHA1 digest of the data is the hash of the metainfo.
    pub fn verify_hash(&self) -> (r: bool)
        ensures
            r == (sha1_digest(self.data@) == self.hash@),
    {
        let h = sha1(self.data.as_slice());
        hash_eq(&h, &self.hash)
    }
}

} // verus!

verus! {

/// A part of a piece that lies in one file: the file, where in the file the
/// part starts, where in the piece it starts, and its length.
#[derive(Debug, Clone, Copy, PartialEq, Eq, Structural)]
pub struct Segment {
    pub file: usize,
    pub file_offset: usize,
    pub start: usize,
    pub len: usize,
}

/// The parts of a piece of `length` bytes in the files `files[i..end]`,
/// the piece's byte `written` lying at byte `total` of the torrent: each
/// file takes what is left of the piece or of the file, whichever is less.
pub open spec fn segments(files: Seq<FileInfo>, i: int, end: int, total: int, written: int, length: int) -> Seq<Segment>
    decreases end - i,
{
    if i < 0 || i >= end || i >= files.len() {
        Seq::empty()
    } else {
        let f = files[i];
        let piece_rem = length - written;
        let file_rem = f.offset + f.length - total;
        let n = if piece_rem < file_rem { piece_rem } else { file_rem };
        seq![Segment { file: i as usize, file_offset: (total - f.offset) as usize, start: written as usize, len: n as usize }]
            + segments(files, i + 1, end, total + n, written + n, length)
    }
}

/// Whether each file from `i` to `end` holds the byte of the torrent where
/// the piece goes on, or ends there.
pub open spec fn segments_defined(files: Seq<FileInfo>, i: int, end: int, total: int, written: int, length: int) -> bool
    decreases end - i,
{
    if i < 0 || i >= end || i >= files.len() {
        true
    } else {
        let f = files[i];
        let piece_rem = length - written;
        let file_rem = f.offset + f.length - total;
        let n = if piece_rem < file_rem { piece_rem } else { file_rem };
        &&& f.offset <= total <= f.offset + f.length
        &&& segments_defined(files, i + 1, end, total + n, written + n, length)
    }
}

/// The parts of a piece cut by `piece_segments` follow one another through
/// the piece from its first byte, none goes past the piece's end, and each
/// lies within its file.
pub proof fn law_segments_within(files: Seq<FileInfo>, i: int, end: int, total: int, written: int, length: int)
    requires
        segments_defined(files, i, end, total, written, length),
        0 <= written <= length <= usize::MAX,
        0 <= i,
        end <= files.len() <= usize::MAX,
    ensures
        ({
            let s = segments(files, i, end, total, written, length);
            &&& forall|k: int|
                0 <= k < s.len() ==> {
                    &&& (#[trigger] s[k]).start + s[k].len <= length
                    &&& s[k].file_offset + s[k].len <= files[s[k].file as int].length
                    &&& i <= s[k].file < end
                }
            &&& s.len() > 0 ==> s[0].start == written
            &&& forall|k: int| 0 <= k < s.len() - 1 ==> #[trigger] s[k + 1].start == s[k].start + s[k].len
        }),
    decreases end - i,
{
    if i < end && i < files.len() {
        let f = files[i];
        let piece_rem = length - written;
        let file_rem = f.offset + f.length - total;
        let n = if piece_rem < file_rem { piece_rem } else { file_rem };
        law_segments_within(files, i + 1, end, total + n, written + n, length);
        let rest = segments(files, i + 1, end, total + n, written + n, length);
        let s = segments(files, i, end, total, written, length);
        let seg = Segment { file: i as usize, file_offset: (total - f.offset) as usize, start: written as usize, len: n as usize };
        assert(s == seq![seg] + rest);
        assert(seg.start == written && seg.len == n && seg.file_offset == total - f.offset && seg.file == i);
        assert(s[0] == seg);
        assert forall|k: int| 0 <= k < s.len() implies {
            &&& (#[trigger] s[k]).start + s[k].len <= length
            &&& s[k].file_offset + s[k].len <= files[s[k].file as int].length
            &&& i <= s[k].file < end
        } by {
            if k > 0 {
                assert(s[k] == rest[k - 1]);
            }
        }
        assert forall|k: int| 0 <= k < s.len() - 1 implies #[trigger] s[k + 1].start == s[k].start + s[k].len by {
            assert(s[k + 1] == rest[k]);
            if k > 0 {
                assert(s[k] == rest[k - 1]);
                assert(rest[(k - 1) + 1].start == rest[k - 1].start + rest[k - 1].len);
            } else {
                assert(rest.len() > 0);
                assert(rest[0].start == written + n);
            }
        }
    }
}

/// The number of bytes in `segs`.
pub open spec fn seg_total(segs: Seq<Segment>) -> int
    decreases segs.len(),
{
    if segs.len() == 0 {
        0
    } else {
        segs[0].len + seg_total(segs.drop_first())
    }
}

/// From file `i`, which holds byte `total` of the torrent (or ends there),
/// on to file `e`, the first from `i` that holds the piece's last byte, the
/// parts of the piece take up all that is left of it.
proof fn lemma_segments_cover(files: Seq<FileInfo>, i: int, e: int, total: int, written: int, length: int)
    requires
        files_contiguous(files),
        0 <= i <= e < files.len(),
        files[i].offset <= total <= files[i].offset + files[i].length,
        0 <= written < length <= usize::MAX,
        first_file_containing(files, i, total + (length - written) - 1) == Some(e),
    ensures
        segments_defined(files, i, e + 1, total, written, length),
        seg_total(segments(files, i, e + 1, total, written, length)) == length - written,
    decreases e - i,
{
    let last = total + (length - written) - 1;
    let f = files[i];
    let piece_rem = length - written;
    let file_rem = f.offset + f.length - total;
    let n = if piece_rem < file_rem { piece_rem } else { file_rem };
    let segs = segments(files, i, e + 1, total, written, length);
    let rest = segments(files, i + 1, e + 1, total + n, written + n, length);
    lemma_first_file_bounds(files, i + 1, last);
    if i == e {
        assert(f.contains(last));
        assert(n == piece_rem);
        assert(segments_defined(files, i + 1, e + 1, total + n, written + n, length));
    } else {
        assert(!f.contains(last));
        assert(n == file_rem);
        assert(files[i + 1].offset == f.offset + f.length);
        lemma_segments_cover(files, i + 1, e, total + n, written + n, length);
    }
    assert(segments_defined(files, i, e + 1, total, written, length));
    let seg = Segment { file: i as usize, file_offset: (total - f.offset) as usize, start: written as usize, len: n as usize };
    assert(segs == seq![seg] + rest);
    assert(segs.drop_first() =~= rest);
    assert(segs[0].len == n);
    if i == e {
        assert(rest.len() == 0);
        assert(seg_total(rest) == 0);
    }
}

/// Cut over the files that `piece_file_intersections` gives, where the files
/// lie one after the other, a piece's parts are defined and take up all of
/// the piece, so that each of its bytes is written to exactly one place.
pub proof fn law_piece_segments_cover(info: StoreInfo, idx: usize, start: int, end: int)
    requires
        files_contiguous(info.files@),
        info.intersections_defined(idx),
        info.spec_piece_len(idx) > 0,
        first_file_containing(info.files@, 0, info.piece_first_byte(idx)) == Some(start),
        first_file_containing(info.files@, start, info.piece_last_byte(idx)) == Some(end),
    ensures
        segments_defined(info.files@, start, end + 1, info.piece_first_byte(idx), 0, info.spec_piece_len(idx) as int),
        seg_total(segments(info.files@, start, end + 1, info.piece_first_byte(idx), 0, info.spec_piece_len(idx) as int))
            == info.spec_piece_len(idx),
{
    let files = info.files@;
    let first = info.piece_first_byte(idx);
    lemma_first_file_bounds(files, 0, first);
    lemma_first_file_bounds(files, start, info.piece_last_byte(idx));
    lemma_segments_cover(files, start, end, first, 0, info.spec_piece_len(idx) as int);
}

/// The first file from `from` that holds byte `x` lies at or after `from`,
/// and holds it.
proof fn lemma_first_file_bounds(files: Seq<FileInfo>, from: int, x: int)
    requires
        0 <= from,
    ensures
        first_file_containing(files, from, x) matches Some(k) ==> from <= k < files.len() && files[k].contains(x),
    decreases files.len() - from,
{
    if from < files.len() && !files[from].contains(x) {
        lemma_first_file_bounds(files, from + 1, x);
    }
}

/// Cuts a piece of `length` bytes at byte `piece_offset` of the torrent into
/// the parts that lie in the files of `overlap`.
pub fn piece_segments(files: &Vec<FileInfo>, overlap: Range<usize>, piece_offset: usize, length: usize) -> (r: Vec<Segment>)
    requires
        overlap.start <= overlap.end <= files@.len(),
        forall|i: int| 0 <= i < files@.len() ==> #[trigger] files@[i].offset + files@[i].length <= usize::MAX,
        segments_defined(files@, overlap.start as int, overlap.end as int, piece_offset as int, 0, length as int),
    ensures
        r@ == segments(files@, overlap.start as int, overlap.end as int, piece_offset as int, 0, length as int),
{
    let mut out: Vec<Segment> = Vec::new();
    let mut total = piece_offset;
    let mut written: usize = 0;
    let mut i = overlap.start;
    let ghost whole = segments(files@, overlap.start as int, overlap.end as int, piece_offset as int, 0, length as int);
    while i < overlap.end
        invariant
            overlap.start <= i <= overlap.end <= files@.len(),
            forall|k: int| 0 <= k < files@.len() ==> #[trigger] files@[k].offset + files@[k].length <= usize::MAX,
            written <= length,
            segments_defined(files@, i as int, overlap.end as int, total as int, written as int, length as int),
            whole == out@ + segments(files@, i as int, overlap.end as int, total as int, written as int, length as int),
        decreases overlap.end - i,
    {
        let f = &files[i];
        let piece_rem = length - written;
        let file_rem = f.offset + f.length - total;
        let n = if piece_rem < file_rem { piece_rem } else { file_rem };
        let seg = Segment { file: i, file_offset: total - f.offset, start: written, len: n };
        let ghost before = out@;
        out.push(seg);
        proof {
            assert(out@ =~= before + seq![seg]);
            assert(whole =~= out@ + segments(files@, i + 1, overlap.end as int, total + n, written + n, length as int));
        }
        total = total + n;
        written = written + n;
        i = i + 1;
    }
    proof {
        assert(whole =~= out@);
    }
    out
}

/// Whether `piece_segments` can cut a piece of `length` bytes at byte
/// `piece_offset` of the torrent into the files of `overlap`: the files
/// exist and end within `usize`, and each holds the byte where the piece
/// goes on (see `segments_defined`).
pub fn segments_known(files: &Vec<FileInfo>, overlap: Range<usize>, piece_offset: usize, length: usize) -> (r: bool)
    ensures
        r == {
            &&& overlap.start <= overlap.end <= files@.len()
            &&& forall|i: int| 0 <= i < files@.len() ==> #[trigger] files@[i].offset + files@[i].length <= usize::MAX
            &&& segments_defined(files@, overlap.start as int, overlap.end as int, piece_offset as int, 0, length as int)
        },
{
    if overlap.start > overlap.end || overlap.end > files.len() {
        return false;
    }
    let mut k: usize = 0;
    while k < files.len()
        invariant
            0 <= k <= files@.len(),
            forall|m: int| 0 <= m < k ==> #[trigger] files@[m].offset + files@[m].length <= usize::MAX,
        decreases files@.len() - k,
    {
        if files[k].length > usize::MAX - files[k].offset {
            return false;
        }
        k = k + 1;
    }
    let mut total = piece_offset;
    let mut written: usize = 0;
    let mut i = overlap.start;
    while i < overlap.end
        invariant
            overlap.start <= i <= overlap.end <= files@.len(),
            forall|m: int| 0 <= m < files@.len() ==> #[trigger] files@[m].offset + files@[m].length <= usize::MAX,
            written <= length,
            segments_defined(files@, overlap.start as int, overlap.end as int, piece_offset as int, 0, length as int)
                == segments_defined(files@, i as int, overlap.end as int, total as int, written as int, length as int),
        decreases overlap.end - i,
    {
        let f = &files[i];
        if total < f.offset || total > f.offset + f.length {
            return false;
        }
        let piece_rem = length - written;
        let file_rem = f.offset + f.length - total;
        let n = if piece_rem < file_rem { piece_rem } else { file_rem };
        total = total + n;
        written = written + n;
        i = i + 1;
    }
    true
}

/// The model of a piece being assembled.
pub struct PieceView {
    pub hash: Seq<u8>,
    pub length: usize,
    pub data: Seq<u8>,
    pub blocks_received: Seq<bool>,
    pub num_blocks_received: u32,
    pub file_overlap: (usize, usize),
}

impl View for Piece {
    type V = PieceView;

    open spec fn view(&self) -> PieceView {
        PieceView {
            hash: self.hash@,
            length: self.length,
            data: self.data@,
            blocks_received: self.blocks_received@,
            num_blocks_received: self.num_blocks_received,
            file_overlap: (self.file_overlap.start, self.file_overlap.end),
        }
    }
}

/// A piece with no block received yet.
pub open spec fn fresh_piece(hash: Seq<u8>, length: usize, overlap: (usize, usize)) -> PieceView {
    PieceView {
        hash,
        length,
        data: Seq::new(length as nat, |i: int| 0u8),
        blocks_received: Seq::new(spec_num_blocks(length as int) as u32 as nat, |i: int| false),
        num_blocks_received: 0,
        file_overlap: overlap,
    }
}

/// A piece after the block at `offset` is added: a block received before
/// leaves it as it was.
pub open spec fn piece_add(p: PieceView, offset: usize, bytes: Seq<u8>) -> PieceView {
    let k = (offset / BLOCK_SIZE) as int;
    if p.blocks_received[k] {
        p
    } else {
        PieceView {
            blocks_received: p.blocks_received.update(k, true),
            num_blocks_received: (p.num_blocks_received + 1) as u32,
            data: splice(p.data, offset as int, bytes),
            ..p
        }
    }
}

/// A block added to a piece lands at its offset: the piece then holds the
/// block's bytes there, and every other byte as before; a block received
/// before changes nothing.
pub proof fn law_block_lands_at_offset(p: PieceView, offset: usize, bytes: Seq<u8>, i: int)
    requires
        piece_ok(p),
        offset + bytes.len() <= p.length,
        (offset / BLOCK_SIZE) < p.blocks_received.len(),
        0 <= i < p.length,
    ensures
        ({
            let q = piece_add(p, offset, bytes);
            &&& q.length == p.length
            &&& q.data.len() == p.data.len()
            &&& if p.blocks_received[(offset / BLOCK_SIZE) as int] {
                q == p
            } else if offset <= i < offset + bytes.len() {
                q.data[i] == bytes[i - offset]
            } else {
                q.data[i] == p.data[i]
            }
        }),
{
    let k = (offset / BLOCK_SIZE) as int;
    if !p.blocks_received[k] {
        let d = splice(p.data, offset as int, bytes);
        assert(d.len() == p.data.len());
        if i < offset {
            assert(d[i] == p.data.take(offset as int)[i]);
        } else if i < offset + bytes.len() {
            assert(d[i] == bytes[i - offset]);
        } else {
            assert(d[i] == p.data.skip(offset + bytes.len())[i - offset - bytes.len()]);
        }
    }
}

/// Adding a block keeps a piece's count of received blocks equal to the
/// number of blocks marked received: a block received before changes
/// nothing, and a new one is marked and counted once.
pub proof fn law_add_block_keeps_count(p: PieceView, offset: usize, bytes: Seq<u8>)
    requires
        piece_ok(p),
        offset + bytes.len() <= p.length,
        offset / BLOCK_SIZE < p.blocks_received.len(),
    ensures
        piece_ok(piece_add(p, offset, bytes)),
        ({
            let k = (offset / BLOCK_SIZE) as int;
            let q = piece_add(p, offset, bytes);
            if p.blocks_received[k] {
                q == p
            } else {
                &&& q.blocks_received == p.blocks_received.update(k, true)
                &&& q.num_blocks_received == p.num_blocks_received + 1
                &&& q.data == splice(p.data, offset as int, bytes)
            }
        }),
{
    let k = (offset / BLOCK_SIZE) as int;
    if !p.blocks_received[k] {
        lemma_count_true_lt(p.blocks_received, k);
        lemma_count_true_set(p.blocks_received, k);
        assert(splice(p.data, offset as int, bytes).len() == p.data.len());
    }
}

/// The models of the pieces held for writing, by index.
pub open spec fn buf_view(v: Seq<(usize, Piece)>) -> Seq<(usize, PieceView)> {
    v.map_values(|e: (usize, Piece)| (e.0, e.1@))
}

/// The position of piece `idx` among the held pieces.
pub open spec fn find_piece(buf: Seq<(usize, PieceView)>, idx: usize) -> Option<int> {
    if exists|j: int| 0 <= j < buf.len() && (#[trigger] buf[j]).0 == idx {
        Some(choose|j: int| 0 <= j < buf.len() && (#[trigger] buf[j]).0 == idx)
    } else {
        None
    }
}

/// A torrent's pieces on their way to disk.
pub struct Torrent {
    /// How the torrent is stored.
    info: StoreInfo,
    /// The hash of each piece.
    piece_hashes: Vec<[u8; 20]>,
    /// Pieces being assembled, by index; each index once.
    write_buf: Vec<(usize, Piece)>,
    /// Pieces read lately, cut into blocks, by index.
    read_cache: LruCache<usize, Vec<Arc<Vec<u8>>>>,
}

impl Torrent {
    /// How the torrent is stored.
    pub closed spec fn store(&self) -> StoreInfo {
        self.info
    }

    /// The hash of each piece.
    pub closed spec fn hashes(&self) -> Seq<[u8; 20]> {
        self.piece_hashes@
    }

    /// The pieces held, by index.
    pub closed spec fn buffered(&self) -> Seq<(usize, PieceView)> {
        buf_view(self.write_buf@)
    }

    /// The blocks of the pieces in the read cache, by index.
    pub closed spec fn cached(&self) -> Map<usize, Seq<Seq<u8>>> {
        cache_contents(self.read_cache)
    }

    /// How many pieces the read cache holds at most.
    pub closed spec fn cache_cap(&self) -> nat {
        cache_capacity(self.read_cache)
    }

    /// Whether each piece is held once, with its length, its data and a
    /// count of the blocks received.
    pub open spec fn wf(&self) -> bool {
        &&& self.cached().dom().finite()
        &&& self.cached().dom().len() <= self.cache_cap()
        &&& forall|a: int, b: int|
            0 <= a < b < self.buffered().len() ==> #[trigger] self.buffered()[a].0 != #[trigger] self.buffered()[b].0
        &&& forall|a: int| 0 <= a < self.buffered().len() ==> piece_ok(#[trigger] self.buffered()[a].1)
        &&& forall|a: int|
            0 <= a < self.buffered().len() ==> (#[trigger] self.buffered()[a]).1.length == self.store().spec_piece_len(
                self.buffered()[a].0,
            )
    }

    /// A torrent stored as `info` says, with no piece held and nothing
    /// cached; the read cache holds up to 500 pieces.
    pub fn new(info: StoreInfo, piece_hashes: Vec<[u8; 20]>) -> (t: Self)
        ensures
            t.store() == info,
            t.hashes() == piece_hashes@,
            t.buffered() == Seq::<(usize, PieceView)>::empty(),
            t.cached() == Map::<usize, Seq<Seq<u8>>>::empty(),
            t.cache_cap() == 500,
            t.wf(),
    {
        let t = Torrent { info, piece_hashes, write_buf: Vec::new(), read_cache: new_read_cache(500) };
        proof {
            assert(t.buffered() =~= Seq::<(usize, PieceView)>::empty());
        }
        t
    }

    /// Adds a block to its piece, beginning the piece where none is held;
    /// a piece that has all its blocks leaves the buffer and is given back
    /// with its index, to be checked and written.
    pub fn write_block(&mut self, block: Block) -> (r: Option<(usize, Piece)>)
        requires
            old(self).wf(),
            block_fits(old(self).store(), old(self).hashes(), block),
        ensures
            write_block_post(*old(self), block, *final(self), r),
    {
        let idx = block.piece_idx;
        let ghost buf = self.buffered();
        let mut j: usize = 0;
        let mut found = false;
        while j < self.write_buf.len() && !found
            invariant
                0 <= j <= self.write_buf@.len(),
                buf == self.buffered(),
                buf == buf_view(self.write_buf@),
                found ==> j < buf.len() && buf[j as int].0 == idx,
                forall|k: int| 0 <= k < j ==> (#[trigger] buf[k]).0 != idx,
            decreases self.write_buf@.len() - j, if found { 0int } else { 1int },
        {
            proof {
                assert(buf[j as int].0 == self.write_buf@[j as int].0);
            }
            if self.write_buf[j].0 == idx {
                found = true;
            } else {
                j = j + 1;
            }
        }
        let mut piece = if found {
            proof {
                assert(buf[j as int].0 == idx);
                let c = choose|k: int| 0 <= k < buf.len() && (#[trigger] buf[k]).0 == idx;
                assert(c == j) by {
                    if c != j {
                        if c < j {
                            assert(buf[c].0 != idx);
                        } else {
                            assert(buf[j as int].0 != buf[c].0);
                        }
                    }
                }
                assert(find_piece(buf, idx) == Some(j as int));
            }
            let (_, p) = self.write_buf.remove(j);
            proof {
                assert(buf_view(self.write_buf@) =~= buf.remove(j as int));
            }
            p
        } else {
            proof {
                assert(find_piece(buf, idx) is None);
            }
            let length = self.info.piece_len(idx);
            let n = num_blocks(length) as usize;
            let p = Piece {
                hash: self.piece_hashes[idx],
                length,
                data: vec![0u8; length],
                blocks_received: vec![false; n],
                num_blocks_received: 0,
                file_overlap: self.info.piece_file_intersections(idx),
            };
            proof {
                assert(p@.data =~= Seq::new(length as nat, |i: int| 0u8));
                assert(p@.blocks_received =~= Seq::new(n as nat, |i: int| false));
                assert(p@ == fresh_piece(self.hashes()[idx as int]@, length, overlap_of(self.store(), idx)));
                lemma_count_true_none(p@.blocks_received);
            }
            p
        };
        let ghost before = piece@;
        proof {
            if found {
                assert(before == buf[j as int].1);
                assert(piece_ok(buf[j as int].1));
                assert(buf[j as int].1.length == self.store().spec_piece_len(idx));
            }
            assert(piece_ok(before));
            assert(before.length == self.store().spec_piece_len(idx));
            let k = block.offset / BLOCK_SIZE;
            lemma_block_in_piece(block.offset, before.length);
            if !before.blocks_received[k as int] {
                lemma_count_true_lt(before.blocks_received, k as int);
            }
        }
        piece.add_block(block.offset, vstd::slice::slice_to_vec(block.data.as_slice()));
        proof {
            let k = (block.offset / BLOCK_SIZE) as int;
            if !before.blocks_received[k] {
                lemma_count_true_set(before.blocks_received, k);
            }
            assert(piece@ == piece_add(before, block.offset, block.data.bytes()));
        }
        if piece.num_blocks_received == num_blocks(piece.length) {
            return Some((idx, piece));
        }
        let ghost rest = self.buffered();
        let ghost after = piece@;
        self.write_buf.push((idx, piece));
        proof {
            assert(self.buffered() =~= rest.push((idx, after)));
            assert forall|a: int, b: int| 0 <= a < b < self.buffered().len() implies #[trigger] self.buffered()[a].0
                != #[trigger] self.buffered()[b].0 by {
                if b == rest.len() {
                    assert(rest[a].0 != idx) by {
                        if found {
                            let jj = j as int;
                            let orig = if a < jj { a } else { a + 1 };
                            assert(rest[a] == buf[orig]);
                            assert(buf[jj].0 == idx);
                        } else {
                            assert(rest[a] == buf[a]);
                        }
                    }
                }
            }
        }
        None
    }
}

impl Torrent {
    /// How the torrent is stored.
    pub fn store_info(&self) -> (r: &StoreInfo)
        ensures
            *r == self.store(),
    {
        &self.info
    }

    /// Whether `data`, read from disk, is piece `idx`: its SHA1 digest is
    /// the piece's hash.
    pub fn piece_matches(&self, idx: usize, data: &[u8]) -> (r: bool)
        requires
            idx < self.hashes().len(),
        ensures
            r == (sha1_digest(data@) == self.hashes()[idx as int]@),
    {
        let h = sha1(data);
        hash_eq(&h, &self.piece_hashes[idx])
    }

    /// The number of pieces whose hashes are held.
    pub fn num_hashes(&self) -> (n: usize)
        ensures
            n == self.hashes().len(),
    {
        self.piece_hashes.len()
    }

    /// Whether a block can be written (see `block_fits`): a block that
    /// cannot is not to be handed to `write_block`.
    pub fn fits(&self, block: &Block) -> (r: bool)
        ensures
            r == block_fits(self.store(), self.hashes(), *block),
    {
        let idx = block.piece_idx;
        if idx >= self.info.num_pieces as usize || idx >= self.piece_hashes.len() {
            return false;
        }
        let len = self.info.piece_len(idx);
        if block.offset >= len || block.data.len() > len - block.offset {
            return false;
        }
        if len > usize::MAX - (BLOCK_SIZE - 1) {
            return false;
        }
        if (len + (BLOCK_SIZE - 1)) / BLOCK_SIZE > u32::MAX as usize {
            return false;
        }
        self.info.intersections_known(idx)
    }

    /// Whether a block can be looked up (see `read_block`): a request that
    /// cannot is not to be handed to `read_block`.
    pub fn can_read(&self, block_info: &BlockInfo) -> (r: bool)
        ensures
            r == {
                &&& block_info.piece_idx < self.store().num_pieces
                &&& block_info.piece_idx * self.store().piece_len <= usize::MAX
                &&& self.store().intersections_defined(block_info.piece_idx)
            },
    {
        let idx = block_info.piece_idx;
        if idx >= self.info.num_pieces as usize {
            return false;
        }
        if idx > 0 && self.info.piece_len > usize::MAX / idx {
            proof {
                let m = usize::MAX as int;
                let (a, b) = (idx as int, self.info.piece_len as int);
                assert(a * b > m) by (nonlinear_arith)
                    requires
                        a > 0,
                        b > m / a,
                        m > 0,
                ;
            }
            return false;
        }
        proof {
            let m = usize::MAX as int;
            let (a, b) = (idx as int, self.info.piece_len as int);
            assert(a * b <= m) by (nonlinear_arith)
                requires
                    a == 0 || b <= m / a,
                    a >= 0,
                    m > 0,
            ;
        }
        self.info.intersections_known(idx)
    }

    /// Looks a block up for a peer: from the read cache where its piece is
    /// held there, or else where on disk the piece is to be read from.
    pub fn read_block(&mut self, block_info: &BlockInfo) -> (r: BlockRead)
        requires
            old(self).wf(),
            block_info.piece_idx < old(self).store().num_pieces,
            block_info.piece_idx * old(self).store().piece_len <= usize::MAX,
            old(self).store().intersections_defined(block_info.piece_idx),
        ensures
            final(self).wf(),
            final(self).store() == old(self).store(),
            final(self).hashes() == old(self).hashes(),
            final(self).buffered() == old(self).buffered(),
            final(self).cached() == old(self).cached(),
            final(self).cache_cap() == old(self).cache_cap(),
            read_block_spec(old(self).store(), old(self).cached(), *block_info, r),
    {
        let idx = block_info.piece_idx;
        let k = block_info.idx_in_piece();
        let found = cache_get(&mut self.read_cache, idx);
        proof {
            assert(self.buffered() == old(self).buffered());
            assert(self.cached() == old(self).cached());
            assert(self.cache_cap() == old(self).cache_cap());
            assert(self.store() == old(self).store());
        }
        match found {
            Some(blocks) => {
                proof {
                    assert(blocks@.len() == blocks_view(blocks@).len());
                }
                if k >= blocks.len() {
                    return BlockRead::OutOfRange;
                }
                let data = share(&blocks[k]);
                BlockRead::Cached(Block { piece_idx: idx, offset: block_info.offset, data: BlockData::Cached(data) })
            },
            None => {
                let files = self.info.piece_file_intersections(idx);
                let offset = self.info.piece_total_offset(idx);
                let len = self.info.piece_len(idx);
                proof {
                    assert((files.start, files.end) == overlap_of(self.store(), idx));
                }
                BlockRead::FromDisk { offset, len, files }
            },
        }
    }

    /// Takes in a piece read from disk for the block that a peer asked for:
    /// cuts it into blocks, caches them, and gives that block.
    pub fn piece_read(&mut self, block_info: &BlockInfo, data: Vec<u8>) -> (b: Block)
        requires
            old(self).wf(),
            data@.len() + BLOCK_SIZE - 1 <= usize::MAX,
            block_info.offset / BLOCK_SIZE < spec_num_blocks(data@.len() as int),
        ensures
            final(self).wf(),
            final(self).store() == old(self).store(),
            final(self).hashes() == old(self).hashes(),
            final(self).buffered() == old(self).buffered(),
            final(self).cache_cap() == old(self).cache_cap(),
            cache_put_spec(old(self).cached(), old(self).cache_cap(), block_info.piece_idx, split_blocks_spec(data@), final(self).cached()),
            b.piece_idx == block_info.piece_idx,
            b.offset == block_info.offset,
            b.data.bytes() == block_bytes(data@, (block_info.offset / BLOCK_SIZE) as int),
    {
        let blocks = split_blocks(data.as_slice());
        let k = block_info.idx_in_piece();
        proof {
            assert(blocks@.len() == blocks_view(blocks@).len());
        }
        let block = share(&blocks[k]);
        proof {
            assert(blocks_view(blocks@)[k as int] == block_bytes(data@, k as int));
        }
        cache_put(&mut self.read_cache, block_info.piece_idx, blocks);
        proof {
            assert(self.buffered() == old(self).buffered());
            assert(self.store() == old(self).store());
            lemma_cache_put_bound(old(self).cached(), old(self).cache_cap(), block_info.piece_idx, split_blocks_spec(data@), self.cached());
        }
        Block { piece_idx: block_info.piece_idx, offset: block_info.offset, data: BlockData::Cached(block) }
    }
}

/// Where a block that a peer asked for comes from.
#[derive(Debug)]
pub enum BlockRead {
    /// The block, from its piece in the read cache.
    Cached(Block),
    /// The cached piece has no such block.
    OutOfRange,
    /// The piece is not cached: read `len` bytes at byte `offset` of the
    /// torrent from the files `files`, and hand them to `piece_read`.
    FromDisk { offset: usize, len: usize, files: Range<usize> },
}

/// Whether `r` is what looking up block `b` gives, from the read cache
/// `cache` of a torrent stored as `info`: the cached block, where its piece
/// is cached with that block; out of range, where the piece is cached
/// without it; or else where on disk the piece lies.
pub open spec fn read_block_spec(info: StoreInfo, cache: Map<usize, Seq<Seq<u8>>>, b: BlockInfo, r: BlockRead) -> bool {
    let idx = b.piece_idx;
    let k = (b.offset / BLOCK_SIZE) as int;
    if cache.contains_key(idx) {
        if k < cache[idx].len() {
            r matches BlockRead::Cached(blk) && blk.piece_idx == idx && blk.offset == b.offset && blk.data.bytes()
                == cache[idx][k]
        } else {
            r is OutOfRange
        }
    } else {
        r matches BlockRead::FromDisk { offset, len, files } && offset == idx * info.piece_len && len
            == info.spec_piece_len(idx) && (files.start, files.end) == overlap_of(info, idx)
    }
}

/// Block `k` of a piece: `BLOCK_SIZE` bytes from `k * BLOCK_SIZE`, or what
/// is left of the piece for the last block.
pub open spec fn block_bytes(data: Seq<u8>, k: int) -> Seq<u8> {
    let start = k * BLOCK_SIZE;
    let end = if start + BLOCK_SIZE < data.len() { start + BLOCK_SIZE } else { data.len() as int };
    data.subrange(start, end)
}

/// A piece cut into its blocks.
pub open spec fn split_blocks_spec(data: Seq<u8>) -> Seq<Seq<u8>> {
    Seq::new(spec_num_blocks(data.len() as int) as nat, |k: int| block_bytes(data, k))
}

/// The blocks before block `m` put back together are the piece's first
/// `m * BLOCK_SIZE` bytes, or the whole piece.
proof fn lemma_blocks_prefix(data: Seq<u8>, m: int)
    requires
        0 <= m <= spec_num_blocks(data.len() as int),
    ensures
        split_blocks_spec(data).take(m).flatten_alt() == data.take(
            if m * BLOCK_SIZE < data.len() { m * BLOCK_SIZE } else { data.len() as int },
        ),
    decreases m,
{
    let s = split_blocks_spec(data);
    if m == 0 {
        assert(s.take(0) =~= Seq::<Seq<u8>>::empty());
        assert(data.take(0) =~= Seq::<u8>::empty());
    } else {
        lemma_blocks_prefix(data, m - 1);
        let len = data.len() as int;
        assert((m - 1) * 16384 < len) by (nonlinear_arith)
            requires
                m - 1 < (len + 16383) / 16384,
                len >= 0,
        ;
        assert(m * 16384 == (m - 1) * 16384 + 16384) by (nonlinear_arith);
        assert(s.take(m).drop_last() =~= s.take(m - 1));
        assert(s.take(m).last() == block_bytes(data, m - 1));
        let end = if m * BLOCK_SIZE < len { m * BLOCK_SIZE } else { len };
        assert(data.take((m - 1) * BLOCK_SIZE) + block_bytes(data, m - 1) =~= data.take(end));
    }
}

/// A piece cut into blocks is put back together by joining the blocks in
/// order, and every block but the last is a full `BLOCK_SIZE` bytes.
pub proof fn law_blocks_rebuild_piece(data: Seq<u8>)
    ensures
        split_blocks_spec(data).flatten() == data,
        forall|k: int|
            0 <= k < split_blocks_spec(data).len() - 1 ==> (#[trigger] split_blocks_spec(data)[k]).len()
                == BLOCK_SIZE,
{
    let s = split_blocks_spec(data);
    let n = spec_num_blocks(data.len() as int);
    let len = data.len() as int;
    lemma_blocks_prefix(data, n);
    assert(n * 16384 >= len) by (nonlinear_arith)
        requires
            n == (len + 16383) / 16384,
            len >= 0,
    ;
    assert(s.take(n) =~= s);
    assert(data.take(len) =~= data);
    s.lemma_flatten_and_flatten_alt_are_equivalent();
    assert forall|k: int| 0 <= k < s.len() - 1 implies (#[trigger] s[k]).len() == BLOCK_SIZE by {
        assert(k * 16384 + 16384 < len) by (nonlinear_arith)
            requires
                k + 1 < (len + 16383) / 16384,
                len >= 0,
                k >= 0,
        ;
    }
}

/// The bytes of each block.
pub open spec fn blocks_view(v: Seq<Arc<Vec<u8>>>) -> Seq<Seq<u8>> {
    v.map_values(|a: Arc<Vec<u8>>| (*a)@)
}

/// Cuts a piece into its blocks.
pub fn split_blocks(data: &[u8]) -> (r: Vec<Arc<Vec<u8>>>)
    requires
        data@.len() + BLOCK_SIZE - 1 <= usize::MAX,
    ensures
        blocks_view(r@) == split_blocks_spec(data@),
{
    let n: usize = (data.len() + (BLOCK_SIZE - 1)) / BLOCK_SIZE;
    let mut out: Vec<Arc<Vec<u8>>> = Vec::new();
    let mut k: usize = 0;
    while k < n
        invariant
            0 <= k <= n,
            n == spec_num_blocks(data@.len() as int),
            data@.len() + BLOCK_SIZE - 1 <= usize::MAX,
            blocks_view(out@) == split_blocks_spec(data@).take(k as int),
        decreases n - k,
    {
        proof {
            assert(k * BLOCK_SIZE < data@.len()) by (nonlinear_arith)
                requires
                    k < n,
                    n == (data@.len() + 16383) / 16384,
            ;
        }
        let start = k * BLOCK_SIZE;
        let end = if start + BLOCK_SIZE < data.len() { start + BLOCK_SIZE } else { data.len() };
        let chunk = vstd::slice::slice_to_vec(vstd::slice::slice_subrange(data, start, end));
        let ghost before = out@;
        let ghost bytes = chunk@;
        proof {
            assert(bytes == block_bytes(data@, k as int));
            assert(blocks_view(before).len() == before.len());
            assert(split_blocks_spec(data@).take(k as int).len() == k);
        }
        out.push(Arc::new(chunk));
        proof {
            assert(blocks_view(out@).len() == k + 1);
            assert forall|i: int| 0 <= i < k + 1 implies blocks_view(out@)[i] == split_blocks_spec(data@)[i] by {
                if i < k {
                    assert(out@[i] == before[i]);
                    assert(blocks_view(before)[i] == split_blocks_spec(data@).take(k as int)[i]);
                }
            }
            assert(blocks_view(out@) =~= split_blocks_spec(data@).take(k + 1));
        }
        k = k + 1;
    }
    proof {
        assert(split_blocks_spec(data@).take(n as int) =~= split_blocks_spec(data@));
    }
    out
}

/// What the read cache holds after piece `k` with blocks `v` is put in: the
/// piece replaces its old blocks; where the cache is full and did not hold
/// the piece, some other piece leaves.
pub open spec fn cache_put_spec(
    m0: Map<usize, Seq<Seq<u8>>>,
    cap: nat,
    k: usize,
    v: Seq<Seq<u8>>,
    m1: Map<usize, Seq<Seq<u8>>>,
) -> bool {
    if m0.contains_key(k) || m0.dom().len() < cap {
        m1 == m0.insert(k, v)
    } else {
        exists|j: usize| #[trigger] m0.contains_key(j) && j != k && m1 == m0.remove(j).insert(k, v)
    }
}

/// A block read after its piece was cached comes from the cache, with the
/// bytes of that block of the piece.
pub proof fn law_read_after_cache(
    info: StoreInfo,
    m0: Map<usize, Seq<Seq<u8>>>,
    cap: nat,
    data: Seq<u8>,
    m1: Map<usize, Seq<Seq<u8>>>,
    b: BlockInfo,
    r: BlockRead,
)
    requires
        cache_put_spec(m0, cap, b.piece_idx, split_blocks_spec(data), m1),
        b.offset / BLOCK_SIZE < spec_num_blocks(data.len() as int),
        read_block_spec(info, m1, b, r),
    ensures
        r matches BlockRead::Cached(blk) && blk.piece_idx == b.piece_idx && blk.offset == b.offset
            && blk.data.bytes() == block_bytes(data, (b.offset / BLOCK_SIZE) as int),
{
    let idx = b.piece_idx;
    let v = split_blocks_spec(data);
    if !(m0.contains_key(idx) || m0.dom().len() < cap) {
        let j = choose|j: usize| #[trigger] m0.contains_key(j) && j != idx && m1 == m0.remove(j).insert(idx, v);
        assert(m1 == m0.remove(j).insert(idx, v));
    }
    assert(m1.contains_key(idx) && m1[idx] == v);
}

/// Putting a piece in keeps the cache within its capacity.
proof fn lemma_cache_put_bound(m0: Map<usize, Seq<Seq<u8>>>, cap: nat, k: usize, v: Seq<Seq<u8>>, m1: Map<usize, Seq<Seq<u8>>>)
    requires
        m0.dom().finite(),
        m0.dom().len() <= cap,
        cap > 0,
        cache_put_spec(m0, cap, k, v, m1),
    ensures
        m1.dom().finite(),
        m1.dom().len() <= cap,
{
    if m0.contains_key(k) {
        assert(m1.dom() =~= m0.dom());
    } else if m0.dom().len() < cap {
        assert(m1.dom() =~= m0.dom().insert(k));
    } else {
        let j = choose|j: usize| #[trigger] m0.contains_key(j) && j != k && m1 == m0.remove(j).insert(k, v);
        assert(m1.dom() =~= m0.dom().remove(j).insert(k));
    }
}

#[verifier::external_type_specification]
#[verifier::external_body]
#[verifier::reject_recursive_types(K)]
#[verifier::reject_recursive_types(V)]
#[verifier::reject_recursive_types(S)]
pub struct ExLruCache<K, V, S>(LruCache<K, V, S>);

#[verifier::external_type_specification]
#[verifier::external_body]
pub struct ExLruHasher(lru::DefaultHasher);

/// The blocks of each piece that a read cache holds, by piece index.
pub uninterp spec fn cache_contents(c: LruCache<usize, Vec<Arc<Vec<u8>>>>) -> Map<usize, Seq<Seq<u8>>>;

/// How many pieces a read cache holds at most.
pub uninterp spec fn cache_capacity(c: LruCache<usize, Vec<Arc<Vec<u8>>>>) -> nat;

/// Makes an empty read cache of `cap` pieces.
///
/// Trusted: calls `lru::LruCache::new`, which makes an empty cache holding
/// at most `cap` entries.
#[verifier::external_body]
fn new_read_cache(cap: usize) -> (cache: LruCache<usize, Vec<Arc<Vec<u8>>>>)
    requires
        cap > 0,
    ensures
        cache_contents(cache).is_empty(),
        cache_capacity(cache) == cap,
{
    LruCache::new(std::num::NonZeroUsize::new(cap).unwrap())
}

/// The blocks of piece `k`, where the cache holds it.
///
/// Trusted: calls `lru::LruCache::get`, which finds the entry of `k` in the
/// cache's map and gives its value, or `None`; it moves the entry to the
/// front of the eviction order and changes no entry. The blocks are handed
/// out as shared copies of the cached ones.
#[verifier::external_body]
fn cache_get(c: &mut LruCache<usize, Vec<Arc<Vec<u8>>>>, k: usize) -> (r: Option<Vec<Arc<Vec<u8>>>>)
    ensures
        cache_contents(*final(c)) == cache_contents(*old(c)),
        cache_capacity(*final(c)) == cache_capacity(*old(c)),
        r is Some <==> cache_contents(*old(c)).contains_key(k),
        r matches Some(v) ==> blocks_view(v@) == cache_contents(*old(c))[k],
{
    c.get(&k).cloned()
}

/// Puts the blocks of piece `k` in the cache.
///
/// Trusted: calls `lru::LruCache::put`. Where the cache holds `k`, the value
/// is replaced; where not, and the cache is full, the least recently used
/// entry is removed first (which entry that is, the contract leaves open);
/// then the entry is added.
#[verifier::external_body]
fn cache_put(c: &mut LruCache<usize, Vec<Arc<Vec<u8>>>>, k: usize, v: Vec<Arc<Vec<u8>>>)
    ensures
        cache_capacity(*final(c)) == cache_capacity(*old(c)),
        cache_put_spec(cache_contents(*old(c)), cache_capacity(*old(c)), k, blocks_view(v@), cache_contents(*final(c))),
{
    c.put(k, v);
}

/// Shares a cached block.
///
/// Trusted: calls `Arc::clone`, which gives another pointer to the same
/// value.
#[verifier::external_body]
fn share(a: &Arc<Vec<u8>>) -> (r: Arc<Vec<u8>>)
    ensures
        r == *a,
{
    Arc::clone(a)
}

/// What adding a block does to a torrent's buffer, and what comes out.
pub open spec fn write_block_post(t0: Torrent, block: Block, t1: Torrent, r: Option<(usize, Piece)>) -> bool {
    &&& t1.wf()
    &&& t1.store() == t0.store()
    &&& t1.hashes() == t0.hashes()
    &&& t1.cached() == t0.cached()
    &&& t1.cache_cap() == t0.cache_cap()
    &&& {
                let idx = block.piece_idx;
                let buf = t0.buffered();
                let before = match find_piece(buf, idx) {
                    Some(j) => buf[j].1,
                    None => fresh_piece(
                        t0.hashes()[idx as int]@,
                        t0.store().spec_piece_len(idx),
                        overlap_of(t0.store(), idx),
                    ),
                };
                let rest = match find_piece(buf, idx) {
                    Some(j) => buf.remove(j),
                    None => buf,
                };
                let after = piece_add(before, block.offset, block.data.bytes());
                if after.num_blocks_received == spec_num_blocks(after.length as int) as u32 {
                    r matches Some((i, p)) && i == idx && p@ == after && t1.buffered() == rest
                } else {
                    r is None && t1.buffered() == rest.push((idx, after))
                }
    }
}

/// The files that a piece overlaps, as `piece_file_intersections` finds
/// them.
pub open spec fn overlap_of(info: StoreInfo, idx: usize) -> (usize, usize) {
    if info.files@.len() == 1 {
        (0, 1)
    } else {
        let s = first_file_containing(info.files@, 0, info.piece_first_byte(idx))->Some_0;
        (s as usize, (first_file_containing(info.files@, s, info.piece_last_byte(idx))->Some_0 + 1) as usize)
    }
}

/// Whether a held piece has its length of data and counts its blocks.
pub open spec fn piece_ok(p: PieceView) -> bool {
    &&& p.data.len() == p.length
    &&& spec_num_blocks(p.length as int) <= u32::MAX
    &&& p.blocks_received.len() == spec_num_blocks(p.length as int) as u32
    &&& p.num_blocks_received == count_true(p.blocks_received)
    &&& p.length + BLOCK_SIZE - 1 <= usize::MAX
}

/// Whether a block lies within its piece, which exists and has a hash, and
/// whose files are known.
pub open spec fn block_fits(info: StoreInfo, hashes: Seq<[u8; 20]>, b: Block) -> bool {
    &&& b.piece_idx < info.num_pieces
    &&& b.piece_idx < hashes.len()
    &&& b.offset < info.spec_piece_len(b.piece_idx)
    &&& b.offset + b.data.bytes().len() <= info.spec_piece_len(b.piece_idx)
    &&& info.spec_piece_len(b.piece_idx) + BLOCK_SIZE - 1 <= usize::MAX
    &&& spec_num_blocks(info.spec_piece_len(b.piece_idx) as int) <= u32::MAX
    &&& info.intersections_defined(b.piece_idx)
}

proof fn lemma_count_true_none(s: Seq<bool>)
    requires
        forall|i: int| 0 <= i < s.len() ==> !s[i],
    ensures
        count_true(s) == 0,
    decreases s.len(),
{
    if s.len() > 0 {
        lemma_count_true_none(s.drop_last());
    }
}

/// A byte of a piece lies in one of its blocks.
proof fn lemma_block_in_piece(offset: usize, length: usize)
    requires
        offset < length,
        length + BLOCK_SIZE - 1 <= usize::MAX,
        spec_num_blocks(length as int) <= u32::MAX,
    ensures
        offset / BLOCK_SIZE < spec_num_blocks(length as int) as u32,
{
    assert(offset / BLOCK_SIZE < (length + BLOCK_SIZE - 1) / (BLOCK_SIZE as int)) by (nonlinear_arith)
        requires
            offset < length,
    ;
}

/// The torrents held by the disk task, by info hash.
pub struct Disk {
    torrents: Vec<([u8; 20], Torrent)>,
}

impl Disk {
    /// The info hashes of the torrents held, in order.
    pub closed spec fn ids(&self) -> Seq<Seq<u8>> {
        self.torrents@.map_values(|e: ([u8; 20], Torrent)| e.0@)
    }

    /// The torrent held at position `j`.
    pub closed spec fn torrent_at(&self, j: int) -> Torrent {
        self.torrents@[j].1
    }

    /// Whether each torrent is held once and is well formed.
    pub open spec fn wf(&self) -> bool {
        &&& self.ids().no_duplicates()
        &&& forall|j: int| 0 <= j < self.ids().len() ==> (#[trigger] self.torrent_at(j)).wf()
    }

    /// A disk task with no torrent.
    pub fn new() -> (d: Self)
        ensures
            d.ids() == Seq::<Seq<u8>>::empty(),
            d.wf(),
    {
        let d = Disk { torrents: Vec::new() };
        proof {
            assert(d.ids() =~= Seq::<Seq<u8>>::empty());
        }
        d
    }

    /// The position of the torrent with info hash `id`.
    fn position(&self, id: &[u8; 20]) -> (r: Option<usize>)
        ensures
            match r {
                Some(j) => j < self.ids().len() && self.ids()[j as int] == id@,
                None => !self.ids().contains(id@),
            },
    {
        let mut j: usize = 0;
        while j < self.torrents.len()
            invariant
                0 <= j <= self.torrents@.len(),
                self.ids().len() == self.torrents@.len(),
                forall|k: int| 0 <= k < j ==> self.ids()[k] != id@,
            decreases self.torrents@.len() - j,
        {
            proof {
                assert(self.ids()[j as int] == self.torrents@[j as int].0@);
            }
            if crate::hash::hash_eq(&self.torrents[j].0, id) {
                return Some(j);
            }
            j = j + 1;
        }
        None
    }

    /// Whether a torrent with info hash `id` is held.
    pub fn contains(&self, id: &[u8; 20]) -> (r: bool)
        ensures
            r == self.ids().contains(id@),
    {
        match self.position(id) {
            Some(j) => {
                proof {
                    assert(self.ids()[j as int] == id@);
                }
                true
            },
            None => false,
        }
    }

    /// Takes in a new torrent, refused where one with its info hash is
    /// held.
    pub fn new_torrent(&mut self, id: [u8; 20], torrent: Torrent) -> (r: Result<(), AllocationError>)
        requires
            old(self).wf(),
            torrent.wf(),
        ensures
            final(self).wf(),
            if old(self).ids().contains(id@) {
                r matches Err(AllocationError::DuplicateTorrent) && final(self).ids() == old(self).ids()
                    && forall|j: int| 0 <= j < old(self).ids().len() ==> final(self).torrent_at(j) == old(self).torrent_at(j)
            } else {
                &&& r is Ok
                &&& final(self).ids() == old(self).ids().push(id@)
                &&& forall|j: int| 0 <= j < old(self).ids().len() ==> final(self).torrent_at(j) == old(self).torrent_at(j)
                &&& final(self).torrent_at(old(self).ids().len() as int) == torrent
            },
    {
        if self.contains(&id) {
            return Err(AllocationError::DuplicateTorrent);
        }
        let ghost before = self.torrents@;
        self.torrents.push((id, torrent));
        proof {
            assert(self.ids() =~= old(self).ids().push(id@));
            assert forall|j: int| 0 <= j < self.ids().len() implies (#[trigger] self.torrent_at(j)).wf() by {
                if j < before.len() {
                    assert(self.torrent_at(j) == old(self).torrent_at(j));
                }
            }
        }
        Ok(())
    }

    /// Drops the torrent with info hash `id`: whether one was held.
    pub fn remove_torrent(&mut self, id: &[u8; 20]) -> (removed: bool)
        requires
            old(self).wf(),
        ensures
            final(self).wf(),
            removed == old(self).ids().contains(id@),
            match old(self).ids().index_of_first(id@) {
                Some(j) => {
                    &&& final(self).ids() == old(self).ids().remove(j)
                    &&& forall|k: int| 0 <= k < final(self).ids().len() ==> #[trigger] final(self).torrent_at(k)
                        == old(self).torrent_at(if k < j { k } else { k + 1 })
                },
                None => final(self).ids() == old(self).ids() && forall|k: int|
                    0 <= k < old(self).ids().len() ==> final(self).torrent_at(k) == old(self).torrent_at(k),
            },
    {
        match self.position(id) {
            Some(j) => {
                proof {
                    let ids = old(self).ids();
                    assert(ids[j as int] == id@);
                    ids.index_of_first_ensures(id@);
                    let f = ids.index_of_first(id@)->Some_0;
                    assert(f == j) by {
                        if f < j {
                            assert(ids[f] == ids[j as int]);
                        } else if f > j {
                            assert(ids[f] == ids[j as int]);
                        }
                    }
                }
                let ghost before = self.torrents@;
                self.torrents.remove(j);
                proof {
                    assert(self.ids() =~= old(self).ids().remove(j as int));
                    assert forall|k: int| 0 <= k < self.ids().len() implies #[trigger] self.torrent_at(k) == old(
                        self,
                    ).torrent_at(if k < j { k } else { k + 1 }) by {
                        assert(self.torrents@[k] == before[if k < j { k } else { k + 1 }]);
                    }
                    assert forall|k: int| 0 <= k < self.ids().len() implies (#[trigger] self.torrent_at(k)).wf() by {
                        assert(old(self).torrent_at(if k < j { k } else { k + 1 }).wf());
                    }
                    let ids = old(self).ids();
                    assert forall|a: int, b: int| 0 <= a < b < self.ids().len() implies self.ids()[a] != self.ids()[b] by {
                        let a0 = if a < j { a } else { a + 1 };
                        let b0 = if b < j { b } else { b + 1 };
                        assert(self.ids()[a] == ids[a0]);
                        assert(self.ids()[b] == ids[b0]);
                    }
                }
                true
            },
            None => {
                proof {
                    old(self).ids().index_of_first_ensures(id@);
                }
                false
            },
        }
    }

    /// Adds a block to the torrent with info hash `id`: gives back a piece
    /// that has all its blocks, or an error naming the hash (in hex) where no
    /// such torrent is held.
    pub fn write_block(&mut self, id: &[u8; 20], block: Block) -> (r: Result<Option<(usize, Piece)>, DiskError>)
        requires
            old(self).wf(),
            forall|j: int| 0 <= j < old(self).ids().len() && old(self).ids()[j] == id@ ==> block_fits(
                #[trigger] old(self).torrent_at(j).store(),
                old(self).torrent_at(j).hashes(),
                block,
            ),
        ensures
            final(self).wf(),
            final(self).ids() == old(self).ids(),
            if old(self).ids().contains(id@) {
                exists|j: int|
                    0 <= j < old(self).ids().len() && old(self).ids()[j] == id@ && (r matches Ok(p)
                        && write_block_post(#[trigger] old(self).torrent_at(j), block, final(self).torrent_at(j), p)
                        && forall|k: int| 0 <= k < old(self).ids().len() && k != j ==> final(self).torrent_at(k)
                        == old(self).torrent_at(k))
            } else {
                r matches Err(DiskError::TorrentNotFound(h)) && h@ == hex_text(id@) && final(self).ids() == old(self).ids()
                    && forall|k: int| 0 <= k < old(self).ids().len() ==> final(self).torrent_at(k) == old(self).torrent_at(k)
            },
    {
        match self.position(id) {
            Some(j) => {
                let ghost t0 = self.torrents@[j as int].1;
                proof {
                    assert(self.torrent_at(j as int) == t0);
                    assert(block_fits(t0.store(), t0.hashes(), block));
                    assert(t0.wf());
                }
                let p = self.torrents[j].1.write_block(block);
                proof {
                    assert(self.ids() =~= old(self).ids());
                    assert(write_block_post(old(self).torrent_at(j as int), block, self.torrent_at(j as int), p));
                    assert forall|k: int| 0 <= k < self.ids().len() implies (#[trigger] self.torrent_at(k)).wf() by {
                        if k != j {
                            assert(self.torrent_at(k) == old(self).torrent_at(k));
                        }
                    }
                }
                Ok(p)
            },
            None => Err(DiskError::TorrentNotFound(hex_encode(vstd::array::array_as_slice(id)))),
        }
    }

    /// Looks up a block of the torrent with info hash `id` for a peer, or
    /// gives an error naming the hash (in hex) where no such torrent is held.
    pub fn read_block(&mut self, id: &[u8; 20], block_info: &BlockInfo) -> (r: Result<BlockRead, DiskError>)
        requires
            old(self).wf(),
            forall|j: int| 0 <= j < old(self).ids().len() && old(self).ids()[j] == id@ ==> {
                let t = #[trigger] old(self).torrent_at(j);
                &&& block_info.piece_idx < t.store().num_pieces
                &&& block_info.piece_idx * t.store().piece_len <= usize::MAX
                &&& t.store().intersections_defined(block_info.piece_idx)
            },
        ensures
            final(self).wf(),
            final(self).ids() == old(self).ids(),
            forall|k: int| 0 <= k < old(self).ids().len() ==> {
                let (t0, t1) = (old(self).torrent_at(k), #[trigger] final(self).torrent_at(k));
                &&& t1.store() == t0.store()
                &&& t1.hashes() == t0.hashes()
                &&& t1.buffered() == t0.buffered()
                &&& t1.cached() == t0.cached()
                &&& t1.cache_cap() == t0.cache_cap()
            },
            if old(self).ids().contains(id@) {
                exists|j: int|
                    0 <= j < old(self).ids().len() && old(self).ids()[j] == id@ && (r matches Ok(b) && read_block_spec(
                        #[trigger] old(self).torrent_at(j).store(),
                        old(self).torrent_at(j).cached(),
                        *block_info,
                        b,
                    ))
            } else {
                r matches Err(DiskError::TorrentNotFound(h)) && h@ == hex_text(id@) && forall|k: int|
                    0 <= k < old(self).ids().len() ==> final(self).torrent_at(k) == old(self).torrent_at(k)
            },
    {
        match self.position(id) {
            Some(j) => {
                let ghost t0 = self.torrents@[j as int].1;
                proof {
                    assert(self.torrent_at(j as int) == t0);
                }
                let b = self.torrents[j].1.read_block(block_info);
                proof {
                    assert(self.ids() =~= old(self).ids());
                    assert forall|k: int| 0 <= k < self.ids().len() implies (#[trigger] self.torrent_at(k)).wf() by {
                        if k != j {
                            assert(self.torrent_at(k) == old(self).torrent_at(k));
                        }
                    }
                }
                Ok(b)
            },
            None => Err(DiskError::TorrentNotFound(hex_encode(vstd::array::array_as_slice(id)))),
        }
    }

    /// Takes in a piece of the torrent with info hash `id` read from disk
    /// for a peer's block: caches its blocks and gives that block, or an
    /// error naming the hash (in hex) where no such torrent is held.
    pub fn piece_read(&mut self, id: &[u8; 20], block_info: &BlockInfo, data: Vec<u8>) -> (r: Result<Block, DiskError>)
        requires
            old(self).wf(),
            data@.len() + BLOCK_SIZE - 1 <= usize::MAX,
            block_info.offset / BLOCK_SIZE < spec_num_blocks(data@.len() as int),
        ensures
            final(self).wf(),
            final(self).ids() == old(self).ids(),
            if old(self).ids().contains(id@) {
                exists|j: int|
                    0 <= j < old(self).ids().len() && old(self).ids()[j] == id@ && (r matches Ok(b) && {
                        let (t0, t1) = (#[trigger] old(self).torrent_at(j), final(self).torrent_at(j));
                        &&& t1.store() == t0.store()
                        &&& t1.hashes() == t0.hashes()
                        &&& t1.buffered() == t0.buffered()
                        &&& t1.cache_cap() == t0.cache_cap()
                        &&& cache_put_spec(t0.cached(), t0.cache_cap(), block_info.piece_idx, split_blocks_spec(data@), t1.cached())
                        &&& b.piece_idx == block_info.piece_idx
                        &&& b.offset == block_info.offset
                        &&& b.data.bytes() == block_bytes(data@, (block_info.offset / BLOCK_SIZE) as int)
                    }) && forall|k: int| 0 <= k < old(self).ids().len() && k != j ==> final(self).torrent_at(k)
                        == old(self).torrent_at(k)
            } else {
                r matches Err(DiskError::TorrentNotFound(h)) && h@ == hex_text(id@) && forall|k: int|
                    0 <= k < old(self).ids().len() ==> final(self).torrent_at(k) == old(self).torrent_at(k)
            },
    {
        match self.position(id) {
            Some(j) => {
                proof {
                    assert(self.torrent_at(j as int).wf());
                }
                let b = self.torrents[j].1.piece_read(block_info, data);
                proof {
                    assert(self.ids() =~= old(self).ids());
                    assert forall|k: int| 0 <= k < self.ids().len() implies (#[trigger] self.torrent_at(k)).wf() by {
                        if k != j {
                            assert(self.torrent_at(k) == old(self).torrent_at(k));
                        }
                    }
                }
                Ok(b)
            },
            None => Err(DiskError::TorrentNotFound(hex_encode(vstd::array::array_as_slice(id)))),
        }
    }

    /// The torrent with info hash `id`, where one is held.
    pub fn torrent(&self, id: &[u8; 20]) -> (r: Option<&Torrent>)
        ensures
            match r {
                Some(t) => exists|j: int| 0 <= j < self.ids().len() && self.ids()[j] == id@ && *t == #[trigger] self.torrent_at(j),
                None => !self.ids().contains(id@),
            },
    {
        match self.position(id) {
            Some(j) => {
                proof {
                    assert(self.torrent_at(j as int) == self.torrents@[j as int].1);
                }
                Some(&self.torrents[j].1)
            },
            None => None,
        }
    }
}

// ---------------------------------------------------------------------------
// Reading a piece from its files.

/// One read of a piece from one of its files: where in the file to begin,
/// and how many bytes to ask for.
#[derive(Debug, Clone, Copy, PartialEq, Eq, Structural)]
pub struct ReadStep {
    pub file_offset: usize,
    pub count: usize,
}

/// The next read of a piece of `len` bytes, of which `bytes_read` have come,
/// going on from byte `total_offset` of the torrent in `file`: from there to
/// the end of the piece or of the file, whichever comes first. A file that
/// begins after that byte gives `IoSizeError` with the file's offset and the
/// byte.
pub fn next_read(file: &FileInfo, total_offset: usize, bytes_read: usize, len: usize) -> (r: Result<ReadStep, DiskError>)
    requires
        bytes_read <= len,
        file.offset + file.length <= usize::MAX,
        total_offset >= file.offset ==> total_offset <= file.offset + file.length,
    ensures
        total_offset < file.offset ==> (r matches Err(DiskError::IoSizeError { expected, actual })
            && expected == file.offset && actual == total_offset),
        total_offset >= file.offset ==> (r matches Ok(step) && step.file_offset == total_offset - file.offset
            && step.count == if len - bytes_read < file.offset + file.length - total_offset {
            len - bytes_read
        } else {
            file.offset + file.length - total_offset
        }),
{
    if total_offset < file.offset {
        return Err(DiskError::IoSizeError { expected: file.offset, actual: total_offset });
    }
    let piece_remaining = len - bytes_read;
    let file_remaining = file.offset + file.length - total_offset;
    let count = if piece_remaining < file_remaining { piece_remaining } else { file_remaining };
    Ok(ReadStep { file_offset: total_offset - file.offset, count })
}

/// A piece once its reads are done: where `bytes_read` is not the piece's
/// `len`, `IoSizeError` with both; else the bytes read.
pub fn finish_read(len: usize, bytes_read: usize, buf: Vec<u8>) -> (r: Result<Vec<u8>, DiskError>)
    ensures
        bytes_read != len ==> (r matches Err(DiskError::IoSizeError { expected, actual }) && expected == len
            && actual == bytes_read),
        bytes_read == len ==> (r matches Ok(d) && d@ == buf@),
{
    if bytes_read != len {
        return Err(DiskError::IoSizeError { expected: len, actual: bytes_read });
    }
    Ok(buf)
}

// ---------------------------------------------------------------------------
// Checking which pieces the files already hold.

/// The bytes a read gave, if it gave any.
pub open spec fn read_view(d: Option<Vec<u8>>) -> Option<Seq<u8>> {
    match d {
        Some(v) => Some(v@),
        None => None,
    }
}

/// Whether reading piece `i` gave the piece: bytes whose SHA1 digest is the
/// piece's hash.
pub open spec fn read_matches(hashes: Seq<[u8; 20]>, reads: Seq<Option<Seq<u8>>>, i: int) -> bool {
    reads[i] matches Some(d) && sha1_digest(d) == hashes[i]@
}

/// The pieces found in the files, one bit for each of `total` pieces: set
/// where the piece was read and matched its hash.
pub open spec fn found_pieces(hashes: Seq<[u8; 20]>, reads: Seq<Option<Seq<u8>>>, total: nat) -> Seq<bool> {
    Seq::new(total, |i: int| i < reads.len() && read_matches(hashes, reads, i))
}

/// A check, piece after piece, of what a torrent's files already hold:
/// the pieces found so far, and what reading each piece checked gave.
pub struct PieceCheck {
    bits: Bitfield,
    total: usize,
    checked: usize,
    hashes: Ghost<Seq<[u8; 20]>>,
    reads: Ghost<Seq<Option<Seq<u8>>>>,
}

impl PieceCheck {
    /// The number of pieces to check.
    pub closed spec fn total(&self) -> nat {
        self.total as nat
    }

    /// The hashes the pieces are checked against.
    pub closed spec fn hashes(&self) -> Seq<[u8; 20]> {
        self.hashes@
    }

    /// What reading each piece checked so far gave, in order of index.
    pub closed spec fn reads(&self) -> Seq<Option<Seq<u8>>> {
        self.reads@
    }

    /// The pieces checked are among the pieces to check, each has a hash,
    /// and the bits are those of the pieces found.
    pub closed spec fn wf(&self) -> bool {
        &&& self.checked == self.reads@.len()
        &&& self.checked <= self.total
        &&& self.total <= self.hashes@.len()
        &&& self.bits@ == found_pieces(self.hashes@, self.reads@, self.total as nat)
    }

    /// The next piece to read, or `None` once every piece is checked.
    pub fn next_piece(&self) -> (r: Option<usize>)
        requires
            self.wf(),
        ensures
            r == if self.reads().len() < self.total() {
                Some(self.reads().len() as usize)
            } else {
                None::<usize>
            },
    {
        if self.checked < self.total {
            Some(self.checked)
        } else {
            None
        }
    }

    /// The pieces found, once the check is over.
    pub fn finish(self) -> (b: Bitfield)
        requires
            self.wf(),
        ensures
            b@ == found_pieces(self.hashes(), self.reads(), self.total()),
    {
        self.bits
    }
}

impl Torrent {
    /// Begins a check of what the files hold: no piece checked yet.
    pub fn begin_check(&self) -> (c: PieceCheck)
        requires
            self.store().num_pieces <= self.hashes().len(),
            self.store().num_pieces <= max_bits(),
        ensures
            c.wf(),
            c.total() == self.store().num_pieces,
            c.hashes() == self.hashes(),
            c.reads() == Seq::<Option<Seq<u8>>>::empty(),
    {
        let total = self.info.num_pieces as usize;
        let c = PieceCheck {
            bits: Bitfield::repeat(false, total),
            total,
            checked: 0,
            hashes: Ghost(self.piece_hashes@),
            reads: Ghost(Seq::empty()),
        };
        proof {
            assert(c.bits@ =~= found_pieces(c.hashes@, c.reads@, total as nat));
        }
        c
    }

    /// Records what reading the next piece gave (`None` where it could not
    /// be read): the piece is found where its bytes match its hash.
    pub fn check_piece(&self, c: &mut PieceCheck, data: Option<Vec<u8>>)
        requires
            old(c).wf(),
            old(c).hashes() == self.hashes(),
            old(c).reads().len() < old(c).total(),
        ensures
            final(c).wf(),
            final(c).total() == old(c).total(),
            final(c).hashes() == old(c).hashes(),
            final(c).reads() == old(c).reads().push(read_view(data)),
    {
        let ghost old_reads = c.reads@;
        let i = c.checked;
        let found = match &data {
            Some(d) => {
                let h = sha1(d.as_slice());
                hash_eq(&h, &self.piece_hashes[i])
            },
            None => false,
        };
        if found {
            c.bits.set(i, true);
        }
        c.reads = Ghost(old_reads.push(read_view(data)));
        c.checked = i + 1;
        proof {
            assert(c.bits@ =~= found_pieces(c.hashes@, c.reads@, c.total as nat));
        }
    }
}

} // verus!
