//! Storage layout of a torrent: files, pieces and their byte offsets.

use vstd::prelude::*;
use crate::metainfo::{file_offset, join_path, MetaInfo, MetaInfoView};
use crate::info::{layout_fits, torrent_info_of};
use crate::bencode::fields::opt_text;
use std::ops::Range;

verus! {

/// A file of a torrent, placed in the torrent's bytes viewed as one array.
#[derive(Debug, Clone)]
pub struct FileInfo {
    /// Path of the file: the path elements of the metainfo joined by `/`.
    pub path: String,
    /// Length of the file in bytes.
    pub length: usize,
    /// Offset in bytes of the file from the start of the torrent.
    pub offset: usize,
    /// The MD5 sum of the file, when the metainfo gives one.
    pub md5sum: Option<String>,
}

impl FileInfo {
    /// Whether byte `x` of the torrent lies in this file.
    pub open spec fn contains(&self, x: int) -> bool {
        self.offset <= x < self.offset + self.length
    }

    /// The bytes of the torrent that the file holds.
    pub fn byte_range(&self) -> (r: Range<usize>)
        requires
            self.offset + self.length <= usize::MAX,
        ensures
            r.start == self.offset,
            r.end == self.offset + self.length,
    {
        self.offset..(self.offset + self.length)
    }
}

/// General information on how a torrent is stored.
#[derive(Debug)]
pub struct StoreInfo {
    /// Length of the torrent in bytes.
    pub total_len: u64,
    /// Length of every piece but the last, in bytes.
    pub piece_len: usize,
    /// Length of the last piece.
    pub last_piece_len: usize,
    /// Number of pieces in the torrent.
    pub num_pieces: u32,
    /// Files of the torrent, in order.
    pub files: Vec<FileInfo>,
    /// Directory in which the files are stored.
    pub output_dir: String,
}

/// The first file at or after index `from` that holds byte `x`.
pub open spec fn first_file_containing(files: Seq<FileInfo>, from: int, x: int) -> Option<int>
    decreases files.len() - from,
{
    if from < 0 || from >= files.len() {
        None
    } else if files[from].contains(x) {
        Some(from)
    } else {
        first_file_containing(files, from + 1, x)
    }
}

/// Whether the files lie one after the other from byte zero.
pub open spec fn files_contiguous(files: Seq<FileInfo>) -> bool {
    &&& files.len() > 0 ==> files[0].offset == 0
    &&& forall|i: int|
        0 <= i < files.len() - 1 ==> #[trigger] files[i + 1].offset == files[i].offset
            + files[i].length
}

impl StoreInfo {
    /// Length of piece `idx`: the last piece (compared as `u32`) has its own length.
    pub open spec fn spec_piece_len(self, idx: usize) -> usize {
        if idx as u32 == self.num_pieces - 1 {
            self.last_piece_len
        } else {
            self.piece_len
        }
    }

    /// First and last byte of piece `idx` in the torrent.
    pub open spec fn piece_first_byte(self, idx: usize) -> int {
        idx * self.piece_len
    }

    pub open spec fn piece_last_byte(self, idx: usize) -> int {
        idx * self.piece_len + self.spec_piece_len(idx) - 1
    }

    /// Whether `piece_file_intersections` can compute its answer for `idx`:
    /// the byte offsets fit in `usize`, and files hold the first and the last
    /// byte of the piece.
    pub open spec fn intersections_defined(self, idx: usize) -> bool {
        self.files@.len() == 1 || {
            &&& self.num_pieces >= 1
            &&& self.piece_last_byte(idx) + 1 <= usize::MAX
            &&& self.piece_last_byte(idx) >= self.piece_first_byte(idx)
            &&& forall|i: int|
                0 <= i < self.files@.len() ==> #[trigger] self.files@[i].offset
                    + self.files@[i].length <= usize::MAX
            &&& first_file_containing(self.files@, 0, self.piece_first_byte(idx)) matches Some(s)
                && first_file_containing(self.files@, s, self.piece_last_byte(idx)) is Some
        }
    }

    /// Returns the length of a piece given its index.
    pub fn piece_len(&self, idx: usize) -> (n: usize)
        requires
            self.num_pieces >= 1,
        ensures
            n == self.spec_piece_len(idx),
    {
        if idx as u32 == self.num_pieces - 1 {
            self.last_piece_len
        } else {
            self.piece_len
        }
    }

    /// Returns the byte offset of a piece within the torrent.
    pub fn piece_total_offset(&self, piece_idx: usize) -> (n: usize)
        requires
            piece_idx * self.piece_len <= usize::MAX,
        ensures
            n == piece_idx * self.piece_len,
    {
        piece_idx * self.piece_len
    }

    /// Whether `piece_file_intersections` can compute its answer for `idx`
    /// (see `intersections_defined`).
    pub fn intersections_known(&self, idx: usize) -> (r: bool)
        ensures
            r == self.intersections_defined(idx),
    {
        if self.files.len() == 1 {
            return true;
        }
        if self.num_pieces < 1 {
            return false;
        }
        let len = self.piece_len(idx);
        if len == 0 {
            return false;
        }
        if idx > 0 && self.piece_len > usize::MAX / idx {
            proof {
                let m = usize::MAX as int;
                let (a, b) = (idx as int, self.piece_len as int);
                assert(a * b > m) by (nonlinear_arith)
                    requires
                        a > 0,
                        b > m / a,
                        m > 0,
                ;
            }
            return false;
        }
        proof {
            let m = usize::MAX as int;
            let (a, b) = (idx as int, self.piece_len as int);
            assert(a * b <= m) by (nonlinear_arith)
                requires
                    a == 0 || b <= m / a,
                    a >= 0,
                    m > 0,
            ;
        }
        let first = idx * self.piece_len;
        if len > usize::MAX - first {
            return false;
        }
        let last = first + len - 1;
        if !file_ends_fit(&self.files) {
            return false;
        }
        match search_file(&self.files, 0, first) {
            Some(s) => search_file(&self.files, s, last).is_some(),
            None => false,
        }
    }

    /// Returns the indices of the files from the first to the last that the
    /// piece intersects: the first file that holds the piece's first byte,
    /// through the first file from there that holds its last byte. A torrent
    /// of one file gives that file.
    pub fn piece_file_intersections(&self, piece_idx: usize) -> (r: Range<usize>)
        requires
            self.intersections_defined(piece_idx),
        ensures
            self.files@.len() == 1 ==> r.start == 0 && r.end == 1,
            self.files@.len() != 1 ==> {
                &&& first_file_containing(self.files@, 0, self.piece_first_byte(piece_idx))
                    == Some(r.start as int)
                &&& first_file_containing(
                    self.files@,
                    r.start as int,
                    self.piece_last_byte(piece_idx),
                ) == Some(r.end - 1)
            },
    {
        if self.files.len() == 1 {
            return 0..1;
        }
        let offset = piece_idx * self.piece_len;
        let end = offset + self.piece_len(piece_idx) - 1;
        let start_file = find_file(&self.files, 0, offset);
        let end_file = find_file(&self.files, start_file, end);
        start_file..(end_file + 1)
    }
}

/// The first file at or after `from` that holds byte `x`, if any.
fn search_file(files: &Vec<FileInfo>, from: usize, x: usize) -> (r: Option<usize>)
    requires
        forall|i: int| 0 <= i < files@.len() ==> #[trigger] files@[i].offset + files@[i].length <= usize::MAX,
    ensures
        match r {
            Some(i) => first_file_containing(files@, from as int, x as int) == Some(i as int),
            None => first_file_containing(files@, from as int, x as int) is None,
        },
{
    let mut i = from;
    while i < files.len()
        invariant
            from <= i,
            first_file_containing(files@, from as int, x as int) == first_file_containing(files@, i as int, x as int),
            forall|k: int| 0 <= k < files@.len() ==> #[trigger] files@[k].offset + files@[k].length <= usize::MAX,
        decreases files.len() - i,
    {
        let range = files[i].byte_range();
        if range.start <= x && x < range.end {
            return Some(i);
        }
        i = i + 1;
    }
    None
}

/// Whether every file ends within `usize`.
fn file_ends_fit(files: &Vec<FileInfo>) -> (r: bool)
    ensures
        r == forall|i: int| 0 <= i < files@.len() ==> #[trigger] files@[i].offset + files@[i].length <= usize::MAX,
{
    let mut i: usize = 0;
    while i < files.len()
        invariant
            0 <= i <= files@.len(),
            forall|k: int| 0 <= k < i ==> #[trigger] files@[k].offset + files@[k].length <= usize::MAX,
        decreases files@.len() - i,
    {
        if files[i].length > usize::MAX - files[i].offset {
            return false;
        }
        i = i + 1;
    }
    true
}

/// The first file at or after `from` that holds byte `x`.
fn find_file(files: &Vec<FileInfo>, from: usize, x: usize) -> (r: usize)
    requires
        first_file_containing(files@, from as int, x as int) is Some,
        forall|i: int| 0 <= i < files@.len() ==> #[trigger] files@[i].offset + files@[i].length <= usize::MAX,
    ensures
        first_file_containing(files@, from as int, x as int) == Some(r as int),
        r < files.len(),
{
    proof {
        lemma_first_file_found(files@, from as int, x as int);
    }
    let mut i = from;
    while i < files.len()
        invariant
            from <= i,
            first_file_containing(files@, from as int, x as int) == first_file_containing(
                files@,
                i as int,
                x as int,
            ),
            first_file_containing(files@, i as int, x as int) is Some,
            forall|k: int| 0 <= k < files@.len() ==> #[trigger] files@[k].offset + files@[k].length <= usize::MAX,
        decreases files.len() - i,
    {
        let range = files[i].byte_range();
        if range.start <= x && x < range.end {
            return i;
        }
        i = i + 1;
    }
    i
}

/// Files that lie one after the other never overlap: a later file starts
/// where an earlier one ends or after.
proof fn lemma_contiguous_ordered(files: Seq<FileInfo>, k: int, j: int)
    requires
        files_contiguous(files),
        0 <= k < j < files.len(),
    ensures
        files[k].offset + files[k].length <= files[j].offset,
    decreases j - k,
{
    if j > k + 1 {
        lemma_contiguous_ordered(files, k, j - 1);
        let i = j - 1;
        assert(files[i + 1].offset == files[i].offset + files[i].length);
    } else {
        assert(files[k + 1].offset == files[k].offset + files[k].length);
    }
}

/// Every file that holds a byte of a piece lies within the range that
/// `piece_file_intersections` gives, when the files lie one after the other.
pub proof fn law_piece_files_cover(info: StoreInfo, idx: usize, k: int, start: int, end: int)
    requires
        files_contiguous(info.files@),
        info.files@.len() != 1,
        first_file_containing(info.files@, 0, info.piece_first_byte(idx)) == Some(start),
        first_file_containing(info.files@, start, info.piece_last_byte(idx)) == Some(end),
        0 <= k < info.files@.len(),
        exists|x: int|
            info.piece_first_byte(idx) <= x <= info.piece_last_byte(idx)
                && #[trigger] info.files@[k].contains(x),
    ensures
        start <= k <= end,
{
    let files = info.files@;
    let a = info.piece_first_byte(idx);
    let b = info.piece_last_byte(idx);
    lemma_first_file_found(files, 0, a);
    lemma_first_file_found(files, start, b);
    let x = choose|x: int| a <= x <= b && #[trigger] files[k].contains(x);
    if k < start {
        lemma_contiguous_ordered(files, k, start);
    }
    if k > end {
        lemma_contiguous_ordered(files, end, k);
    }
}

proof fn lemma_first_file_found(files: Seq<FileInfo>, from: int, x: int)
    ensures
        first_file_containing(files, from, x) matches Some(i) ==> from <= i < files.len()
            && files[i].contains(x),
    decreases files.len() - from,
{
    if 0 <= from < files.len() && !files[from].contains(x) {
        lemma_first_file_found(files, from + 1, x);
    }
}

} // verus!

verus! {

/// What `Path::join` makes of a directory and a name: the text of the
/// joined path.
pub uninterp spec fn path_join(dir: Seq<char>, name: Seq<char>) -> Seq<char>;

/// Joins a name to a directory.
///
/// Trusted: calls `std::path::Path::join` and takes the text of the result;
/// both parts are UTF-8 text, so the joined path is too. The result is named
/// as a function of the two texts alone.
#[verifier::external_body]
fn join_dir(dir: &str, name: &str) -> (r: String)
    ensures
        r@ == path_join(dir@, name@),
{
    std::path::Path::new(dir).join(name).to_string_lossy().into_owned()
}

/// Whether a torrent's storage can be laid out: its piece layout can be
/// held, and its files end within `usize`.
pub open spec fn store_fits(m: MetaInfoView) -> bool {
    &&& layout_fits(m.info)
    &&& m.info.files is Some ==> file_offset(m.info.files->Some_0, m.info.files->Some_0.len() as int) <= usize::MAX
    &&& m.info.files is None ==> m.info.length is Some && m.info.length->Some_0 <= usize::MAX
}

/// Whether `r` is how the torrent of `m` is stored in `output_dir`, with
/// `single_md5` as the MD5 sum of the file of a single-file torrent: its
/// piece layout; a multi-file torrent in a subdirectory named after it,
/// with each file placed after the ones before it and its own MD5 sum; a
/// single-file torrent as one file named after it.
pub open spec fn stored_with(m: MetaInfoView, output_dir: Seq<char>, r: StoreInfo, single_md5: Option<Seq<char>>) -> bool {
    let layout = torrent_info_of(m.info);
    &&& r.total_len == layout.total_len
    &&& r.num_pieces == layout.num_pieces
    &&& r.piece_len == layout.piece_len
    &&& r.last_piece_len == layout.last_piece_len
    &&& r.output_dir@ == if m.info.files is Some {
        path_join(output_dir, m.info.name)
    } else {
        output_dir
    }
    &&& match m.info.files {
        Some(fs) => {
            &&& r.files@.len() == fs.len()
            &&& forall|i: int| 0 <= i < fs.len() ==> {
                &&& (#[trigger] r.files@[i]).path@ == join_path(fs[i].path)
                &&& r.files@[i].length == fs[i].length
                &&& r.files@[i].offset == file_offset(fs, i)
                &&& opt_text(r.files@[i].md5sum) == fs[i].md5sum
            }
        },
        None => {
            &&& r.files@.len() == 1
            &&& r.files@[0].path@ == m.info.name
            &&& r.files@[0].length == m.info.length->Some_0
            &&& r.files@[0].offset == 0
            &&& opt_text(r.files@[0].md5sum) == single_md5
        },
    }
}

/// How the files of a metainfo are laid out (see `MetaInfo::files`): the
/// file of a single-file torrent has no MD5 sum.
pub open spec fn stored_as(m: MetaInfoView, output_dir: Seq<char>, r: StoreInfo) -> bool {
    stored_with(m, output_dir, r, None)
}

/// The files of a stored torrent lie one after the other from byte zero.
pub proof fn law_stored_files_contiguous(m: MetaInfoView, output_dir: Seq<char>, r: StoreInfo, md5: Option<Seq<char>>)
    requires
        stored_with(m, output_dir, r, md5),
    ensures
        files_contiguous(r.files@),
{
    match m.info.files {
        Some(fs) => {
            assert forall|i: int| 0 <= i < r.files@.len() - 1 implies #[trigger] r.files@[i + 1].offset
                == r.files@[i].offset + r.files@[i].length by {
                assert(r.files@[i + 1].offset == file_offset(fs, i + 1));
                assert(r.files@[i].offset == file_offset(fs, i));
            }
            if r.files@.len() > 0 {
                assert(r.files@[0].offset == file_offset(fs, 0));
            }
        },
        None => {},
    }
}

impl StoreInfo {
    /// How a torrent is stored in `output_dir`: its piece layout, its
    /// files, and the directory, where a multi-file torrent gets a
    /// subdirectory named after it.
    pub fn new(metainfo: &MetaInfo, output_dir: String) -> (r: Self)
        requires
            store_fits(metainfo@),
        ensures
            stored_as(metainfo@, output_dir@, r),
    {
        let layout = crate::info::TorrentInfo::new(metainfo);
        let files = metainfo.files();
        let output_dir = if metainfo.is_multi_file() {
            join_dir(output_dir.as_str(), metainfo.name())
        } else {
            output_dir
        };
        StoreInfo {
            total_len: layout.total_len,
            piece_len: layout.piece_len,
            last_piece_len: layout.last_piece_len,
            num_pieces: layout.num_pieces,
            files,
            output_dir,
        }
    }
}

} // verus!
