//! Torrent metainfo: the bencoded `.torrent` dictionary read into typed
//! fields, the info hash, and the values derived from them.

use vstd::prelude::*;
use vstd::string::{StringExecFns, StringSliceAdditionalSpecFns};
use vstd::utf8::{encode_utf8, valid_utf8};
use crate::bencode::encode::bytes_equal;
use crate::bencode::fields::{
    is_utf8, opt_text, set_text, set_text_field, set_u64, set_u64_field, text_of, token_text, token_u64, u64_of,
};
use crate::bencode::grammar::{decode_spec, encode_value};
use crate::bencode::token::{
    entries_view, lemma_entries_view_index, lemma_tokens_view_index, token_view, tokens_view, Value,
};
use crate::bencode::{decode_bytes, encode_to_raw, Error, Token};
use crate::hash::{sha1, sha1_digest};
use crate::store::{store_fits, FileInfo};

verus! {

/// Errors of reading a metainfo file.
#[derive(Debug)]
pub enum MetaInfoError {
    /// The bencode is malformed or is not a metainfo dictionary.
    BencodeError(Error),
    /// The file name does not end in `.torrent`.
    InvalidExtension,
    IoError(std::io::Error),
    /// The piece hashes are empty or not a whole number of 20-byte hashes.
    InvalidPiecesLength,
    FileNoSize,
    FileEmptyPath,
    FileAbsolutePath,
}

// ---------------------------------------------------------------------------
// Models.

/// The model of a file of a multi-file torrent.
pub struct FileView {
    pub path: Seq<Seq<char>>,
    pub length: u64,
    pub md5sum: Option<Seq<char>>,
}

/// The model of the info dictionary.
pub struct InfoView {
    pub name: Seq<char>,
    pub pieces: Seq<u8>,
    pub piece_length: u32,
    pub md5sum: Option<Seq<char>>,
    pub length: Option<u64>,
    pub files: Option<Seq<FileView>>,
    pub private: Option<u8>,
    pub root_hash: Option<Seq<char>>,
}

/// The model of a torrent's metainfo.
pub struct MetaInfoView {
    pub announce: Seq<char>,
    pub info: InfoView,
    pub info_hash: Seq<u8>,
    pub encoding: Option<Seq<char>>,
    pub announce_list: Option<Seq<Seq<Seq<char>>>>,
    pub creation_date: Option<i64>,
    pub comment: Option<Seq<char>>,
    pub created_by: Option<Seq<char>>,
}

/// A file of a multi-file torrent.
#[derive(Debug, Clone)]
pub struct File {
    /// The path elements; the last is the file's name.
    pub path: Vec<String>,
    /// Length in bytes.
    pub length: u64,
    pub md5sum: Option<String>,
}

/// The info dictionary of a torrent.
#[derive(Clone)]
pub struct Info {
    /// The file's name, or the directory's for a multi-file torrent.
    pub name: String,
    /// The 20-byte SHA1 hashes of the pieces, one after the other.
    pub pieces: Vec<u8>,
    /// Bytes in each piece.
    pub piece_length: u32,
    pub md5sum: Option<String>,
    /// Length of a single-file torrent.
    pub length: Option<u64>,
    /// The files of a multi-file torrent.
    pub files: Option<Vec<File>>,
    /// Whether peers may be found only through the trackers.
    pub private: Option<u8>,
    pub root_hash: Option<String>,
}

/// The texts of strings.
pub open spec fn texts(v: Seq<String>) -> Seq<Seq<char>> {
    v.map_values(|s: String| s@)
}

impl View for File {
    type V = FileView;

    open spec fn view(&self) -> FileView {
        FileView { path: texts(self.path@), length: self.length, md5sum: opt_text(self.md5sum) }
    }
}

/// The models of files.
pub open spec fn files_view(v: Seq<File>) -> Seq<FileView> {
    v.map_values(|f: File| f@)
}

impl View for Info {
    type V = InfoView;

    open spec fn view(&self) -> InfoView {
        InfoView {
            name: self.name@,
            pieces: self.pieces@,
            piece_length: self.piece_length,
            md5sum: opt_text(self.md5sum),
            length: self.length,
            files: match self.files {
                Some(v) => Some(files_view(v@)),
                None => None,
            },
            private: self.private,
            root_hash: opt_text(self.root_hash),
        }
    }
}

// ---------------------------------------------------------------------------
// Reading values.

/// A bencode integer that fits in `u32`.
pub open spec fn u32_of(v: Value) -> Option<u32> {
    match v {
        Value::Int(i) => if 0 <= i <= u32::MAX {
            Some(i as u32)
        } else {
            None
        },
        _ => None,
    }
}

/// A bencode integer that fits in `u8`.
pub open spec fn u8_of(v: Value) -> Option<u8> {
    match v {
        Value::Int(i) => if 0 <= i <= u8::MAX {
            Some(i as u8)
        } else {
            None
        },
        _ => None,
    }
}

/// A bencode integer that fits in `i64`.
pub open spec fn i64_of(v: Value) -> Option<i64> {
    match v {
        Value::Int(i) => if i64::MIN <= i <= i64::MAX {
            Some(i as i64)
        } else {
            None
        },
        _ => None,
    }
}

/// The texts of the items `items[i..]`, after `acc`; `None` where one is
/// no UTF-8 text.
pub open spec fn strings_of(items: Seq<Value>, i: int, acc: Seq<Seq<char>>) -> Option<Seq<Seq<char>>>
    decreases items.len() - i,
{
    if i < 0 || i >= items.len() {
        Some(acc)
    } else {
        match text_of(items[i]) {
            Some(t) => strings_of(items, i + 1, acc.push(t)),
            None => None,
        }
    }
}

/// A list of texts.
pub open spec fn text_list_of(v: Value) -> Option<Seq<Seq<char>>> {
    match v {
        Value::List(items) => strings_of(items, 0, Seq::empty()),
        _ => None,
    }
}

/// The bytes of the items `items[i..]`, after `acc`; `None` where one is no
/// byte value.
pub open spec fn byte_items(items: Seq<Value>, i: int, acc: Seq<u8>) -> Option<Seq<u8>>
    decreases items.len() - i,
{
    if i < 0 || i >= items.len() {
        Some(acc)
    } else {
        match u8_of(items[i]) {
            Some(b) => byte_items(items, i + 1, acc.push(b)),
            None => None,
        }
    }
}

/// The piece hashes: a byte string, or a list of byte values.
pub open spec fn pieces_of(v: Value) -> Option<Seq<u8>> {
    match v {
        Value::Bytes(b) => Some(b),
        Value::List(items) => byte_items(items, 0, Seq::empty()),
        _ => None,
    }
}

/// The fields of a file as read so far.
pub struct FileFields {
    pub path: Option<Seq<Seq<char>>>,
    pub length: Option<u64>,
    pub md5sum: Option<Seq<char>>,
}

/// Reads one entry of a file dictionary; `None` for a key that is not
/// UTF-8, a field given twice, or a field of the wrong type.
pub open spec fn apply_file_entry(f: FileFields, k: Seq<u8>, v: Value) -> Option<FileFields> {
    if !valid_utf8(k) {
        None
    } else if k == "path".spec_bytes() {
        if f.path is Some {
            None
        } else {
            match text_list_of(v) {
                Some(p) => Some(FileFields { path: Some(p), ..f }),
                None => None,
            }
        }
    } else if k == "length".spec_bytes() {
        match set_u64(f.length, v) {
            Some(x) => Some(FileFields { length: x, ..f }),
            None => None,
        }
    } else if k == "md5sum".spec_bytes() {
        match set_text(f.md5sum, v) {
            Some(x) => Some(FileFields { md5sum: x, ..f }),
            None => None,
        }
    } else {
        Some(f)
    }
}

/// Reads the entries of a file dictionary from `i` on.
pub open spec fn fold_file(entries: Seq<(Seq<u8>, Value)>, i: int, f: FileFields) -> Option<FileFields>
    decreases entries.len() - i,
{
    if i < 0 || i >= entries.len() {
        Some(f)
    } else {
        match apply_file_entry(f, entries[i].0, entries[i].1) {
            Some(f2) => fold_file(entries, i + 1, f2),
            None => None,
        }
    }
}

/// A file: a dictionary with a path and a length.
pub open spec fn file_of(v: Value) -> Option<FileView> {
    match v {
        Value::Dict(entries) => match fold_file(entries, 0, FileFields { path: None, length: None, md5sum: None }) {
            Some(f) => match (f.path, f.length) {
                (Some(p), Some(l)) => Some(FileView { path: p, length: l, md5sum: f.md5sum }),
                _ => None,
            },
            None => None,
        },
        _ => None,
    }
}

/// The files of the items `items[i..]`, after `acc`.
pub open spec fn file_items(items: Seq<Value>, i: int, acc: Seq<FileView>) -> Option<Seq<FileView>>
    decreases items.len() - i,
{
    if i < 0 || i >= items.len() {
        Some(acc)
    } else {
        match file_of(items[i]) {
            Some(f) => file_items(items, i + 1, acc.push(f)),
            None => None,
        }
    }
}

/// A list of files.
pub open spec fn files_of(v: Value) -> Option<Seq<FileView>> {
    match v {
        Value::List(items) => file_items(items, 0, Seq::empty()),
        _ => None,
    }
}

/// The fields of an info dictionary as read so far.
pub struct InfoFields {
    pub name: Option<Seq<char>>,
    pub pieces: Option<Seq<u8>>,
    pub piece_length: Option<u32>,
    pub md5sum: Option<Seq<char>>,
    pub length: Option<u64>,
    pub files: Option<Seq<FileView>>,
    pub private: Option<u8>,
    pub root_hash: Option<Seq<char>>,
}

/// An info dictionary with no field read.
pub open spec fn no_info_fields() -> InfoFields {
    InfoFields {
        name: None,
        pieces: None,
        piece_length: None,
        md5sum: None,
        length: None,
        files: None,
        private: None,
        root_hash: None,
    }
}

/// Reads one entry of an info dictionary; `None` for a key that is not
/// UTF-8, a field given twice, or a field of the wrong type.
pub open spec fn apply_info_entry(f: InfoFields, k: Seq<u8>, v: Value) -> Option<InfoFields> {
    if !valid_utf8(k) {
        None
    } else if k == "name".spec_bytes() {
        match set_text(f.name, v) {
            Some(x) => Some(InfoFields { name: x, ..f }),
            None => None,
        }
    } else if k == "pieces".spec_bytes() {
        if f.pieces is Some {
            None
        } else {
            match pieces_of(v) {
                Some(p) => Some(InfoFields { pieces: Some(p), ..f }),
                None => None,
            }
        }
    } else if k == "piece length".spec_bytes() {
        if f.piece_length is Some {
            None
        } else {
            match u32_of(v) {
                Some(x) => Some(InfoFields { piece_length: Some(x), ..f }),
                None => None,
            }
        }
    } else if k == "md5sum".spec_bytes() {
        match set_text(f.md5sum, v) {
            Some(x) => Some(InfoFields { md5sum: x, ..f }),
            None => None,
        }
    } else if k == "length".spec_bytes() {
        match set_u64(f.length, v) {
            Some(x) => Some(InfoFields { length: x, ..f }),
            None => None,
        }
    } else if k == "files".spec_bytes() {
        if f.files is Some {
            None
        } else {
            match files_of(v) {
                Some(x) => Some(InfoFields { files: Some(x), ..f }),
                None => None,
            }
        }
    } else if k == "private".spec_bytes() {
        if f.private is Some {
            None
        } else {
            match u8_of(v) {
                Some(x) => Some(InfoFields { private: Some(x), ..f }),
                None => None,
            }
        }
    } else if k == "root hash".spec_bytes() {
        match set_text(f.root_hash, v) {
            Some(x) => Some(InfoFields { root_hash: x, ..f }),
            None => None,
        }
    } else {
        Some(f)
    }
}

/// Reads the entries of an info dictionary from `i` on.
pub open spec fn fold_info(entries: Seq<(Seq<u8>, Value)>, i: int, f: InfoFields) -> Option<InfoFields>
    decreases entries.len() - i,
{
    if i < 0 || i >= entries.len() {
        Some(f)
    } else {
        match apply_info_entry(f, entries[i].0, entries[i].1) {
            Some(f2) => fold_info(entries, i + 1, f2),
            None => None,
        }
    }
}

/// An info dictionary: one with a name, the piece hashes and the piece
/// length.
pub open spec fn info_of(v: Value) -> Option<InfoView> {
    match v {
        Value::Dict(entries) => match fold_info(entries, 0, no_info_fields()) {
            Some(f) => match (f.name, f.pieces, f.piece_length) {
                (Some(n), Some(p), Some(l)) => Some(
                    InfoView {
                        name: n,
                        pieces: p,
                        piece_length: l,
                        md5sum: f.md5sum,
                        length: f.length,
                        files: f.files,
                        private: f.private,
                        root_hash: f.root_hash,
                    },
                ),
                _ => None,
            },
            None => None,
        },
        _ => None,
    }
}

/// A token that is an integer fitting in `u32`.
fn token_u32(t: &Token) -> (r: Option<u32>)
    ensures
        r == u32_of(t@),
{
    match t {
        Token::Integer(i) => if *i >= 0 && *i <= 0xffff_ffff {
            Some(*i as u32)
        } else {
            None
        },
        _ => None,
    }
}

/// A token that is an integer fitting in `u8`.
fn token_u8(t: &Token) -> (r: Option<u8>)
    ensures
        r == u8_of(t@),
{
    match t {
        Token::Integer(i) => if *i >= 0 && *i <= 0xff {
            Some(*i as u8)
        } else {
            None
        },
        _ => None,
    }
}

/// A list of texts.
fn read_text_list(t: &Token) -> (r: Option<Vec<String>>)
    ensures
        match text_list_of(t@) {
            Some(l) => r matches Some(v) && texts(v@) == l,
            None => r is None,
        },
{
    match t {
        Token::List(items) => {
            let ghost iv = tokens_view(items@);
            proof {
                lemma_tokens_view_index(items@);
            }
            let mut out: Vec<String> = Vec::new();
            proof {
                assert(texts(out@) =~= Seq::<Seq<char>>::empty());
            }
            let mut i: usize = 0;
            while i < items.len()
                invariant
                    0 <= i <= items@.len(),
                    t@ == Value::List(iv),
                    iv == tokens_view(items@),
                    iv.len() == items@.len(),
                    forall|j: int| 0 <= j < items@.len() ==> #[trigger] iv[j] == token_view(items@[j]),
                    strings_of(iv, 0, Seq::empty()) == strings_of(iv, i as int, texts(out@)),
                decreases items@.len() - i,
            {
                proof {
                    assert(iv[i as int] == items@[i as int]@);
                }
                match token_text(&items[i]) {
                    Some(s) => {
                        let ghost before = texts(out@);
                        out.push(s);
                        proof {
                            assert(texts(out@) =~= before.push(s@));
                        }
                    },
                    None => {
                        return None;
                    },
                }
                i = i + 1;
            }
            Some(out)
        },
        _ => None,
    }
}

/// The piece hashes.
fn read_pieces(t: &Token) -> (r: Option<Vec<u8>>)
    ensures
        match pieces_of(t@) {
            Some(p) => r matches Some(v) && v@ == p,
            None => r is None,
        },
{
    match t {
        Token::ByteString(b) => Some(vstd::slice::slice_to_vec(b.as_slice())),
        Token::List(items) => {
            let ghost iv = tokens_view(items@);
            proof {
                lemma_tokens_view_index(items@);
            }
            let mut out: Vec<u8> = Vec::new();
            let mut i: usize = 0;
            while i < items.len()
                invariant
                    0 <= i <= items@.len(),
                    t@ == Value::List(iv),
                    iv == tokens_view(items@),
                    iv.len() == items@.len(),
                    forall|j: int| 0 <= j < items@.len() ==> #[trigger] iv[j] == token_view(items@[j]),
                    byte_items(iv, 0, Seq::empty()) == byte_items(iv, i as int, out@),
                decreases items@.len() - i,
            {
                proof {
                    assert(iv[i as int] == items@[i as int]@);
                }
                match token_u8(&items[i]) {
                    Some(b) => {
                        out.push(b);
                    },
                    None => {
                        return None;
                    },
                }
                i = i + 1;
            }
            Some(out)
        },
        _ => None,
    }
}

/// A file of a multi-file torrent.
fn read_file(t: &Token) -> (r: Option<File>)
    ensures
        match file_of(t@) {
            Some(f) => r matches Some(x) && x@ == f,
            None => r is None,
        },
        r matches Some(f) ==> f.length <= i64::MAX,
{
    match t {
        Token::Dictionary(entries) => {
            let ghost ev = entries_view(entries@);
            proof {
                lemma_entries_view_index(entries@);
            }
            let mut path: Option<Vec<String>> = None;
            let mut length: Option<u64> = None;
            let mut md5sum: Option<String> = None;
            let mut i: usize = 0;
            while i < entries.len()
                invariant
                    0 <= i <= entries@.len(),
                    t@ == Value::Dict(ev),
                    ev == entries_view(entries@),
                    ev.len() == entries@.len(),
                    forall|j: int| 0 <= j < entries@.len() ==> #[trigger] ev[j] == (entries@[j].0@, token_view(entries@[j].1)),
                    length matches Some(l) ==> l <= i64::MAX,
                    fold_file(ev, 0, FileFields { path: None, length: None, md5sum: None }) == fold_file(
                        ev,
                        i as int,
                        FileFields {
                            path: match path {
                                Some(p) => Some(texts(p@)),
                                None => None,
                            },
                            length,
                            md5sum: opt_text(md5sum),
                        },
                    ),
                decreases entries@.len() - i,
            {
                let k = &entries[i].0;
                let v = &entries[i].1;
                proof {
                    assert(ev[i as int] == (k@, v@));
                }
                if !is_utf8(k.as_slice()) {
                    return None;
                }
                let ok = if bytes_equal(k.as_slice(), "path".as_bytes()) {
                    if path.is_some() {
                        false
                    } else {
                        match read_text_list(v) {
                            Some(p) => {
                                path = Some(p);
                                true
                            },
                            None => false,
                        }
                    }
                } else if bytes_equal(k.as_slice(), "length".as_bytes()) {
                    set_u64_field(&mut length, v)
                } else if bytes_equal(k.as_slice(), "md5sum".as_bytes()) {
                    set_text_field(&mut md5sum, v)
                } else {
                    true
                };
                if !ok {
                    return None;
                }
                i = i + 1;
            }
            match (path, length) {
                (Some(p), Some(l)) => Some(File { path: p, length: l, md5sum }),
                _ => None,
            }
        },
        _ => None,
    }
}

/// The files of a multi-file torrent.
fn read_files(t: &Token) -> (r: Option<Vec<File>>)
    ensures
        match files_of(t@) {
            Some(l) => r matches Some(v) && files_view(v@) == l,
            None => r is None,
        },
        r matches Some(v) ==> forall|j: int| 0 <= j < v@.len() ==> (#[trigger] v@[j]).length <= i64::MAX,
{
    match t {
        Token::List(items) => {
            let ghost iv = tokens_view(items@);
            proof {
                lemma_tokens_view_index(items@);
            }
            let mut out: Vec<File> = Vec::new();
            proof {
                assert(files_view(out@) =~= Seq::<FileView>::empty());
            }
            let mut i: usize = 0;
            while i < items.len()
                invariant
                    0 <= i <= items@.len(),
                    t@ == Value::List(iv),
                    iv == tokens_view(items@),
                    iv.len() == items@.len(),
                    forall|j: int| 0 <= j < items@.len() ==> #[trigger] iv[j] == token_view(items@[j]),
                    file_items(iv, 0, Seq::empty()) == file_items(iv, i as int, files_view(out@)),
                    forall|j: int| 0 <= j < out@.len() ==> (#[trigger] out@[j]).length <= i64::MAX,
                decreases items@.len() - i,
            {
                proof {
                    assert(iv[i as int] == items@[i as int]@);
                }
                match read_file(&items[i]) {
                    Some(f) => {
                        let ghost before = files_view(out@);
                        let ghost fv = f@;
                        out.push(f);
                        proof {
                            assert(files_view(out@) =~= before.push(fv));
                        }
                    },
                    None => {
                        return None;
                    },
                }
                i = i + 1;
            }
            Some(out)
        },
        _ => None,
    }
}

/// The fields of an info dictionary read so far.
pub open spec fn info_fields_of(
    name: Option<String>,
    pieces: Option<Vec<u8>>,
    piece_length: Option<u32>,
    md5sum: Option<String>,
    length: Option<u64>,
    files: Option<Vec<File>>,
    private: Option<u8>,
    root_hash: Option<String>,
) -> InfoFields {
    InfoFields {
        name: opt_text(name),
        pieces: match pieces {
            Some(p) => Some(p@),
            None => None,
        },
        piece_length,
        md5sum: opt_text(md5sum),
        length,
        files: match files {
            Some(f) => Some(files_view(f@)),
            None => None,
        },
        private,
        root_hash: opt_text(root_hash),
    }
}

/// The info dictionary.
fn read_info(t: &Token) -> (r: Option<Info>)
    ensures
        match info_of(t@) {
            Some(i) => r matches Some(x) && x@ == i,
            None => r is None,
        },
        r matches Some(x) ==> info_lengths_fit(x@),
{
    match t {
        Token::Dictionary(entries) => {
            let ghost ev = entries_view(entries@);
            proof {
                lemma_entries_view_index(entries@);
            }
            let mut name: Option<String> = None;
            let mut pieces: Option<Vec<u8>> = None;
            let mut piece_length: Option<u32> = None;
            let mut md5sum: Option<String> = None;
            let mut length: Option<u64> = None;
            let mut files: Option<Vec<File>> = None;
            let mut private: Option<u8> = None;
            let mut root_hash: Option<String> = None;
            let mut i: usize = 0;
            while i < entries.len()
                invariant
                    0 <= i <= entries@.len(),
                    t@ == Value::Dict(ev),
                    ev == entries_view(entries@),
                    ev.len() == entries@.len(),
                    forall|j: int| 0 <= j < entries@.len() ==> #[trigger] ev[j] == (entries@[j].0@, token_view(entries@[j].1)),
                    fold_info(ev, 0, no_info_fields()) == fold_info(
                        ev,
                        i as int,
                        info_fields_of(name, pieces, piece_length, md5sum, length, files, private, root_hash),
                    ),
                    length matches Some(l) ==> l <= i64::MAX,
                    files matches Some(fs) ==> forall|j: int| 0 <= j < fs@.len() ==> (#[trigger] fs@[j]).length <= i64::MAX,
                decreases entries@.len() - i,
            {
                let k = &entries[i].0;
                let v = &entries[i].1;
                proof {
                    assert(ev[i as int] == (k@, v@));
                }
                if !is_utf8(k.as_slice()) {
                    return None;
                }
                let ok = if bytes_equal(k.as_slice(), "name".as_bytes()) {
                    set_text_field(&mut name, v)
                } else if bytes_equal(k.as_slice(), "pieces".as_bytes()) {
                    if pieces.is_some() {
                        false
                    } else {
                        match read_pieces(v) {
                            Some(p) => {
                                pieces = Some(p);
                                true
                            },
                            None => false,
                        }
                    }
                } else if bytes_equal(k.as_slice(), "piece length".as_bytes()) {
                    if piece_length.is_some() {
                        false
                    } else {
                        match token_u32(v) {
                            Some(x) => {
                                piece_length = Some(x);
                                true
                            },
                            None => false,
                        }
                    }
                } else if bytes_equal(k.as_slice(), "md5sum".as_bytes()) {
                    set_text_field(&mut md5sum, v)
                } else if bytes_equal(k.as_slice(), "length".as_bytes()) {
                    set_u64_field(&mut length, v)
                } else if bytes_equal(k.as_slice(), "files".as_bytes()) {
                    if files.is_some() {
                        false
                    } else {
                        match read_files(v) {
                            Some(x) => {
                                files = Some(x);
                                true
                            },
                            None => false,
                        }
                    }
                } else if bytes_equal(k.as_slice(), "private".as_bytes()) {
                    if private.is_some() {
                        false
                    } else {
                        match token_u8(v) {
                            Some(x) => {
                                private = Some(x);
                                true
                            },
                            None => false,
                        }
                    }
                } else if bytes_equal(k.as_slice(), "root hash".as_bytes()) {
                    set_text_field(&mut root_hash, v)
                } else {
                    true
                };
                if !ok {
                    return None;
                }
                i = i + 1;
            }
            proof {
                if files is Some {
                    let fs = files->Some_0;
                    assert forall|j: int| 0 <= j < files_view(fs@).len() implies (#[trigger] files_view(fs@)[j]).length
                        <= i64::MAX by {
                        assert(files_view(fs@)[j] == fs@[j]@);
                    }
                }
            }
            match (name, pieces, piece_length) {
                (Some(n), Some(p), Some(l)) => Some(
                    Info { name: n, pieces: p, piece_length: l, md5sum, length, files, private, root_hash },
                ),
                _ => None,
            }
        },
        _ => None,
    }
}

// ---------------------------------------------------------------------------
// Announce URLs.

/// What `url::Url::parse` makes of a text: the parsed URL's text, or `None`
/// where the text is no URL.
pub uninterp spec fn url_parse(s: Seq<char>) -> Option<Seq<char>>;

/// Parses a URL.
///
/// Trusted: calls `url::Url::parse` and keeps the text of the parsed URL
/// (`Url::as_str`); the result is named as a function of the text alone.
#[verifier::external_body]
fn parse_url(s: &str) -> (r: Option<String>)
    ensures
        opt_text(r) == url_parse(s@),
{
    match url::Url::parse(s) {
        Ok(u) => Some(u.as_str().to_string()),
        Err(_) => None,
    }
}

/// The tiers of URL texts in `items[i..]`, after `acc`.
pub open spec fn tier_items(items: Seq<Value>, i: int, acc: Seq<Seq<Seq<char>>>) -> Option<Seq<Seq<Seq<char>>>>
    decreases items.len() - i,
{
    if i < 0 || i >= items.len() {
        Some(acc)
    } else {
        match text_list_of(items[i]) {
            Some(t) => tier_items(items, i + 1, acc.push(t)),
            None => None,
        }
    }
}

/// The URLs of a tier from `i` on, each parsed, after `acc`; `None` where
/// one is no URL.
pub open spec fn parse_tier(t: Seq<Seq<char>>, i: int, acc: Seq<Seq<char>>) -> Option<Seq<Seq<char>>>
    decreases t.len() - i,
{
    if i < 0 || i >= t.len() {
        Some(acc)
    } else {
        match url_parse(t[i]) {
            Some(u) => parse_tier(t, i + 1, acc.push(u)),
            None => None,
        }
    }
}

/// The tiers from `i` on, each URL parsed, after `acc`.
pub open spec fn parse_tiers(ts: Seq<Seq<Seq<char>>>, i: int, acc: Seq<Seq<Seq<char>>>) -> Option<Seq<Seq<Seq<char>>>>
    decreases ts.len() - i,
{
    if i < 0 || i >= ts.len() {
        Some(acc)
    } else {
        match parse_tier(ts[i], 0, Seq::empty()) {
            Some(t) => parse_tiers(ts, i + 1, acc.push(t)),
            None => None,
        }
    }
}

/// Whether no tier holds a URL.
pub open spec fn no_urls(ts: Seq<Seq<Seq<char>>>) -> bool {
    forall|i: int| 0 <= i < ts.len() ==> (#[trigger] ts[i]).len() == 0
}

/// The announce list: a list of tiers, each a list of URLs; `Some(None)`
/// where it holds no URL at all.
pub open spec fn announce_list_of(v: Value) -> Option<Option<Seq<Seq<Seq<char>>>>> {
    match v {
        Value::List(items) => match tier_items(items, 0, Seq::empty()) {
            Some(raw) => match parse_tiers(raw, 0, Seq::empty()) {
                Some(p) => Some(
                    if no_urls(p) {
                        None
                    } else {
                        Some(p)
                    },
                ),
                None => None,
            },
            None => None,
        },
        _ => None,
    }
}

/// The texts of tiers of strings.
pub open spec fn tiers_view(v: Seq<Vec<String>>) -> Seq<Seq<Seq<char>>> {
    v.map_values(|t: Vec<String>| texts(t@))
}

/// Parses each URL of a tier.
fn parse_tier_exec(t: &Vec<String>) -> (r: Option<Vec<String>>)
    ensures
        match parse_tier(texts(t@), 0, Seq::empty()) {
            Some(p) => r matches Some(v) && texts(v@) == p,
            None => r is None,
        },
{
    let ghost tv = texts(t@);
    let mut out: Vec<String> = Vec::new();
    proof {
        assert(texts(out@) =~= Seq::<Seq<char>>::empty());
    }
    let mut i: usize = 0;
    while i < t.len()
        invariant
            0 <= i <= t@.len(),
            tv == texts(t@),
            parse_tier(tv, 0, Seq::empty()) == parse_tier(tv, i as int, texts(out@)),
        decreases t@.len() - i,
    {
        match parse_url(t[i].as_str()) {
            Some(u) => {
                let ghost before = texts(out@);
                out.push(u);
                proof {
                    assert(texts(out@) =~= before.push(u@));
                }
            },
            None => {
                return None;
            },
        }
        i = i + 1;
    }
    Some(out)
}

/// Gathers the announce list from its tiers, each URL already parsed: none
/// where no tier holds a URL.
pub fn collect_tiers(tiers: Vec<Vec<String>>) -> (r: Option<Vec<Vec<String>>>)
    ensures
        match r {
            Some(v) => !no_urls(tiers_view(tiers@)) && tiers_view(v@) == tiers_view(tiers@),
            None => no_urls(tiers_view(tiers@)),
        },
{
    let mut i: usize = 0;
    while i < tiers.len()
        invariant
            0 <= i <= tiers@.len(),
            forall|j: int| 0 <= j < i ==> (#[trigger] tiers_view(tiers@)[j]).len() == 0,
        decreases tiers@.len() - i,
    {
        if tiers[i].len() > 0 {
            proof {
                assert(tiers_view(tiers@)[i as int].len() > 0);
            }
            return Some(tiers);
        }
        proof {
            assert(tiers_view(tiers@)[i as int] == texts(tiers@[i as int]@));
        }
        i = i + 1;
    }
    None
}

/// The announce list.
fn read_announce_list(t: &Token) -> (r: Option<Option<Vec<Vec<String>>>>)
    ensures
        match announce_list_of(t@) {
            Some(Some(l)) => r matches Some(Some(v)) && tiers_view(v@) == l,
            Some(None) => r matches Some(None),
            None => r is None,
        },
{
    match t {
        Token::List(items) => {
            let ghost iv = tokens_view(items@);
            proof {
                lemma_tokens_view_index(items@);
            }
            let mut raw: Vec<Vec<String>> = Vec::new();
            proof {
                assert(tiers_view(raw@) =~= Seq::<Seq<Seq<char>>>::empty());
            }
            let mut i: usize = 0;
            while i < items.len()
                invariant
                    0 <= i <= items@.len(),
                    t@ == Value::List(iv),
                    iv == tokens_view(items@),
                    iv.len() == items@.len(),
                    forall|j: int| 0 <= j < items@.len() ==> #[trigger] iv[j] == token_view(items@[j]),
                    tier_items(iv, 0, Seq::empty()) == tier_items(iv, i as int, tiers_view(raw@)),
                decreases items@.len() - i,
            {
                proof {
                    assert(iv[i as int] == items@[i as int]@);
                }
                match read_text_list(&items[i]) {
                    Some(l) => {
                        let ghost before = tiers_view(raw@);
                        let ghost lv = texts(l@);
                        raw.push(l);
                        proof {
                            assert(tiers_view(raw@) =~= before.push(lv));
                        }
                    },
                    None => {
                        return None;
                    },
                }
                i = i + 1;
            }
            let ghost rv = tiers_view(raw@);
            let mut parsed: Vec<Vec<String>> = Vec::new();
            proof {
                assert(tiers_view(parsed@) =~= Seq::<Seq<Seq<char>>>::empty());
            }
            let mut j: usize = 0;
            while j < raw.len()
                invariant
                    0 <= j <= raw@.len(),
                    rv == tiers_view(raw@),
                    t@ == Value::List(iv),
                    tier_items(iv, 0, Seq::empty()) == Some(rv),
                    parse_tiers(rv, 0, Seq::empty()) == parse_tiers(rv, j as int, tiers_view(parsed@)),
                decreases raw@.len() - j,
            {
                proof {
                    assert(rv[j as int] == texts(raw@[j as int]@));
                }
                match parse_tier_exec(&raw[j]) {
                    Some(p) => {
                        let ghost before = tiers_view(parsed@);
                        let ghost pv = texts(p@);
                        parsed.push(p);
                        proof {
                            assert(tiers_view(parsed@) =~= before.push(pv));
                        }
                    },
                    None => {
                        return None;
                    },
                }
                j = j + 1;
            }
            Some(collect_tiers(parsed))
        },
        _ => None,
    }
}

// ---------------------------------------------------------------------------
// The metainfo dictionary.

/// The fields of a metainfo dictionary as read so far; the announce list is
/// `Some` once read.
pub struct MetaFields {
    pub announce: Option<Seq<char>>,
    pub info: Option<InfoView>,
    pub encoding: Option<Seq<char>>,
    pub announce_list: Option<Option<Seq<Seq<Seq<char>>>>>,
    pub creation_date: Option<i64>,
    pub comment: Option<Seq<char>>,
    pub created_by: Option<Seq<char>>,
}

/// A metainfo dictionary with no field read.
pub open spec fn no_meta_fields() -> MetaFields {
    MetaFields {
        announce: None,
        info: None,
        encoding: None,
        announce_list: None,
        creation_date: None,
        comment: None,
        created_by: None,
    }
}

/// Reads one entry of a metainfo dictionary; `None` for a key that is not
/// UTF-8, a field given twice, a field of the wrong type, or a URL that
/// does not parse.
pub open spec fn apply_meta_entry(f: MetaFields, k: Seq<u8>, v: Value) -> Option<MetaFields> {
    if !valid_utf8(k) {
        None
    } else if k == "announce".spec_bytes() {
        if f.announce is Some {
            None
        } else {
            match text_of(v) {
                Some(t) => match url_parse(t) {
                    Some(u) => Some(MetaFields { announce: Some(u), ..f }),
                    None => None,
                },
                None => None,
            }
        }
    } else if k == "info".spec_bytes() {
        if f.info is Some {
            None
        } else {
            match info_of(v) {
                Some(i) => Some(MetaFields { info: Some(i), ..f }),
                None => None,
            }
        }
    } else if k == "encoding".spec_bytes() {
        match set_text(f.encoding, v) {
            Some(x) => Some(MetaFields { encoding: x, ..f }),
            None => None,
        }
    } else if k == "announce-list".spec_bytes() {
        if f.announce_list is Some {
            None
        } else {
            match announce_list_of(v) {
                Some(l) => Some(MetaFields { announce_list: Some(l), ..f }),
                None => None,
            }
        }
    } else if k == "creation date".spec_bytes() {
        if f.creation_date is Some {
            None
        } else {
            match i64_of(v) {
                Some(d) => Some(MetaFields { creation_date: Some(d), ..f }),
                None => None,
            }
        }
    } else if k == "comment".spec_bytes() {
        match set_text(f.comment, v) {
            Some(x) => Some(MetaFields { comment: x, ..f }),
            None => None,
        }
    } else if k == "created by".spec_bytes() {
        match set_text(f.created_by, v) {
            Some(x) => Some(MetaFields { created_by: x, ..f }),
            None => None,
        }
    } else {
        Some(f)
    }
}

/// Reads the entries of a metainfo dictionary from `i` on.
pub open spec fn fold_meta(entries: Seq<(Seq<u8>, Value)>, i: int, f: MetaFields) -> Option<MetaFields>
    decreases entries.len() - i,
{
    if i < 0 || i >= entries.len() {
        Some(f)
    } else {
        match apply_meta_entry(f, entries[i].0, entries[i].1) {
            Some(f2) => fold_meta(entries, i + 1, f2),
            None => None,
        }
    }
}

/// A metainfo dictionary: one with an announce URL and an info dictionary.
pub open spec fn meta_of(v: Value) -> Option<MetaFields> {
    match v {
        Value::Dict(entries) => match fold_meta(entries, 0, no_meta_fields()) {
            Some(f) => if f.announce is Some && f.info is Some {
                Some(f)
            } else {
                None
            },
            None => None,
        },
        _ => None,
    }
}

/// Text as a bencode byte string.
pub open spec fn text_value(t: Seq<char>) -> Value {
    Value::Bytes(encode_utf8(t))
}

/// An entry for an optional text field.
pub open spec fn opt_text_entry(key: Seq<u8>, t: Option<Seq<char>>) -> Seq<(Seq<u8>, Value)> {
    match t {
        Some(x) => seq![(key, text_value(x))],
        None => Seq::empty(),
    }
}

/// A file as its bencode dictionary: path, length and MD5 sum where given.
pub open spec fn file_value(f: FileView) -> Value {
    Value::Dict(
        seq![
            ("path".spec_bytes(), Value::List(f.path.map_values(|t: Seq<char>| text_value(t)))),
            ("length".spec_bytes(), Value::Int(f.length as int)),
        ] + opt_text_entry("md5sum".spec_bytes(), f.md5sum),
    )
}

/// The info dictionary as it is written to be hashed: its fields in order,
/// those not given left out.
pub open spec fn info_value(i: InfoView) -> Value {
    Value::Dict(
        seq![
            ("name".spec_bytes(), text_value(i.name)),
            ("pieces".spec_bytes(), Value::Bytes(i.pieces)),
            ("piece length".spec_bytes(), Value::Int(i.piece_length as int)),
        ] + opt_text_entry("md5sum".spec_bytes(), i.md5sum) + match i.length {
            Some(l) => seq![("length".spec_bytes(), Value::Int(l as int))],
            None => Seq::empty(),
        } + match i.files {
            Some(fs) => seq![("files".spec_bytes(), Value::List(fs.map_values(|f: FileView| file_value(f))))],
            None => Seq::empty(),
        } + match i.private {
            Some(p) => seq![("private".spec_bytes(), Value::Int(p as int))],
            None => Seq::empty(),
        } + opt_text_entry("root hash".spec_bytes(), i.root_hash),
    )
}

/// Whether every length in the info dictionary fits in a bencode integer.
pub open spec fn info_lengths_fit(i: InfoView) -> bool {
    &&& (i.length matches Some(l) ==> l <= i64::MAX)
    &&& (i.files matches Some(fs) ==> forall|j: int| 0 <= j < fs.len() ==> (#[trigger] fs[j]).length <= i64::MAX)
}

// ---------------------------------------------------------------------------
// Reading back the info dictionary that is hashed.

/// A text written as a byte string reads back as the same text.
proof fn lemma_text_reads_back(t: Seq<char>)
    ensures
        text_of(text_value(t)) == Some(t),
{
    vstd::utf8::encode_utf8_valid_utf8(t);
    vstd::utf8::encode_utf8_decode_utf8(t);
}

/// The keys of info and file dictionaries are UTF-8 and differ from each
/// other.
proof fn lemma_keys_distinct()
    ensures
        valid_utf8("name".spec_bytes()),
        valid_utf8("pieces".spec_bytes()),
        valid_utf8("piece length".spec_bytes()),
        valid_utf8("md5sum".spec_bytes()),
        valid_utf8("length".spec_bytes()),
        valid_utf8("files".spec_bytes()),
        valid_utf8("private".spec_bytes()),
        valid_utf8("root hash".spec_bytes()),
        valid_utf8("path".spec_bytes()),
        "pieces".spec_bytes() != "name".spec_bytes(),
        "piece length".spec_bytes() != "name".spec_bytes(),
        "piece length".spec_bytes() != "pieces".spec_bytes(),
        "md5sum".spec_bytes() != "name".spec_bytes(),
        "md5sum".spec_bytes() != "pieces".spec_bytes(),
        "md5sum".spec_bytes() != "piece length".spec_bytes(),
        "length".spec_bytes() != "name".spec_bytes(),
        "length".spec_bytes() != "pieces".spec_bytes(),
        "length".spec_bytes() != "piece length".spec_bytes(),
        "length".spec_bytes() != "md5sum".spec_bytes(),
        "files".spec_bytes() != "name".spec_bytes(),
        "files".spec_bytes() != "pieces".spec_bytes(),
        "files".spec_bytes() != "piece length".spec_bytes(),
        "files".spec_bytes() != "md5sum".spec_bytes(),
        "files".spec_bytes() != "length".spec_bytes(),
        "private".spec_bytes() != "name".spec_bytes(),
        "private".spec_bytes() != "pieces".spec_bytes(),
        "private".spec_bytes() != "piece length".spec_bytes(),
        "private".spec_bytes() != "md5sum".spec_bytes(),
        "private".spec_bytes() != "length".spec_bytes(),
        "private".spec_bytes() != "files".spec_bytes(),
        "root hash".spec_bytes() != "name".spec_bytes(),
        "root hash".spec_bytes() != "pieces".spec_bytes(),
        "root hash".spec_bytes() != "piece length".spec_bytes(),
        "root hash".spec_bytes() != "md5sum".spec_bytes(),
        "root hash".spec_bytes() != "length".spec_bytes(),
        "root hash".spec_bytes() != "files".spec_bytes(),
        "root hash".spec_bytes() != "private".spec_bytes(),
        "length".spec_bytes() != "path".spec_bytes(),
        "md5sum".spec_bytes() != "path".spec_bytes(),
{
    reveal_strlit("name");
    reveal_strlit("pieces");
    reveal_strlit("piece length");
    reveal_strlit("md5sum");
    reveal_strlit("length");
    reveal_strlit("files");
    reveal_strlit("private");
    reveal_strlit("root hash");
    reveal_strlit("path");
    broadcast use vstd::utf8::encode_utf8_valid_utf8;

    assert("pieces"@[0] != "length"@[0]);
    assert("pieces"@[0] != "md5sum"@[0]);
    assert("length"@[0] != "md5sum"@[0]);
    lemma_encodings_differ("pieces"@, "name"@);
    lemma_encodings_differ("piece length"@, "name"@);
    lemma_encodings_differ("piece length"@, "pieces"@);
    lemma_encodings_differ("md5sum"@, "name"@);
    lemma_encodings_differ("md5sum"@, "pieces"@);
    lemma_encodings_differ("md5sum"@, "piece length"@);
    lemma_encodings_differ("length"@, "name"@);
    lemma_encodings_differ("length"@, "pieces"@);
    lemma_encodings_differ("length"@, "piece length"@);
    lemma_encodings_differ("length"@, "md5sum"@);
    lemma_encodings_differ("files"@, "name"@);
    lemma_encodings_differ("files"@, "pieces"@);
    lemma_encodings_differ("files"@, "piece length"@);
    lemma_encodings_differ("files"@, "md5sum"@);
    lemma_encodings_differ("files"@, "length"@);
    lemma_encodings_differ("private"@, "name"@);
    lemma_encodings_differ("private"@, "pieces"@);
    lemma_encodings_differ("private"@, "piece length"@);
    lemma_encodings_differ("private"@, "md5sum"@);
    lemma_encodings_differ("private"@, "length"@);
    lemma_encodings_differ("private"@, "files"@);
    lemma_encodings_differ("root hash"@, "name"@);
    lemma_encodings_differ("root hash"@, "pieces"@);
    lemma_encodings_differ("root hash"@, "piece length"@);
    lemma_encodings_differ("root hash"@, "md5sum"@);
    lemma_encodings_differ("root hash"@, "length"@);
    lemma_encodings_differ("root hash"@, "files"@);
    lemma_encodings_differ("root hash"@, "private"@);
    lemma_encodings_differ("length"@, "path"@);
    lemma_encodings_differ("md5sum"@, "path"@);
}

/// Different texts are written as different bytes.
proof fn lemma_encodings_differ(a: Seq<char>, b: Seq<char>)
    requires
        a != b,
    ensures
        encode_utf8(a) != encode_utf8(b),
{
    vstd::utf8::encode_utf8_decode_utf8(a);
    vstd::utf8::encode_utf8_decode_utf8(b);
}

/// Reading entries `a` then `b` reads `a`, then goes on with `b`.
proof fn lemma_fold_info_concat(a: Seq<(Seq<u8>, Value)>, b: Seq<(Seq<u8>, Value)>, i: int, f: InfoFields)
    requires
        0 <= i <= a.len(),
    ensures
        fold_info(a + b, i, f) == match fold_info(a, i, f) {
            Some(g) => fold_info(b, 0, g),
            None => None,
        },
    decreases a.len() - i,
{
    if i == a.len() {
        lemma_fold_info_skip(a, b, 0, f);
    } else {
        assert((a + b)[i] == a[i]);
        match apply_info_entry(f, a[i].0, a[i].1) {
            Some(f2) => lemma_fold_info_concat(a, b, i + 1, f2),
            None => {},
        }
    }
}

/// Reading `a + b` from within `b` reads `b` alone.
proof fn lemma_fold_info_skip(a: Seq<(Seq<u8>, Value)>, b: Seq<(Seq<u8>, Value)>, j: int, f: InfoFields)
    requires
        0 <= j,
    ensures
        fold_info(a + b, a.len() + j, f) == fold_info(b, j, f),
    decreases b.len() - j,
{
    if j < b.len() {
        assert((a + b)[a.len() + j] == b[j]);
        match apply_info_entry(f, b[j].0, b[j].1) {
            Some(f2) => lemma_fold_info_skip(a, b, j + 1, f2),
            None => {},
        }
    }
}

/// Reading one entry applies it.
proof fn lemma_fold_info_one(e: (Seq<u8>, Value), f: InfoFields)
    ensures
        fold_info(seq![e], 0, f) == apply_info_entry(f, e.0, e.1),
{
    let s = seq![e];
    match apply_info_entry(f, e.0, e.1) {
        Some(g) => {
            assert(fold_info(s, 1, g) == Some(g));
        },
        None => {},
    }
}

/// The texts written as byte strings read back, from item `i` on.
proof fn lemma_strings_read_back(path: Seq<Seq<char>>, i: int, acc: Seq<Seq<char>>)
    requires
        0 <= i <= path.len(),
    ensures
        strings_of(path.map_values(|t: Seq<char>| text_value(t)), i, acc) == Some(acc + path.subrange(i, path.len() as int)),
    decreases path.len() - i,
{
    let items = path.map_values(|t: Seq<char>| text_value(t));
    if i == path.len() {
        assert(acc + path.subrange(i, path.len() as int) =~= acc);
    } else {
        lemma_text_reads_back(path[i]);
        assert(items[i] == text_value(path[i]));
        lemma_strings_read_back(path, i + 1, acc.push(path[i]));
        assert(acc.push(path[i]) + path.subrange(i + 1, path.len() as int) =~= acc + path.subrange(i, path.len() as int));
    }
}

/// A file written as a dictionary reads back as the same file.
proof fn lemma_file_reads_back(f: FileView)
    ensures
        file_of(file_value(f)) == Some(f),
{
    lemma_keys_distinct();
    let items = f.path.map_values(|t: Seq<char>| text_value(t));
    lemma_strings_read_back(f.path, 0, Seq::empty());
    assert(Seq::<Seq<char>>::empty() + f.path.subrange(0, f.path.len() as int) =~= f.path);
    let e = seq![("path".spec_bytes(), Value::List(items)), ("length".spec_bytes(), Value::Int(f.length as int))]
        + opt_text_entry("md5sum".spec_bytes(), f.md5sum);
    let f0 = FileFields { path: None, length: None, md5sum: None };
    let f1 = FileFields { path: Some(f.path), ..f0 };
    let f2 = FileFields { length: Some(f.length), ..f1 };
    assert(e[0] == ("path".spec_bytes(), Value::List(items)));
    assert(e[1] == ("length".spec_bytes(), Value::Int(f.length as int)));
    assert(apply_file_entry(f0, e[0].0, e[0].1) == Some(f1));
    assert(apply_file_entry(f1, e[1].0, e[1].1) == Some(f2));
    match f.md5sum {
        Some(m) => {
            lemma_text_reads_back(m);
            let f3 = FileFields { md5sum: Some(m), ..f2 };
            assert(e[2] == ("md5sum".spec_bytes(), text_value(m)));
            assert(apply_file_entry(f2, e[2].0, e[2].1) == Some(f3));
            assert(fold_file(e, 3, f3) == Some(f3));
            assert(fold_file(e, 2, f2) == Some(f3));
            assert(fold_file(e, 1, f1) == Some(f3));
            assert(fold_file(e, 0, f0) == Some(f3));
        },
        None => {
            assert(e.len() == 2);
            assert(fold_file(e, 2, f2) == Some(f2));
            assert(fold_file(e, 1, f1) == Some(f2));
            assert(fold_file(e, 0, f0) == Some(f2));
        },
    }
}

/// The files written as dictionaries read back, from item `i` on.
proof fn lemma_files_read_back(fs: Seq<FileView>, i: int, acc: Seq<FileView>)
    requires
        0 <= i <= fs.len(),
    ensures
        file_items(fs.map_values(|f: FileView| file_value(f)), i, acc) == Some(acc + fs.subrange(i, fs.len() as int)),
    decreases fs.len() - i,
{
    let items = fs.map_values(|f: FileView| file_value(f));
    if i == fs.len() {
        assert(acc + fs.subrange(i, fs.len() as int) =~= acc);
    } else {
        lemma_file_reads_back(fs[i]);
        assert(items[i] == file_value(fs[i]));
        lemma_files_read_back(fs, i + 1, acc.push(fs[i]));
        assert(acc.push(fs[i]) + fs.subrange(i + 1, fs.len() as int) =~= acc + fs.subrange(i, fs.len() as int));
    }
}

/// The info dictionary that is hashed holds every field of the info: read
/// as an info dictionary, it gives back the info it was written from,
/// name, pieces, piece length, MD5 sum, length, files, private flag and
/// root hash alike. So two infos that differ in any field are hashed from
/// different dictionaries.
pub proof fn law_info_dictionary_reads_back(i: InfoView)
    ensures
        info_of(info_value(i)) == Some(i),
{
    lemma_keys_distinct();
    lemma_text_reads_back(i.name);
    let e0 = seq![
        ("name".spec_bytes(), text_value(i.name)),
        ("pieces".spec_bytes(), Value::Bytes(i.pieces)),
        ("piece length".spec_bytes(), Value::Int(i.piece_length as int)),
    ];
    let s1 = opt_text_entry("md5sum".spec_bytes(), i.md5sum);
    let s2 = match i.length {
        Some(l) => seq![("length".spec_bytes(), Value::Int(l as int))],
        None => Seq::empty(),
    };
    let s3 = match i.files {
        Some(fs) => seq![("files".spec_bytes(), Value::List(fs.map_values(|f: FileView| file_value(f))))],
        None => Seq::empty(),
    };
    let s4 = match i.private {
        Some(p) => seq![("private".spec_bytes(), Value::Int(p as int))],
        None => Seq::empty(),
    };
    let s5 = opt_text_entry("root hash".spec_bytes(), i.root_hash);
    let e1 = e0 + s1;
    let e2 = e1 + s2;
    let e3 = e2 + s3;
    let e4 = e3 + s4;
    let e5 = e4 + s5;
    assert(info_value(i) == Value::Dict(e5));

    // The three fields every info has.
    let g0 = no_info_fields();
    let g1 = InfoFields { name: Some(i.name), ..g0 };
    let g2 = InfoFields { pieces: Some(i.pieces), ..g1 };
    let g3 = InfoFields { piece_length: Some(i.piece_length), ..g2 };
    assert(apply_info_entry(g0, e0[0].0, e0[0].1) == Some(g1));
    assert(apply_info_entry(g1, e0[1].0, e0[1].1) == Some(g2));
    assert(apply_info_entry(g2, e0[2].0, e0[2].1) == Some(g3));
    assert(fold_info(e0, 3, g3) == Some(g3));
    assert(fold_info(e0, 2, g2) == Some(g3));
    assert(fold_info(e0, 1, g1) == Some(g3));
    assert(fold_info(e0, 0, g0) == Some(g3));

    // MD5 sum.
    let g4 = InfoFields { md5sum: i.md5sum, ..g3 };
    lemma_fold_info_concat(e0, s1, 0, g0);
    match i.md5sum {
        Some(m) => {
            lemma_text_reads_back(m);
            lemma_fold_info_one(s1[0], g3);
            assert(s1 == seq![s1[0]]);
        },
        None => {
            assert(fold_info(s1, 0, g3) == Some(g3));
        },
    }
    assert(fold_info(e1, 0, g0) == Some(g4));

    // Length.
    let g5 = InfoFields { length: i.length, ..g4 };
    lemma_fold_info_concat(e1, s2, 0, g0);
    match i.length {
        Some(l) => {
            lemma_fold_info_one(s2[0], g4);
            assert(s2 == seq![s2[0]]);
        },
        None => {
            assert(fold_info(s2, 0, g4) == Some(g4));
        },
    }
    assert(fold_info(e2, 0, g0) == Some(g5));

    // Files.
    let g6 = InfoFields { files: i.files, ..g5 };
    lemma_fold_info_concat(e2, s3, 0, g0);
    match i.files {
        Some(fs) => {
            lemma_files_read_back(fs, 0, Seq::empty());
            assert(Seq::<FileView>::empty() + fs.subrange(0, fs.len() as int) =~= fs);
            lemma_fold_info_one(s3[0], g5);
            assert(s3 == seq![s3[0]]);
        },
        None => {
            assert(fold_info(s3, 0, g5) == Some(g5));
        },
    }
    assert(fold_info(e3, 0, g0) == Some(g6));

    // Private flag.
    let g7 = InfoFields { private: i.private, ..g6 };
    lemma_fold_info_concat(e3, s4, 0, g0);
    match i.private {
        Some(p) => {
            lemma_fold_info_one(s4[0], g6);
            assert(s4 == seq![s4[0]]);
        },
        None => {
            assert(fold_info(s4, 0, g6) == Some(g6));
        },
    }
    assert(fold_info(e4, 0, g0) == Some(g7));

    // Root hash.
    let g8 = InfoFields { root_hash: i.root_hash, ..g7 };
    lemma_fold_info_concat(e4, s5, 0, g0);
    match i.root_hash {
        Some(h) => {
            lemma_text_reads_back(h);
            lemma_fold_info_one(s5[0], g7);
            assert(s5 == seq![s5[0]]);
        },
        None => {
            assert(fold_info(s5, 0, g7) == Some(g7));
        },
    }
    assert(fold_info(e5, 0, g0) == Some(g8));
}

/// The bytes of a text.
fn text_token(s: &String) -> (t: Token)
    ensures
        t@ == text_value(s@),
{
    Token::ByteString(vstd::slice::slice_to_vec(s.as_str().as_bytes()))
}

/// The bytes of a key.
fn key_bytes(k: &str) -> (v: Vec<u8>)
    ensures
        v@ == k.spec_bytes(),
{
    vstd::slice::slice_to_vec(k.as_bytes())
}

/// Appends an entry to a dictionary's entries.
fn push_entry(entries: &mut Vec<(Vec<u8>, Token)>, k: &str, v: Token)
    ensures
        entries_view(final(entries)@) == entries_view(old(entries)@).push((k.spec_bytes(), v@)),
{
    let key = key_bytes(k);
    let ghost e = (key, v);
    entries.push((key, v));
    proof {
        assert(final(entries)@.drop_last() =~= old(entries)@);
    }
}

/// A list of texts as a bencode list.
fn text_list_token(v: &Vec<String>) -> (t: Token)
    ensures
        t@ == Value::List(texts(v@).map_values(|t: Seq<char>| text_value(t))),
{
    let mut items: Vec<Token> = Vec::new();
    let mut i: usize = 0;
    while i < v.len()
        invariant
            0 <= i <= v@.len(),
            tokens_view(items@) == texts(v@).take(i as int).map_values(|t: Seq<char>| text_value(t)),
        decreases v@.len() - i,
    {
        let t = text_token(&v[i]);
        let ghost before = items@;
        items.push(t);
        proof {
            assert(items@.drop_last() =~= before);
            assert(texts(v@).take(i + 1).map_values(|t: Seq<char>| text_value(t)) =~= texts(v@).take(
                i as int,
            ).map_values(|t: Seq<char>| text_value(t)).push(text_value(v@[i as int]@)));
        }
        i = i + 1;
    }
    proof {
        assert(texts(v@).take(i as int) =~= texts(v@));
    }
    Token::List(items)
}

/// A file as its bencode dictionary.
fn file_token(f: &File) -> (t: Token)
    requires
        f.length <= i64::MAX,
    ensures
        t@ == file_value(f@),
{
    let mut entries: Vec<(Vec<u8>, Token)> = Vec::new();
    push_entry(&mut entries, "path", text_list_token(&f.path));
    push_entry(&mut entries, "length", Token::Integer(f.length as i64));
    let ghost before = entries_view(entries@);
    match &f.md5sum {
        Some(m) => {
            push_entry(&mut entries, "md5sum", text_token(m));
        },
        None => {},
    }
    proof {
        assert(entries_view(entries@) =~= seq![
            ("path".spec_bytes(), Value::List(f@.path.map_values(|t: Seq<char>| text_value(t)))),
            ("length".spec_bytes(), Value::Int(f.length as int)),
        ] + opt_text_entry("md5sum".spec_bytes(), f@.md5sum));
    }
    Token::Dictionary(entries)
}

/// A list of files as a bencode list.
fn files_token(fs: &Vec<File>) -> (t: Token)
    requires
        forall|j: int| 0 <= j < fs@.len() ==> (#[trigger] fs@[j]).length <= i64::MAX,
    ensures
        t@ == Value::List(files_view(fs@).map_values(|f: FileView| file_value(f))),
{
    let mut items: Vec<Token> = Vec::new();
    let mut i: usize = 0;
    while i < fs.len()
        invariant
            0 <= i <= fs@.len(),
            forall|j: int| 0 <= j < fs@.len() ==> (#[trigger] fs@[j]).length <= i64::MAX,
            tokens_view(items@) == files_view(fs@).take(i as int).map_values(|f: FileView| file_value(f)),
        decreases fs@.len() - i,
    {
        let t = file_token(&fs[i]);
        let ghost before = items@;
        items.push(t);
        proof {
            assert(items@.drop_last() =~= before);
            assert(files_view(fs@).take(i + 1).map_values(|f: FileView| file_value(f)) =~= files_view(fs@).take(
                i as int,
            ).map_values(|f: FileView| file_value(f)).push(file_value(fs@[i as int]@)));
        }
        i = i + 1;
    }
    proof {
        assert(files_view(fs@).take(i as int) =~= files_view(fs@));
    }
    Token::List(items)
}

impl Info {
    /// The info dictionary as a bencode value, as it is hashed.
    fn to_token(&self) -> (t: Token)
        requires
            info_lengths_fit(self@),
        ensures
            t@ == info_value(self@),
    {
        let mut entries: Vec<(Vec<u8>, Token)> = Vec::new();
        push_entry(&mut entries, "name", text_token(&self.name));
        push_entry(&mut entries, "pieces", Token::ByteString(vstd::slice::slice_to_vec(self.pieces.as_slice())));
        push_entry(&mut entries, "piece length", Token::Integer(self.piece_length as i64));
        let ghost e3 = entries_view(entries@);
        match &self.md5sum {
            Some(m) => {
                push_entry(&mut entries, "md5sum", text_token(m));
            },
            None => {},
        }
        let ghost e4 = entries_view(entries@);
        match self.length {
            Some(l) => {
                push_entry(&mut entries, "length", Token::Integer(l as i64));
            },
            None => {},
        }
        let ghost e5 = entries_view(entries@);
        match &self.files {
            Some(fs) => {
                proof {
                    assert forall|j: int| 0 <= j < fs@.len() implies (#[trigger] fs@[j]).length <= i64::MAX by {
                        assert(files_view(fs@)[j] == fs@[j]@);
                    }
                }
                push_entry(&mut entries, "files", files_token(fs));
            },
            None => {},
        }
        let ghost e6 = entries_view(entries@);
        match self.private {
            Some(p) => {
                push_entry(&mut entries, "private", Token::Integer(p as i64));
            },
            None => {},
        }
        let ghost e7 = entries_view(entries@);
        match &self.root_hash {
            Some(h) => {
                push_entry(&mut entries, "root hash", text_token(h));
            },
            None => {},
        }
        proof {
            let i = self@;
            assert(e4 =~= e3 + opt_text_entry("md5sum".spec_bytes(), i.md5sum));
            assert(entries_view(entries@) =~= seq![
                ("name".spec_bytes(), text_value(i.name)),
                ("pieces".spec_bytes(), Value::Bytes(i.pieces)),
                ("piece length".spec_bytes(), Value::Int(i.piece_length as int)),
            ] + opt_text_entry("md5sum".spec_bytes(), i.md5sum) + match i.length {
                Some(l) => seq![("length".spec_bytes(), Value::Int(l as int))],
                None => Seq::empty(),
            } + match i.files {
                Some(fs) => seq![("files".spec_bytes(), Value::List(fs.map_values(|f: FileView| file_value(f))))],
                None => Seq::empty(),
            } + match i.private {
                Some(p) => seq![("private".spec_bytes(), Value::Int(p as int))],
                None => Seq::empty(),
            } + opt_text_entry("root hash".spec_bytes(), i.root_hash));
        }
        Token::Dictionary(entries)
    }

    /// The SHA1 digest of the info dictionary written as bencode: the
    /// torrent's id.
    pub fn info_hash(&self) -> (r: Result<[u8; 20], MetaInfoError>)
        requires
            info_lengths_fit(self@),
        ensures
            r matches Ok(h) && h@ == sha1_digest(encode_value(info_value(self@))),
    {
        let t = self.to_token();
        match encode_to_raw(&t) {
            Ok(bytes) => Ok(sha1(bytes.as_slice())),
            Err(e) => Err(MetaInfoError::BencodeError(e)),
        }
    }
}

/// A torrent's metainfo.
#[derive(Clone)]
pub struct MetaInfo {
    /// The text of the tracker's announce URL, parsed.
    pub announce: String,
    /// The dictionary that describes the files.
    pub info: Info,
    /// SHA1 digest of the info dictionary.
    pub info_hash: [u8; 20],
    /// Encoding of the strings of the info dictionary.
    pub encoding: Option<String>,
    /// Tiers of announce URLs, where any is given.
    pub announce_list: Option<Vec<Vec<String>>>,
    /// Creation time, in seconds of the UNIX epoch.
    pub creation_date: Option<i64>,
    pub comment: Option<String>,
    /// The program that made the torrent.
    pub created_by: Option<String>,
}

impl View for MetaInfo {
    type V = MetaInfoView;

    open spec fn view(&self) -> MetaInfoView {
        MetaInfoView {
            announce: self.announce@,
            info: self.info@,
            info_hash: self.info_hash@,
            encoding: opt_text(self.encoding),
            announce_list: match self.announce_list {
                Some(l) => Some(tiers_view(l@)),
                None => None,
            },
            creation_date: self.creation_date,
            comment: opt_text(self.comment),
            created_by: opt_text(self.created_by),
        }
    }
}

/// How reading a metainfo file ends.
pub enum MetaOutcome {
    Read(MetaInfoView),
    /// The bytes are no metainfo dictionary.
    Malformed,
    /// The piece hashes are empty or not a whole number of hashes.
    BadPieces,
}

/// What reading the bytes of a metainfo file gives: the fields of the
/// dictionary and the digest of its info dictionary.
pub open spec fn metainfo_of(b: Seq<u8>) -> MetaOutcome {
    match decode_spec(b) {
        Ok(v) => match meta_of(v) {
            Some(f) => {
                let info = f.info->Some_0;
                if info.pieces.len() % 20 != 0 || info.pieces.len() == 0 {
                    MetaOutcome::BadPieces
                } else {
                    MetaOutcome::Read(
                        MetaInfoView {
                            announce: f.announce->Some_0,
                            info,
                            info_hash: sha1_digest(encode_value(info_value(info))),
                            encoding: f.encoding,
                            announce_list: match f.announce_list {
                                Some(l) => l,
                                None => None,
                            },
                            creation_date: f.creation_date,
                            comment: f.comment,
                            created_by: f.created_by,
                        },
                    )
                }
            },
            None => MetaOutcome::Malformed,
        },
        Err(_) => MetaOutcome::Malformed,
    }
}

/// The fields of a metainfo dictionary read so far.
pub open spec fn meta_fields_of(
    announce: Option<String>,
    info: Option<Info>,
    encoding: Option<String>,
    announce_list: Option<Option<Vec<Vec<String>>>>,
    creation_date: Option<i64>,
    comment: Option<String>,
    created_by: Option<String>,
) -> MetaFields {
    MetaFields {
        announce: opt_text(announce),
        info: match info {
            Some(i) => Some(i@),
            None => None,
        },
        encoding: opt_text(encoding),
        announce_list: match announce_list {
            Some(Some(l)) => Some(Some(tiers_view(l@))),
            Some(None) => Some(None),
            None => None,
        },
        creation_date,
        comment: opt_text(comment),
        created_by: opt_text(created_by),
    }
}

/// The fields of a metainfo dictionary, with an announce URL and an info
/// dictionary.
fn read_meta(t: &Token) -> (r: Option<(String, Info, Option<String>, Option<Option<Vec<Vec<String>>>>, Option<i64>, Option<String>, Option<String>)>)
    ensures
        match meta_of(t@) {
            Some(f) => r matches Some((a, i, e, l, d, c, b)) && meta_fields_of(Some(a), Some(i), e, l, d, c, b) == f
                && info_lengths_fit(i@),
            None => r is None,
        },
{
    match t {
        Token::Dictionary(entries) => {
            let ghost ev = entries_view(entries@);
            proof {
                lemma_entries_view_index(entries@);
            }
            let mut announce: Option<String> = None;
            let mut info: Option<Info> = None;
            let mut encoding: Option<String> = None;
            let mut announce_list: Option<Option<Vec<Vec<String>>>> = None;
            let mut creation_date: Option<i64> = None;
            let mut comment: Option<String> = None;
            let mut created_by: Option<String> = None;
            let mut i: usize = 0;
            while i < entries.len()
                invariant
                    0 <= i <= entries@.len(),
                    t@ == Value::Dict(ev),
                    ev == entries_view(entries@),
                    ev.len() == entries@.len(),
                    forall|j: int| 0 <= j < entries@.len() ==> #[trigger] ev[j] == (entries@[j].0@, token_view(entries@[j].1)),
                    fold_meta(ev, 0, no_meta_fields()) == fold_meta(
                        ev,
                        i as int,
                        meta_fields_of(announce, info, encoding, announce_list, creation_date, comment, created_by),
                    ),
                    info matches Some(x) ==> info_lengths_fit(x@),
                decreases entries@.len() - i,
            {
                let k = &entries[i].0;
                let v = &entries[i].1;
                proof {
                    assert(ev[i as int] == (k@, v@));
                }
                if !is_utf8(k.as_slice()) {
                    return None;
                }
                let ok = if bytes_equal(k.as_slice(), "announce".as_bytes()) {
                    if announce.is_some() {
                        false
                    } else {
                        match token_text(v) {
                            Some(text) => match parse_url(text.as_str()) {
                                Some(u) => {
                                    announce = Some(u);
                                    true
                                },
                                None => false,
                            },
                            None => false,
                        }
                    }
                } else if bytes_equal(k.as_slice(), "info".as_bytes()) {
                    if info.is_some() {
                        false
                    } else {
                        match read_info(v) {
                            Some(x) => {
                                info = Some(x);
                                true
                            },
                            None => false,
                        }
                    }
                } else if bytes_equal(k.as_slice(), "encoding".as_bytes()) {
                    set_text_field(&mut encoding, v)
                } else if bytes_equal(k.as_slice(), "announce-list".as_bytes()) {
                    if announce_list.is_some() {
                        false
                    } else {
                        match read_announce_list(v) {
                            Some(x) => {
                                announce_list = Some(x);
                                true
                            },
                            None => false,
                        }
                    }
                } else if bytes_equal(k.as_slice(), "creation date".as_bytes()) {
                    if creation_date.is_some() {
                        false
                    } else {
                        match v {
                            Token::Integer(d) => {
                                creation_date = Some(*d);
                                true
                            },
                            _ => false,
                        }
                    }
                } else if bytes_equal(k.as_slice(), "comment".as_bytes()) {
                    set_text_field(&mut comment, v)
                } else if bytes_equal(k.as_slice(), "created by".as_bytes()) {
                    set_text_field(&mut created_by, v)
                } else {
                    true
                };
                if !ok {
                    return None;
                }
                i = i + 1;
            }
            match (announce, info) {
                (Some(a), Some(x)) => Some((a, x, encoding, announce_list, creation_date, comment, created_by)),
                _ => None,
            }
        },
        _ => None,
    }
}

impl MetaInfo {
    /// Reads a torrent's metainfo from the bytes of its file: the bencode
    /// dictionary's fields, with piece hashes that are a whole, non-zero
    /// number of 20-byte hashes, and the digest of its info dictionary.
    pub fn from_bytes(b: &[u8]) -> (r: Result<MetaInfo, MetaInfoError>)
        ensures
            match metainfo_of(b@) {
                MetaOutcome::Read(m) => r matches Ok(x) && x@ == m,
                MetaOutcome::Malformed => r matches Err(MetaInfoError::BencodeError(_)),
                MetaOutcome::BadPieces => r matches Err(MetaInfoError::InvalidPiecesLength),
            },
    {
        let t = match decode_bytes(b) {
            Ok(t) => t,
            Err(e) => {
                return Err(MetaInfoError::BencodeError(e));
            },
        };
        let (announce, info, encoding, announce_list, creation_date, comment, created_by) = match read_meta(&t) {
            Some(f) => f,
            None => {
                return Err(MetaInfoError::BencodeError(Error::InvalidType(String::from_str("not a metainfo dictionary"))));
            },
        };
        if info.pieces.len() % 20 != 0 || info.pieces.len() == 0 {
            return Err(MetaInfoError::InvalidPiecesLength);
        }
        let info_hash = match info.info_hash() {
            Ok(h) => h,
            Err(e) => {
                return Err(e);
            },
        };
        let announce_list = match announce_list {
            Some(l) => l,
            None => None,
        };
        Ok(MetaInfo { announce, info, info_hash, encoding, announce_list, creation_date, comment, created_by })
    }
}

/// What `std` takes for the extension of a path: the bytes of its file
/// name after the last dot, or `None` where the name has no such dot (by
/// the path rules of the platform the library is built for).
pub uninterp spec fn path_extension(path: Seq<char>) -> Option<Seq<u8>>;

/// The extension of a path, as bytes.
///
/// Trusted: calls `std::path::Path::extension` and hands back the bytes of
/// the extension it finds; the result is named as a function of the path.
#[verifier::external_body]
fn extension_of(path: &str) -> (r: Option<Vec<u8>>)
    ensures
        match r {
            Some(e) => path_extension(path@) == Some(e@),
            None => path_extension(path@) is None,
        },
{
    match std::path::Path::new(path).extension() {
        Some(e) => Some(e.as_encoded_bytes().to_vec()),
        None => None,
    }
}

/// Whether a path's extension is `torrent`.
pub open spec fn has_torrent_extension(path: Seq<char>) -> bool {
    path_extension(path) == Some("torrent".spec_bytes())
}

impl MetaInfo {
    /// Checks the name of a metainfo file before it is read: one whose
    /// extension is not `torrent` is refused with `InvalidExtension`.
    pub fn check_extension(path: &str) -> (r: Result<(), MetaInfoError>)
        ensures
            r is Ok <==> has_torrent_extension(path@),
            r matches Err(e) ==> e is InvalidExtension,
    {
        let torrent = "torrent";
        proof {
            reveal_strlit("torrent");
        }
        match extension_of(path) {
            Some(e) => {
                if bytes_equal(e.as_slice(), torrent.as_bytes()) {
                    Ok(())
                } else {
                    Err(MetaInfoError::InvalidExtension)
                }
            },
            None => Err(MetaInfoError::InvalidExtension),
        }
    }
}

// ---------------------------------------------------------------------------
// Values derived from the metainfo.

/// The piece hashes: the pieces field cut into 20-byte hashes; bytes after
/// the last whole hash are left.
pub open spec fn piece_hashes_of(pieces: Seq<u8>) -> Seq<Seq<u8>> {
    Seq::new((pieces.len() / 20) as nat, |i: int| pieces.subrange(20 * i, 20 * i + 20))
}

/// The path elements joined with `/`.
pub open spec fn join_path(segs: Seq<Seq<char>>) -> Seq<char>
    decreases segs.len(),
{
    if segs.len() == 0 {
        Seq::empty()
    } else if segs.len() == 1 {
        segs[0]
    } else {
        join_path(segs.drop_last()) + "/"@ + segs.last()
    }
}

/// Bytes of the files before file `i`.
pub open spec fn file_offset(fs: Seq<FileView>, i: int) -> int
    decreases i,
{
    if i <= 0 {
        0
    } else {
        file_offset(fs, i - 1) + fs[i - 1].length
    }
}

/// The length of the torrent: the files' lengths summed, or the single
/// file's length (zero where none is given).
pub open spec fn total_len_of(i: InfoView) -> int {
    match i.files {
        Some(fs) => file_offset(fs, fs.len() as int),
        None => match i.length {
            Some(l) => l as int,
            None => 0,
        },
    }
}

/// A lowercase hexadecimal digit.
pub open spec fn hex_lower(d: u8) -> char {
    if d < 10 { (48 + d) as char } else { (87 + d) as char }
}

/// Bytes as lowercase hexadecimal, two digits each, high nibble first.
pub open spec fn hex_text(d: Seq<u8>) -> Seq<char>
    decreases d.len(),
{
    if d.len() == 0 {
        Seq::empty()
    } else {
        hex_text(d.drop_last()) + seq![hex_lower(d.last() / 16), hex_lower(d.last() % 16)]
    }
}

/// Writes bytes in hexadecimal.
///
/// Trusted: calls `hex::encode`, which writes each byte as two lowercase
/// hexadecimal digits, high nibble first; the contract states exactly that.
#[verifier::external_body]
pub(crate) fn hex_encode(data: &[u8]) -> (s: String)
    ensures
        s@ == hex_text(data@),
{
    hex::encode(data)
}

/// What `chrono` makes of a UNIX timestamp: the text of its UTC date and
/// time as `%Y-%m-%d %H:%M:%S`, or `None` out of its range.
pub uninterp spec fn timestamp_text(secs: i64) -> Option<Seq<char>>;

/// Formats a UNIX timestamp.
///
/// Trusted: calls `chrono::NaiveDateTime::from_timestamp_opt` and formats
/// the date with `%Y-%m-%d %H:%M:%S`; the result is named as a function of
/// the timestamp alone.
#[verifier::external_body]
#[allow(deprecated)]
fn format_timestamp(secs: i64) -> (r: Option<String>)
    ensures
        opt_text(r) == timestamp_text(secs),
{
    match chrono::NaiveDateTime::from_timestamp_opt(secs, 0) {
        Some(d) => Some(d.format("%Y-%m-%d %H:%M:%S").to_string()),
        None => None,
    }
}

/// Shuffles strings into a random order.
///
/// Trusted: calls `SliceRandom::shuffle` with `rand::thread_rng()`; the
/// order depends on chance, so the contract says only that the same strings
/// come out.
#[verifier::external_body]
fn shuffle(v: &mut Vec<String>)
    ensures
        texts(final(v)@).to_multiset() == texts(old(v)@).to_multiset(),
{
    rand::seq::SliceRandom::shuffle(v.as_mut_slice(), &mut rand::thread_rng())
}

/// The text of a creation date: the formatted date, or `Invalid date` where
/// it is out of range.
pub fn date_or_invalid(formatted: Option<String>) -> (s: String)
    ensures
        s@ == match opt_text(formatted) {
            Some(t) => t,
            None => "Invalid date"@,
        },
{
    match formatted {
        Some(t) => t,
        None => String::from_str("Invalid date"),
    }
}

/// Joins path elements with `/`.
fn join(segs: &Vec<String>) -> (s: String)
    ensures
        s@ == join_path(texts(segs@)),
{
    let mut out = String::new();
    let mut i: usize = 0;
    while i < segs.len()
        invariant
            0 <= i <= segs@.len(),
            out@ == join_path(texts(segs@).take(i as int)),
        decreases segs@.len() - i,
    {
        let ghost before = out@;
        if i > 0 {
            out.append("/");
        }
        out.append(segs[i].as_str());
        proof {
            let t = texts(segs@).take(i + 1);
            assert(t.drop_last() =~= texts(segs@).take(i as int));
            if i == 0 {
                assert(t =~= seq![segs@[0]@]);
            }
        }
        i = i + 1;
    }
    proof {
        assert(texts(segs@).take(i as int) =~= texts(segs@));
    }
    out
}

/// Whether `r` gives the trackers of `m` by tier: each tier of the announce
/// list with its URLs in some order, or the announce URL alone.
pub open spec fn trackers_of(m: MetaInfoView, r: Seq<Vec<String>>) -> bool {
    match m.announce_list {
        Some(l) => r.len() == l.len() && forall|i: int| 0 <= i < l.len() ==> texts((#[trigger] r[i])@).to_multiset()
            == l[i].to_multiset(),
        None => tiers_view(r) == seq![seq![m.announce]],
    }
}

impl MetaInfo {
    /// The 20-byte hash of each piece.
    pub fn piece_hashes(&self) -> (r: Vec<[u8; 20]>)
        ensures
            r@.len() == piece_hashes_of(self@.info.pieces).len(),
            forall|i: int| 0 <= i < r@.len() ==> (#[trigger] r@[i])@ == piece_hashes_of(self@.info.pieces)[i],
    {
        let p = &self.info.pieces;
        let n = p.len() / 20;
        let mut out: Vec<[u8; 20]> = Vec::new();
        let mut i: usize = 0;
        while i < n
            invariant
                0 <= i <= n,
                n == p@.len() / 20,
                p@ == self@.info.pieces,
                out@.len() == i,
                forall|j: int| 0 <= j < i ==> (#[trigger] out@[j])@ == piece_hashes_of(p@)[j],
            decreases n - i,
        {
            proof {
                let len = p.len();
                assert(20 * i + 20 <= len) by (nonlinear_arith)
                    requires
                        i < n,
                        n == len / 20,
                ;
            }
            let mut h: [u8; 20] = [0u8; 20];
            let mut k: usize = 0;
            while k < 20
                invariant
                    0 <= k <= 20,
                    20 * i + 20 <= p.len(),
                    h@.len() == 20,
                    forall|m: int| 0 <= m < k ==> h@[m] == p@[20 * i + m],
                decreases 20 - k,
            {
                h[k] = p[20 * i + k];
                k = k + 1;
            }
            proof {
                assert(h@ =~= p@.subrange(20 * i as int, 20 * i + 20));
            }
            out.push(h);
            i = i + 1;
        }
        out
    }

    /// Bytes in each piece.
    pub fn piece_len(&self) -> (n: usize)
        ensures
            n == self@.info.piece_length,
    {
        self.info.piece_length as usize
    }

    /// Number of pieces: the pieces field's length, taken as `u32`, over 20.
    pub fn num_pieces(&self) -> (n: u32)
        ensures
            n == (self@.info.pieces.len() as u32) / 20,
    {
        (self.info.pieces.len() as u32) / 20
    }

    /// Whether the torrent has several files.
    pub fn is_multi_file(&self) -> (r: bool)
        ensures
            r == self@.info.files is Some,
    {
        self.info.files.is_some()
    }

    /// Whether the torrent's storage can be laid out (see `store_fits`):
    /// a torrent that cannot is not to be stored.
    pub fn storable(&self) -> (r: bool)
        ensures
            r == store_fits(self@),
    {
        let total: u64 = match &self.info.files {
            Some(files) => {
                let ghost fs = files_view(files@);
                let mut sum: u64 = 0;
                let mut i: usize = 0;
                while i < files.len()
                    invariant
                        0 <= i <= files@.len(),
                        fs == files_view(files@),
                        self@.info.files == Some(fs),
                        sum == file_offset(fs, i as int),
                        sum <= usize::MAX,
                    decreases files@.len() - i,
                {
                    proof {
                        assert(fs[i as int] == files@[i as int]@);
                    }
                    if files[i].length > u64::MAX - sum || (sum + files[i].length) as u128 > usize::MAX as u128 {
                        proof {
                            lemma_file_offset_mono(fs, i + 1, fs.len() as int);
                        }
                        return false;
                    }
                    sum = sum + files[i].length;
                    i = i + 1;
                }
                sum
            },
            None => match self.info.length {
                Some(l) => {
                    if l as u128 > usize::MAX as u128 {
                        return false;
                    }
                    l
                },
                None => {
                    return false;
                },
            },
        };
        let n = self.num_pieces();
        if n < 1 {
            return false;
        }
        let pl = self.info.piece_length as u64;
        let k = (n - 1) as u64;
        proof {
            assert(pl * k <= u32::MAX * u32::MAX) by (nonlinear_arith)
                requires
                    pl <= u32::MAX,
                    k <= u32::MAX,
            ;
        }
        pl * k <= total
    }

    /// Length of a single-file torrent.
    pub fn single_file_len(&self) -> (r: Option<u64>)
        ensures
            r == self@.info.length,
    {
        self.info.length
    }

    /// Length of the torrent in bytes.
    pub fn total_len(&self) -> (n: u64)
        requires
            total_len_of(self@.info) <= u64::MAX,
        ensures
            n == total_len_of(self@.info),
    {
        match &self.info.files {
            Some(files) => {
                let ghost fs = files_view(files@);
                let mut sum: u64 = 0;
                let mut i: usize = 0;
                while i < files.len()
                    invariant
                        0 <= i <= files@.len(),
                        fs == files_view(files@),
                        file_offset(fs, fs.len() as int) <= u64::MAX,
                        sum == file_offset(fs, i as int),
                    decreases files@.len() - i,
                {
                    proof {
                        lemma_file_offset_mono(fs, i + 1, fs.len() as int);
                        assert(fs[i as int] == files@[i as int]@);
                    }
                    sum = sum + files[i].length;
                    i = i + 1;
                }
                sum
            },
            None => match self.info.length {
                Some(l) => l,
                None => 0,
            },
        }
    }

    /// The digest of the info dictionary.
    pub fn info_hash(&self) -> (h: [u8; 20])
        ensures
            h@ == self@.info_hash,
    {
        self.info_hash
    }

    /// The torrent's name.
    pub fn name(&self) -> (s: &str)
        ensures
            s@ == self@.info.name,
    {
        self.info.name.as_str()
    }

    /// The files of the torrent, each with its offset in the torrent's bytes.
    pub fn files(&self) -> (r: Vec<FileInfo>)
        requires
            self@.info.files is Some ==> file_offset(self@.info.files->Some_0, self@.info.files->Some_0.len() as int)
                <= usize::MAX,
            self@.info.files is None ==> self@.info.length is Some && self@.info.length->Some_0 <= usize::MAX,
        ensures
            match self@.info.files {
                Some(fs) => {
                    &&& r@.len() == fs.len()
                    &&& forall|i: int| 0 <= i < fs.len() ==> {
                        &&& (#[trigger] r@[i]).path@ == join_path(fs[i].path)
                        &&& r@[i].length == fs[i].length
                        &&& r@[i].offset == file_offset(fs, i)
                        &&& opt_text(r@[i].md5sum) == fs[i].md5sum
                    }
                },
                None => {
                    &&& r@.len() == 1
                    &&& r@[0].path@ == self@.info.name
                    &&& r@[0].length == self@.info.length->Some_0
                    &&& r@[0].offset == 0
                    &&& r@[0].md5sum is None
                },
            },
    {
        match &self.info.files {
            Some(files) => {
                let ghost fs = files_view(files@);
                let mut out: Vec<FileInfo> = Vec::new();
                let mut offset: usize = 0;
                let mut i: usize = 0;
                while i < files.len()
                    invariant
                        0 <= i <= files@.len(),
                        fs == files_view(files@),
                        file_offset(fs, fs.len() as int) <= usize::MAX,
                        offset == file_offset(fs, i as int),
                        out@.len() == i,
                        forall|j: int| 0 <= j < i ==> {
                            &&& (#[trigger] out@[j]).path@ == join_path(fs[j].path)
                            &&& out@[j].length == fs[j].length
                            &&& out@[j].offset == file_offset(fs, j)
                            &&& opt_text(out@[j].md5sum) == fs[j].md5sum
                        },
                    decreases files@.len() - i,
                {
                    proof {
                        lemma_file_offset_mono(fs, i + 1, fs.len() as int);
                        assert(fs[i as int] == files@[i as int]@);
                    }
                    let f = &files[i];
                    let length = f.length as usize;
                    out.push(FileInfo { path: join(&f.path), length, offset, md5sum: f.md5sum.clone() });
                    offset = offset + length;
                    i = i + 1;
                }
                out
            },
            None => {
                let length = match self.info.length {
                    Some(l) => l as usize,
                    None => {
                        proof {
                            assert(false);
                        }
                        0
                    },
                };
                let mut out: Vec<FileInfo> = Vec::new();
                out.push(FileInfo { path: self.info.name.clone(), length, offset: 0, md5sum: None });
                out
            },
        }
    }

    /// The creation date as text, where one is given.
    pub fn creation_date_fmt(&self) -> (r: Option<String>)
        ensures
            match self@.creation_date {
                Some(d) => r matches Some(s) && s@ == match timestamp_text(d) {
                    Some(t) => t,
                    None => "Invalid date"@,
                },
                None => r is None,
            },
    {
        match self.creation_date {
            Some(d) => Some(date_or_invalid(format_timestamp(d))),
            None => None,
        }
    }

    /// The info hash in lowercase hexadecimal.
    pub fn info_hash_hex(&self) -> (s: String)
        ensures
            s@ == hex_text(self@.info_hash),
    {
        hex_encode(vstd::array::array_as_slice(&self.info_hash))
    }

    /// The trackers' announce URLs by tier: the announce list with each
    /// tier in a random order, or the announce URL alone.
    pub fn trackers(&self) -> (r: Vec<Vec<String>>)
        ensures
            trackers_of(self@, r@),
    {
        match &self.announce_list {
            Some(list) => {
                let ghost l = tiers_view(list@);
                let mut out: Vec<Vec<String>> = Vec::new();
                let mut i: usize = 0;
                while i < list.len()
                    invariant
                        0 <= i <= list@.len(),
                        l == tiers_view(list@),
                        out@.len() == i,
                        forall|j: int| 0 <= j < i ==> texts((#[trigger] out@[j])@).to_multiset() == l[j].to_multiset(),
                    decreases list@.len() - i,
                {
                    let mut tier = list[i].clone();
                    proof {
                        assert(texts(tier@) =~= l[i as int]);
                    }
                    shuffle(&mut tier);
                    out.push(tier);
                    i = i + 1;
                }
                out
            },
            None => {
                let mut tier: Vec<String> = Vec::new();
                tier.push(self.announce.clone());
                let mut out: Vec<Vec<String>> = Vec::new();
                out.push(tier);
                proof {
                    assert(texts(out@[0]@) =~= seq![self@.announce]);
                    assert(tiers_view(out@) =~= seq![seq![self@.announce]]);
                }
                out
            },
        }
    }
}

/// The offsets grow with the index.
proof fn lemma_file_offset_mono(fs: Seq<FileView>, i: int, j: int)
    requires
        0 <= i <= j,
    ensures
        file_offset(fs, i) <= file_offset(fs, j),
    decreases j - i,
{
    if i < j {
        lemma_file_offset_mono(fs, i, j - 1);
    }
}

} // verus!
