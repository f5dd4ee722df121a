//! The bencode grammar: how a value is written, and how bytes are read.

use vstd::prelude::*;
use super::number::{digits_of, int_text, is_digit, spec_parse_i64, spec_parse_usize};
use super::token::{bytes_lt, Value};

verus! {

pub const CH_I: u8 = 105;
pub const CH_L: u8 = 108;
pub const CH_D: u8 = 100;
pub const CH_E: u8 = 101;
pub const CH_COLON: u8 = 58;
pub const CH_MINUS: u8 = 45;

// ---------------------------------------------------------------------------
// Writing.

/// A byte string: its length in decimal, a colon, then its bytes.
pub open spec fn encode_bytes(b: Seq<u8>) -> Seq<u8> {
    digits_of(b.len()) + seq![CH_COLON] + b
}

/// Inserts index `i` into `ord`, a list of indices of `entries` ordered by
/// key; an index whose key equals that of `i` is replaced by `i`.
pub open spec fn order_insert<V>(entries: Seq<(Seq<u8>, V)>, ord: Seq<int>, i: int) -> Seq<int>
    decreases ord.len(),
{
    if ord.len() == 0 {
        seq![i]
    } else if bytes_lt(entries[i].0, entries[ord[0]].0) {
        seq![i] + ord
    } else if entries[i].0 == entries[ord[0]].0 {
        seq![i] + ord.drop_first()
    } else {
        seq![ord[0]] + order_insert(entries, ord.drop_first(), i)
    }
}

/// The indices of the first `n` entries in the order in which a dictionary is
/// written: by key, a later entry replacing an earlier one with the same key.
pub open spec fn dict_order_upto<V>(entries: Seq<(Seq<u8>, V)>, n: int) -> Seq<int>
    decreases n,
{
    if n <= 0 {
        Seq::empty()
    } else {
        order_insert(entries, dict_order_upto(entries, n - 1), n - 1)
    }
}

/// The indices of all entries in the order in which they are written.
pub open spec fn dict_order<V>(entries: Seq<(Seq<u8>, V)>) -> Seq<int> {
    dict_order_upto(entries, entries.len() as int)
}

/// How a value is written.
pub open spec fn encode_value(v: Value) -> Seq<u8>
    decreases v, 0int,
{
    match v {
        Value::Int(i) => seq![CH_I] + int_text(i) + seq![CH_E],
        Value::Bytes(b) => encode_bytes(b),
        Value::List(items) => seq![CH_L] + encode_list(items) + seq![CH_E],
        Value::Dict(entries) => seq![CH_D] + encode_entries(entries, dict_order(entries))
            + seq![CH_E],
    }
}

/// The items of a list, written one after the other.
pub open spec fn encode_list(items: Seq<Value>) -> Seq<u8>
    decreases items, 0int,
{
    if items.len() == 0 {
        Seq::empty()
    } else {
        encode_list(items.drop_last()) + encode_value(items.last())
    }
}

/// The entries of a dictionary named by `idxs`, each as its key then its value.
pub open spec fn encode_entries(entries: Seq<(Seq<u8>, Value)>, idxs: Seq<int>) -> Seq<u8>
    decreases entries, idxs.len(),
{
    if idxs.len() == 0 {
        Seq::empty()
    } else if 0 <= idxs.last() < entries.len() {
        encode_entries(entries, idxs.drop_last()) + encode_bytes(entries[idxs.last()].0)
            + encode_value(entries[idxs.last()].1)
    } else {
        Seq::empty()
    }
}

// ---------------------------------------------------------------------------
// Reading.

/// What a single read of the decoder can find.
pub enum Lexeme {
    Int(int),
    Bytes(Seq<u8>),
    ListStart,
    DictStart,
    End,
}

/// Why decoding fails.
pub enum DecodeError {
    /// The input ended, or an `e` stood where a value was expected.
    Eof,
    /// A value started with a byte that starts no value.
    InvalidToken,
    /// An integer or a length was not a number that fits.
    NotNumber,
    /// A dictionary key was not a byte string.
    KeyNotBytes,
}

/// The first position at or after `from` that holds `b`.
pub open spec fn find_byte(s: Seq<u8>, from: int, b: u8) -> Option<int>
    decreases s.len() - from,
{
    if from < 0 || from >= s.len() {
        None
    } else if s[from] == b {
        Some(from)
    } else {
        find_byte(s, from + 1, b)
    }
}

/// Reads one lexeme at `pos`, giving it and the position after it.
pub open spec fn next_lexeme(s: Seq<u8>, pos: int) -> Result<(Lexeme, int), DecodeError> {
    if pos < 0 || pos >= s.len() {
        Err(DecodeError::Eof)
    } else {
        let c = s[pos];
        if c == CH_I {
            match find_byte(s, pos + 1, CH_E) {
                None => Err(DecodeError::Eof),
                Some(j) => match spec_parse_i64(s.subrange(pos + 1, j)) {
                    None => Err(DecodeError::NotNumber),
                    Some(v) => Ok((Lexeme::Int(v as int), j + 1)),
                },
            }
        } else if is_digit(c) {
            match find_byte(s, pos + 1, CH_COLON) {
                None => Err(DecodeError::Eof),
                Some(j) => match spec_parse_usize(s.subrange(pos, j)) {
                    None => Err(DecodeError::NotNumber),
                    Some(n) => if j + 1 + n <= s.len() {
                        Ok((Lexeme::Bytes(s.subrange(j + 1, j + 1 + n)), j + 1 + n))
                    } else {
                        Err(DecodeError::Eof)
                    },
                },
            }
        } else if c == CH_L {
            Ok((Lexeme::ListStart, pos + 1))
        } else if c == CH_D {
            Ok((Lexeme::DictStart, pos + 1))
        } else if c == CH_E {
            Ok((Lexeme::End, pos + 1))
        } else {
            Err(DecodeError::InvalidToken)
        }
    }
}

/// Reads one value at `pos`, giving it and the position after it.
pub open spec fn parse_value(s: Seq<u8>, pos: int) -> Result<(Value, int), DecodeError>
    decreases s.len() - pos, 0int,
{
    match next_lexeme(s, pos) {
        Err(e) => Err(e),
        Ok((lx, p1)) => if !(pos < p1 <= s.len()) {
            Err(DecodeError::Eof)
        } else {
            match lx {
                Lexeme::Int(i) => Ok((Value::Int(i), p1)),
                Lexeme::Bytes(b) => Ok((Value::Bytes(b), p1)),
                Lexeme::ListStart => parse_list(s, p1, Seq::empty()),
                Lexeme::DictStart => parse_dict(s, p1, Seq::empty()),
                Lexeme::End => Err(DecodeError::Eof),
            }
        },
    }
}

/// Reads the rest of a list at `pos`, after the items `acc`.
pub open spec fn parse_list(s: Seq<u8>, pos: int, acc: Seq<Value>) -> Result<
    (Value, int),
    DecodeError,
>
    decreases s.len() - pos, 1int,
{
    match next_lexeme(s, pos) {
        Err(e) => Err(e),
        Ok((Lexeme::End, p1)) => Ok((Value::List(acc), p1)),
        Ok(_) => match parse_value(s, pos) {
            Err(e) => Err(e),
            Ok((v, p2)) => if pos < p2 <= s.len() {
                parse_list(s, p2, acc.push(v))
            } else {
                Err(DecodeError::Eof)
            },
        },
    }
}

/// Reads the rest of a dictionary at `pos`, after the entries `acc`.
pub open spec fn parse_dict(s: Seq<u8>, pos: int, acc: Seq<(Seq<u8>, Value)>) -> Result<
    (Value, int),
    DecodeError,
>
    decreases s.len() - pos, 1int,
{
    match next_lexeme(s, pos) {
        Err(e) => Err(e),
        Ok((Lexeme::End, p1)) => Ok((Value::Dict(acc), p1)),
        Ok((Lexeme::Bytes(k), p1)) => if !(pos < p1 <= s.len()) {
            Err(DecodeError::Eof)
        } else {
            match parse_value(s, p1) {
                Err(e) => Err(e),
                Ok((v, p2)) => if p1 < p2 <= s.len() {
                    parse_dict(s, p2, acc.push((k, v)))
                } else {
                    Err(DecodeError::Eof)
                },
            }
        },
        Ok(_) => Err(DecodeError::KeyNotBytes),
    }
}

/// What decoding a whole input gives: the value at its start (bytes after
/// that value are not read).
pub open spec fn decode_spec(s: Seq<u8>) -> Result<Value, DecodeError> {
    match parse_value(s, 0) {
        Ok((v, _)) => Ok(v),
        Err(e) => Err(e),
    }
}

} // verus!

verus! {

proof fn lemma_find_byte_bounds(s: Seq<u8>, from: int, b: u8)
    ensures
        find_byte(s, from, b) matches Some(j) ==> from <= j < s.len() && s[j] == b,
    decreases s.len() - from,
{
    if 0 <= from < s.len() && s[from] != b {
        lemma_find_byte_bounds(s, from + 1, b);
    }
}

/// A lexeme read always moves forward, and stays within the input.
pub proof fn lemma_next_lexeme_bounds(s: Seq<u8>, pos: int)
    ensures
        next_lexeme(s, pos) matches Ok((_, p)) ==> 0 <= pos < p <= s.len(),
{
    lemma_find_byte_bounds(s, pos + 1, CH_E);
    lemma_find_byte_bounds(s, pos + 1, CH_COLON);
}

} // verus!
