//! Reading typed fields out of bencode values: text, bounded integers.

use vstd::prelude::*;
use vstd::utf8::{decode_utf8, valid_utf8};
use super::token::{Token, Value};
use crate::text::utf8_string;

verus! {

/// The text of a bencode byte string that is valid UTF-8.
pub open spec fn text_of(v: Value) -> Option<Seq<char>> {
    match v {
        Value::Bytes(b) => if valid_utf8(b) {
            Some(decode_utf8(b))
        } else {
            None
        },
        _ => None,
    }
}

/// A bencode integer that fits in `u64`.
pub open spec fn u64_of(v: Value) -> Option<u64> {
    match v {
        Value::Int(i) => if 0 <= i <= u64::MAX {
            Some(i as u64)
        } else {
            None
        },
        _ => None,
    }
}

/// A bencode integer that fits in `u16`.
pub open spec fn u16_of(v: Value) -> Option<u16> {
    match v {
        Value::Int(i) => if 0 <= i <= u16::MAX {
            Some(i as u16)
        } else {
            None
        },
        _ => None,
    }
}

/// The text of an optional string.
pub open spec fn opt_text(s: Option<String>) -> Option<Seq<char>> {
    match s {
        Some(t) => Some(t@),
        None => None,
    }
}

/// The text of a byte string token that is valid UTF-8.
pub(crate) fn token_text(t: &Token) -> (r: Option<String>)
    ensures
        opt_text(r) == text_of(t@),
{
    match t {
        Token::ByteString(b) => {
            let v = vstd::slice::slice_to_vec(b.as_slice());
            utf8_string(v)
        },
        _ => None,
    }
}

/// A token that is an integer fitting in `u64`.
pub(crate) fn token_u64(t: &Token) -> (r: Option<u64>)
    ensures
        r == u64_of(t@),
        r matches Some(n) ==> n <= i64::MAX,
{
    match t {
        Token::Integer(i) => if *i >= 0 {
            Some(*i as u64)
        } else {
            None
        },
        _ => None,
    }
}

/// A token that is an integer fitting in `u16`.
pub(crate) fn token_u16(t: &Token) -> (r: Option<u16>)
    ensures
        r == u16_of(t@),
{
    match t {
        Token::Integer(i) => if *i >= 0 && *i <= 0xffff {
            Some(*i as u16)
        } else {
            None
        },
        _ => None,
    }
}

/// Whether bytes are valid UTF-8.
pub(crate) fn is_utf8(b: &[u8]) -> (r: bool)
    ensures
        r == valid_utf8(b@),
{
    utf8_string(vstd::slice::slice_to_vec(b)).is_some()
}

/// A text field: `None` where it was given before or is no UTF-8 text.
pub open spec fn set_text(old: Option<Seq<char>>, v: Value) -> Option<Option<Seq<char>>> {
    if old is Some {
        None
    } else {
        match text_of(v) {
            Some(t) => Some(Some(t)),
            None => None,
        }
    }
}

/// A number field: `None` where it was given before or is no `u64`.
pub open spec fn set_u64(old: Option<u64>, v: Value) -> Option<Option<u64>> {
    if old is Some {
        None
    } else {
        match u64_of(v) {
            Some(t) => Some(Some(t)),
            None => None,
        }
    }
}

/// Reads a text field that must not have been given before.
pub(crate) fn set_text_field(field: &mut Option<String>, v: &Token) -> (ok: bool)
    ensures
        match set_text(opt_text(*old(field)), v@) {
            Some(x) => ok && opt_text(*final(field)) == x,
            None => !ok,
        },
{
    if field.is_some() {
        return false;
    }
    match token_text(v) {
        Some(s) => {
            *field = Some(s);
            true
        },
        None => false,
    }
}

/// Reads a number field that must not have been given before.
pub(crate) fn set_u64_field(field: &mut Option<u64>, v: &Token) -> (ok: bool)
    ensures
        match set_u64(*old(field), v@) {
            Some(x) => ok && *final(field) == x,
            None => !ok,
        },
        (*old(field) matches Some(n) ==> n <= i64::MAX) ==> (*final(field) matches Some(n) ==> n <= i64::MAX),
{
    if field.is_some() {
        return false;
    }
    match token_u64(v) {
        Some(n) => {
            *field = Some(n);
            true
        },
        None => false,
    }
}

} // verus!
