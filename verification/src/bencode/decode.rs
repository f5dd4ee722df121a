//! Decoding bencode bytes into tokens.

use vstd::prelude::*;
use vstd::string::StringSliceAdditionalSpecFns;
use super::error::{error_is, Error};
use super::grammar::{
    decode_spec, find_byte, lemma_next_lexeme_bounds, next_lexeme, parse_dict, parse_list, parse_value, DecodeError, Lexeme,
};
use super::number::{parse_i64, parse_usize};
use super::token::{entries_view, token_view, tokens_view, Token, Value};

verus! {

/// What one read of the decoder gives.
#[derive(PartialEq, Eq, Debug)]
pub enum DecodedType {
    Integer(i64),
    ByteString(Vec<u8>),
    List,
    Dictionary,
    EOF,
}

impl DecodedType {
    /// The lexeme that this read stands for.
    pub open spec fn lexeme(&self) -> Lexeme {
        match self {
            DecodedType::Integer(i) => Lexeme::Int(*i as int),
            DecodedType::ByteString(b) => Lexeme::Bytes(b@),
            DecodedType::List => Lexeme::ListStart,
            DecodedType::Dictionary => Lexeme::DictStart,
            DecodedType::EOF => Lexeme::End,
        }
    }
}

/// Whether the result of reading a lexeme is what the grammar gives.
pub open spec fn lexeme_result(
    r: Result<(DecodedType, usize), Error>,
    g: Result<(Lexeme, int), DecodeError>,
) -> bool {
    match g {
        Ok((lx, p)) => r matches Ok((t, q)) && t.lexeme() == lx && q == p,
        Err(d) => r matches Err(e) && error_is(e, d),
    }
}

/// Whether the result of reading a value is what the grammar gives.
pub open spec fn value_result(
    r: Result<(Token, usize), Error>,
    g: Result<(Value, int), DecodeError>,
) -> bool {
    match g {
        Ok((v, p)) => r matches Ok((t, q)) && t@ == v && q == p,
        Err(d) => r matches Err(e) && error_is(e, d),
    }
}

fn find_byte_exec(s: &[u8], from: usize, b: u8) -> (r: Option<usize>)
    ensures
        r matches Some(j) ==> find_byte(s@, from as int, b) == Some(j as int) && from <= j
            < s.len(),
        r is None ==> find_byte(s@, from as int, b) is None,
{
    let mut i = from;
    while i < s.len()
        invariant
            from <= i,
            find_byte(s@, from as int, b) == find_byte(s@, i as int, b),
        decreases s.len() - i,
    {
        if s[i] == b {
            return Some(i);
        }
        i = i + 1;
    }
    None
}

/// Reads one lexeme of `s` at `pos`.
fn read_lexeme(s: &[u8], pos: usize) -> (r: Result<(DecodedType, usize), Error>)
    ensures
        lexeme_result(r, next_lexeme(s@, pos as int)),
        r matches Ok((_, q)) ==> pos < q <= s.len(),
{
    proof {
        lemma_next_lexeme_bounds(s@, pos as int);
    }
    if pos >= s.len() {
        return Err(Error::EOF);
    }
    let c = s[pos];
    if c == 105u8 {
        match find_byte_exec(s, pos + 1, 101u8) {
            None => Err(Error::EOF),
            Some(j) => match parse_i64(&s[pos + 1..j]) {
                None => Err(Error::Custom("cannot parse integer".to_string())),
                Some(v) => Ok((DecodedType::Integer(v), j + 1)),
            },
        }
    } else if 48u8 <= c && c <= 57u8 {
        match find_byte_exec(s, pos + 1, 58u8) {
            None => Err(Error::EOF),
            Some(j) => match parse_usize(&s[pos..j]) {
                None => Err(Error::Custom("cannot parse length".to_string())),
                Some(n) => {
                    if n <= s.len() - (j + 1) {
                        let bytes = vstd::slice::slice_to_vec(&s[j + 1..j + 1 + n]);
                        Ok((DecodedType::ByteString(bytes), j + 1 + n))
                    } else {
                        Err(Error::EOF)
                    }
                },
            },
        }
    } else if c == 108u8 {
        Ok((DecodedType::List, pos + 1))
    } else if c == 100u8 {
        Ok((DecodedType::Dictionary, pos + 1))
    } else if c == 101u8 {
        Ok((DecodedType::EOF, pos + 1))
    } else {
        Err(
            Error::InvalidToken {
                expected: "a valid token type".to_string(),
                found: "an unknown byte".to_string(),
            },
        )
    }
}

/// Decodes the value of `s` at `pos`.
fn decode_value(s: &[u8], pos: usize) -> (r: Result<(Token, usize), Error>)
    requires
        pos <= s.len(),
    ensures
        value_result(r, parse_value(s@, pos as int)),
        r matches Ok((_, q)) ==> pos < q <= s.len(),
    decreases s.len() - pos, 0int,
{
    match read_lexeme(s, pos) {
        Err(e) => Err(e),
        Ok((lx, p1)) => {
            if !(pos < p1 && p1 <= s.len()) {
                return Err(Error::EOF);
            }
            match lx {
                DecodedType::Integer(i) => Ok((Token::Integer(i), p1)),
                DecodedType::ByteString(b) => Ok((Token::ByteString(b), p1)),
                DecodedType::List => decode_list(s, p1),
                DecodedType::Dictionary => decode_dict(s, p1),
                DecodedType::EOF => Err(Error::EOF),
            }
        },
    }
}

/// Decodes the items of a list that starts before `pos`.
fn decode_list(s: &[u8], pos: usize) -> (r: Result<(Token, usize), Error>)
    requires
        pos <= s.len(),
    ensures
        value_result(r, parse_list(s@, pos as int, Seq::empty())),
        r matches Ok((_, q)) ==> pos < q <= s.len(),
    decreases s.len() - pos, 1int,
{
    let mut items: Vec<Token> = Vec::new();
    let mut cur = pos;
    loop
        invariant
            pos <= cur <= s.len(),
            parse_list(s@, pos as int, Seq::empty()) == parse_list(
                s@,
                cur as int,
                tokens_view(items@),
            ),
        decreases s.len() - cur,
    {
        match read_lexeme(s, cur) {
            Err(e) => {
                return Err(e);
            },
            Ok((DecodedType::EOF, p1)) => {
                return Ok((Token::List(items), p1));
            },
            Ok(_) => {},
        }
        match decode_value(s, cur) {
            Err(e) => {
                return Err(e);
            },
            Ok((t, p2)) => {
                if !(cur < p2 && p2 <= s.len()) {
                    return Err(Error::EOF);
                }
                let ghost old_items = items@;
                items.push(t);
                proof {
                    assert(items@.drop_last() =~= old_items);
                }
                cur = p2;
            },
        }
    }
}

/// Decodes the entries of a dictionary that starts before `pos`.
fn decode_dict(s: &[u8], pos: usize) -> (r: Result<(Token, usize), Error>)
    requires
        pos <= s.len(),
    ensures
        value_result(r, parse_dict(s@, pos as int, Seq::empty())),
        r matches Ok((_, q)) ==> pos < q <= s.len(),
    decreases s.len() - pos, 1int,
{
    let mut entries: Vec<(Vec<u8>, Token)> = Vec::new();
    let mut cur = pos;
    loop
        invariant
            pos <= cur <= s.len(),
            parse_dict(s@, pos as int, Seq::empty()) == parse_dict(
                s@,
                cur as int,
                entries_view(entries@),
            ),
        decreases s.len() - cur,
    {
        let (key, p1) = match read_lexeme(s, cur) {
            Err(e) => {
                return Err(e);
            },
            Ok((DecodedType::EOF, p1)) => {
                return Ok((Token::Dictionary(entries), p1));
            },
            Ok((DecodedType::ByteString(k), p1)) => (k, p1),
            Ok(_) => {
                return Err(Error::InvalidType("dictionary key is not a byte string".to_string()));
            },
        };
        if !(cur < p1 && p1 <= s.len()) {
            return Err(Error::EOF);
        }
        match decode_value(s, p1) {
            Err(e) => {
                return Err(e);
            },
            Ok((t, p2)) => {
                if !(p1 < p2 && p2 <= s.len()) {
                    return Err(Error::EOF);
                }
                let ghost old_entries = entries@;
                entries.push((key, t));
                proof {
                    assert(entries@.drop_last() =~= old_entries);
                }
                cur = p2;
            },
        }
    }
}

/// Decodes the bencode value at the start of `b`; bytes after it are not read.
pub fn decode_bytes(b: &[u8]) -> (r: Result<Token, Error>)
    ensures
        match decode_spec(b@) {
            Ok(v) => r matches Ok(t) && t@ == v,
            Err(d) => r matches Err(e) && error_is(e, d),
        },
{
    match decode_value(b, 0) {
        Ok((t, _)) => Ok(t),
        Err(e) => Err(e),
    }
}

/// Decodes the bencode value at the start of the bytes of `s`.
pub fn decode_str(s: &str) -> (r: Result<Token, Error>)
    ensures
        match decode_spec(s.spec_bytes()) {
            Ok(v) => r matches Ok(t) && t@ == v,
            Err(d) => r matches Err(e) && error_is(e, d),
        },
{
    decode_bytes(s.as_bytes())
}

} // verus!

verus! {

/// Reads bencode lexemes and values from a byte slice.
pub struct Decoder<'a> {
    scanner: &'a [u8],
    pos: usize,
    next_token: Option<DecodedType>,
    next_token_pos: usize,
}

impl<'a> Decoder<'a> {
    /// The bytes being read.
    pub closed spec fn input(&self) -> Seq<u8> {
        self.scanner@
    }

    /// Where the next read starts.
    pub closed spec fn position(&self) -> int {
        if self.next_token is Some {
            self.next_token_pos as int
        } else {
            self.pos as int
        }
    }

    /// The decoder's invariant: its position lies within its input, and a
    /// lexeme put back is the one that its position starts.
    pub closed spec fn inv(&self) -> bool {
        &&& self.pos <= self.scanner@.len()
        &&& self.next_token_pos <= self.scanner@.len()
        &&& match self.next_token {
            Some(t) => next_lexeme(self.scanner@, self.next_token_pos as int) == Ok::<
                (Lexeme, int),
                DecodeError,
            >((t.lexeme(), self.pos as int)),
            None => true,
        }
    }

    /// A decoder at the start of `scanner`.
    pub fn new(scanner: &'a [u8]) -> (d: Self)
        ensures
            d.inv(),
            d.input() == scanner@,
            d.position() == 0,
    {
        Decoder { scanner, pos: 0, next_token: None, next_token_pos: 0 }
    }

    /// Reads the next lexeme.
    pub fn read_next(&mut self) -> (r: Result<DecodedType, Error>)
        requires
            old(self).inv(),
        ensures
            final(self).inv(),
            final(self).input() == old(self).input(),
            match next_lexeme(old(self).input(), old(self).position()) {
                Ok((lx, p)) => r matches Ok(t) && t.lexeme() == lx && final(self).position() == p,
                Err(d) => r matches Err(e) && error_is(e, d),
            },
    {
        if let Some(next) = self.next_token.take() {
            return Ok(next);
        }
        match read_lexeme(self.scanner, self.pos) {
            Ok((t, p)) => {
                self.pos = p;
                Ok(t)
            },
            Err(e) => Err(e),
        }
    }

    /// Reads the whole value that starts with `first`, the lexeme just read.
    fn decode_after(&mut self, first: DecodedType) -> (r: Result<Token, Error>)
        requires
            old(self).inv(),
            exists|p: int|
                0 <= p <= old(self).input().len() && next_lexeme(old(self).input(), p) == Ok::<
                    (Lexeme, int),
                    DecodeError,
                >((first.lexeme(), old(self).position())),
        ensures
            final(self).inv(),
            final(self).input() == old(self).input(),
            forall|p: int|
                0 <= p <= old(self).input().len() && next_lexeme(old(self).input(), p) == Ok::<
                    (Lexeme, int),
                    DecodeError,
                >((first.lexeme(), old(self).position())) ==> match parse_value(
                    old(self).input(),
                    p,
                ) {
                    Ok((v, q)) => r matches Ok(t) && t@ == v && final(self).position() == q,
                    Err(d) => r matches Err(e) && error_is(e, d),
                },
    {
        let ghost s = self.scanner@;
        proof {
            assert forall|p: int|
                0 <= p <= s.len() && next_lexeme(s, p) == Ok::<(Lexeme, int), DecodeError>(
                    (first.lexeme(), old(self).position()),
                ) implies p < old(self).position() <= s.len() by {
                lemma_next_lexeme_bounds(s, p);
            }
        }
        let start = if self.next_token.is_some() {
            self.next_token_pos
        } else {
            self.pos
        };
        self.next_token = None;
        let r = match first {
            DecodedType::Integer(i) => Ok((Token::Integer(i), start)),
            DecodedType::ByteString(b) => Ok((Token::ByteString(b), start)),
            DecodedType::List => decode_list(self.scanner, start),
            DecodedType::Dictionary => decode_dict(self.scanner, start),
            DecodedType::EOF => Err(Error::EOF),
        };
        match r {
            Ok((t, q)) => {
                self.pos = q;
                Ok(t)
            },
            Err(e) => {
                self.pos = start;
                Err(e)
            },
        }
    }

    /// Reads the next whole value.
    pub fn decode_token(&mut self) -> (r: Result<Token, Error>)
        requires
            old(self).inv(),
        ensures
            final(self).inv(),
            final(self).input() == old(self).input(),
            match parse_value(old(self).input(), old(self).position()) {
                Ok((v, p)) => r matches Ok(t) && t@ == v && final(self).position() == p,
                Err(d) => r matches Err(e) && error_is(e, d),
            },
    {
        let start = if self.next_token.is_some() {
            self.next_token_pos
        } else {
            self.pos
        };
        self.next_token = None;
        match decode_value(self.scanner, start) {
            Ok((t, p)) => {
                self.pos = p;
                Ok(t)
            },
            Err(e) => {
                self.pos = start;
                Err(e)
            },
        }
    }
}

/// Walks the items of a list or the entries of a dictionary for a decoder,
/// optionally checking that a list holds a given number of items.
pub struct Access<'d, 'a> {
    d: &'d mut Decoder<'a>,
    length: Option<usize>,
}

impl<'d, 'a> Access<'d, 'a> {
    /// The number of list items still expected, if a number is checked.
    pub closed spec fn remaining(&self) -> Option<usize> {
        self.length
    }

    /// The decoder being walked.
    pub closed spec fn decoder(&self) -> Decoder<'a> {
        *self.d
    }

    /// Starts walking from the decoder's position.
    pub fn new(deserializer: &'d mut Decoder<'a>, length: Option<usize>) -> (a: Self)
        ensures
            a.remaining() == length,
            a.decoder() == *old(deserializer),
    {
        Access { d: deserializer, length }
    }

    /// Reads the next list item, or `None` at the list's end. When a number
    /// of items is checked, it is counted down, and when it reaches zero the
    /// list must end there.
    pub fn next_element(&mut self) -> (r: Result<Option<Token>, Error>)
        requires
            old(self).decoder().inv(),
            old(self).remaining() matches Some(l) ==> l >= 1,
        ensures
            final(self).decoder().inv(),
            final(self).decoder().input() == old(self).decoder().input(),
            final(self).remaining() == (match old(self).remaining() {
                Some(l) => Some((l - 1) as usize),
                None => None,
            }) || r is Err,
            ({
                let s = old(self).decoder().input();
                let p = old(self).decoder().position();
                let first: Result<(Option<Value>, int), DecodeError> = match next_lexeme(s, p) {
                    Err(d) => Err(d),
                    Ok((Lexeme::End, p1)) => Ok((None, p1)),
                    Ok(_) => match parse_value(s, p) {
                        Err(d) => Err(d),
                        Ok((v, p2)) => Ok((Some(v), p2)),
                    },
                };
                match first {
                    Err(d) => r matches Err(e) && error_is(e, d),
                    Ok((item, q)) => if old(self).remaining() == Some(1usize) {
                        match next_lexeme(s, q) {
                            Err(d) => r matches Err(e) && error_is(e, d),
                            Ok((Lexeme::End, q2)) => (r matches Ok(x) && (x matches Some(t)
                                ==> item == Some(t@)) && (x is None ==> item is None))
                                && final(self).decoder().position() == q2,
                            Ok(_) => r matches Err(e) && e is InvalidType,
                        }
                    } else {
                        (r matches Ok(x) && (x matches Some(t) ==> item == Some(t@)) && (x is None
                            ==> item is None)) && final(self).decoder().position() == q
                    },
                }
            }),
    {
        let out = match self.d.read_next() {
            Err(e) => {
                return Err(e);
            },
            Ok(DecodedType::EOF) => None,
            Ok(x) => {
                let t = self.d.decode_after(x);
                match t {
                    Err(e) => {
                        return Err(e);
                    },
                    Ok(t) => Some(t),
                }
            },
        };
        if let Some(l) = self.length {
            let l = l - 1;
            self.length = Some(l);
            if l == 0 {
                match self.d.read_next() {
                    Err(e) => {
                        return Err(e);
                    },
                    Ok(DecodedType::EOF) => {},
                    Ok(_) => {
                        return Err(Error::InvalidType("expected e".to_string()));
                    },
                }
            }
        }
        Ok(out)
    }

    /// Reads the next dictionary key, or `None` at the dictionary's end; a
    /// key must be a byte string.
    pub fn next_key(&mut self) -> (r: Result<Option<Vec<u8>>, Error>)
        requires
            old(self).decoder().inv(),
        ensures
            final(self).decoder().inv(),
            final(self).decoder().input() == old(self).decoder().input(),
            final(self).remaining() == old(self).remaining(),
            match next_lexeme(old(self).decoder().input(), old(self).decoder().position()) {
                Err(d) => r matches Err(e) && error_is(e, d),
                Ok((Lexeme::End, p1)) => r matches Ok(None) && final(self).decoder().position()
                    == p1,
                Ok((Lexeme::Bytes(k), p1)) => r matches Ok(Some(kb)) && kb@ == k
                    && final(self).decoder().position() == p1,
                Ok(_) => r matches Err(e) && e is InvalidType,
            },
    {
        match self.d.read_next() {
            Err(e) => Err(e),
            Ok(DecodedType::EOF) => Ok(None),
            Ok(DecodedType::ByteString(k)) => Ok(Some(k)),
            Ok(_) => Err(Error::InvalidType("dictionary key is not a byte string".to_string())),
        }
    }

    /// Reads the value of the key just read.
    pub fn next_value(&mut self) -> (r: Result<Token, Error>)
        requires
            old(self).decoder().inv(),
        ensures
            final(self).decoder().inv(),
            final(self).decoder().input() == old(self).decoder().input(),
            final(self).remaining() == old(self).remaining(),
            match parse_value(old(self).decoder().input(), old(self).decoder().position()) {
                Ok((v, p)) => r matches Ok(t) && t@ == v && final(self).decoder().position() == p,
                Err(d) => r matches Err(e) && error_is(e, d),
            },
    {
        self.d.decode_token()
    }
}

} // verus!
