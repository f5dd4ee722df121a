//! Encoding tokens into bencode bytes.

use vstd::prelude::*;
use vstd::string::StringSliceAdditionalSpecFns;
use super::error::Error;
use super::grammar::{
    dict_order, dict_order_upto, encode_bytes, encode_entries, encode_list, encode_value,
    order_insert,
};
use super::number::{digits_of, int_text, push_digits, push_int};
use super::token::{
    bytes_lt, entries_view, lemma_entries_view_index, lemma_tokens_view_index, token_view,
    tokens_view, Token, Value,
};

verus! {

/// Whether `a` comes before `b` in lexicographic order.
pub fn bytes_less(a: &[u8], b: &[u8]) -> (r: bool)
    ensures
        r == bytes_lt(a@, b@),
{
    let mut i: usize = 0;
    proof {
        assert(a@.skip(0) =~= a@);
        assert(b@.skip(0) =~= b@);
        assert(a@.take(0) =~= b@.take(0));
    }
    while i < a.len() && i < b.len()
        invariant
            0 <= i <= a.len(),
            i <= b.len(),
            a@.take(i as int) == b@.take(i as int),
            bytes_lt(a@, b@) == bytes_lt(a@.skip(i as int), b@.skip(i as int)),
        decreases a.len() - i,
    {
        if a[i] != b[i] {
            return a[i] < b[i];
        }
        proof {
            assert(a@.skip(i as int).drop_first() =~= a@.skip(i + 1));
            assert(b@.skip(i as int).drop_first() =~= b@.skip(i + 1));
            assert(a@.take(i + 1) =~= a@.take(i as int).push(a@[i as int]));
            assert(b@.take(i + 1) =~= b@.take(i as int).push(b@[i as int]));
        }
        i = i + 1;
    }
    i < b.len()
}

/// Whether `a` and `b` hold the same bytes.
pub fn bytes_equal(a: &[u8], b: &[u8]) -> (r: bool)
    ensures
        r == (a@ == b@),
{
    if a.len() != b.len() {
        return false;
    }
    let mut i: usize = 0;
    while i < a.len()
        invariant
            0 <= i <= a.len(),
            a.len() == b.len(),
            forall|k: int| 0 <= k < i ==> a@[k] == b@[k],
        decreases a.len() - i,
    {
        if a[i] != b[i] {
            return false;
        }
        i = i + 1;
    }
    proof {
        assert(a@ =~= b@);
    }
    true
}

/// Indices as integers.
pub open spec fn as_ints(v: Seq<usize>) -> Seq<int> {
    v.map_values(|x: usize| x as int)
}

fn order_insert_exec(entries: &Vec<(Vec<u8>, Token)>, ord: &mut Vec<usize>, i: usize)
    requires
        i < entries.len(),
        forall|k: int| 0 <= k < old(ord).len() ==> #[trigger] old(ord)@[k] < entries.len(),
    ensures
        as_ints(final(ord)@) == order_insert(entries_view(entries@), as_ints(old(ord)@), i as int),
        forall|k: int| 0 <= k < final(ord).len() ==> #[trigger] final(ord)@[k] < entries.len(),
{
    let ghost ev = entries_view(entries@);
    let ghost o = as_ints(ord@);
    proof {
        lemma_entries_view_index(entries@);
    }
    let mut p: usize = 0;
    proof {
        assert(o.skip(0) =~= o);
        assert(o.take(0) + order_insert(ev, o, i as int) =~= order_insert(ev, o, i as int));
    }
    while p < ord.len()
        invariant
            0 <= p <= ord.len(),
            ord@ == old(ord)@,
            i < entries.len(),
            ev == entries_view(entries@),
            ev.len() == entries.len(),
            forall|k: int| 0 <= k < entries.len() ==> #[trigger] ev[k] == (
                entries@[k].0@,
                token_view(entries@[k].1),
            ),
            o == as_ints(ord@),
            forall|k: int| 0 <= k < ord.len() ==> #[trigger] ord@[k] < entries.len(),
            order_insert(ev, o, i as int) == o.take(p as int) + order_insert(
                ev,
                o.skip(p as int),
                i as int,
            ),
        decreases ord.len() - p,
    {
        let j = ord[p];
        let ghost rest = o.skip(p as int);
        proof {
            assert(rest[0] == j as int);
            assert(rest.drop_first() =~= o.skip(p + 1));
        }
        if bytes_less(entries[i].0.as_slice(), entries[j].0.as_slice()) {
            ord.insert(p, i);
            proof {
                assert(as_ints(ord@) =~= o.take(p as int) + (seq![i as int] + rest));
            }
            return;
        }
        if bytes_equal(entries[i].0.as_slice(), entries[j].0.as_slice()) {
            ord.set(p, i);
            proof {
                assert(as_ints(ord@) =~= o.take(p as int) + (seq![i as int] + rest.drop_first()));
            }
            return;
        }
        proof {
            assert(o.take(p as int) + (seq![j as int] + o.skip(p + 1)) =~= o.take(p + 1) + o.skip(
                p + 1,
            ));
            assert(o.take(p as int) + (seq![j as int] + order_insert(ev, o.skip(p + 1), i as int))
                =~= o.take(p + 1) + order_insert(ev, o.skip(p + 1), i as int));
        }
        p = p + 1;
    }
    ord.push(i);
    proof {
        assert(o.skip(p as int) =~= Seq::<int>::empty());
        assert(o.take(p as int) =~= o);
        assert(as_ints(ord@) =~= o + seq![i as int]);
    }
}

/// The order in which the entries of a dictionary are written.
fn dict_order_exec(entries: &Vec<(Vec<u8>, Token)>) -> (r: Vec<usize>)
    ensures
        as_ints(r@) == dict_order(entries_view(entries@)),
        forall|k: int| 0 <= k < r.len() ==> #[trigger] r@[k] < entries.len(),
{
    let mut ord: Vec<usize> = Vec::new();
    let mut i: usize = 0;
    proof {
        lemma_entries_view_index(entries@);
        assert(as_ints(ord@) =~= Seq::<int>::empty());
    }
    while i < entries.len()
        invariant
            0 <= i <= entries.len(),
            entries_view(entries@).len() == entries.len(),
            as_ints(ord@) == dict_order_upto(entries_view(entries@), i as int),
            forall|k: int| 0 <= k < ord.len() ==> #[trigger] ord@[k] < entries.len(),
        decreases entries.len() - i,
    {
        order_insert_exec(entries, &mut ord, i);
        i = i + 1;
    }
    ord
}

/// Appends a byte string: its length, a colon, then its bytes.
pub fn push_bytes(b: &[u8], out: &mut Vec<u8>)
    ensures
        final(out)@ == old(out)@ + encode_bytes(b@),
{
    push_digits(b.len() as u64, out);
    out.push(58u8);
    let mut i: usize = 0;
    let ghost start = out@;
    while i < b.len()
        invariant
            0 <= i <= b.len(),
            out@ == start + b@.take(i as int),
        decreases b.len() - i,
    {
        out.push(b[i]);
        proof {
            assert(b@.take(i + 1) =~= b@.take(i as int).push(b@[i as int]));
        }
        i = i + 1;
    }
    proof {
        assert(b@.take(i as int) =~= b@);
        assert(old(out)@ + encode_bytes(b@) =~= old(out)@ + digits_of(b@.len()) + seq![58u8]
            + b@);
    }
}

/// Appends the bencode of a token.
pub fn encode_token(t: &Token, out: &mut Vec<u8>)
    ensures
        final(out)@ == old(out)@ + encode_value(t@),
    decreases t,
{
    match t {
        Token::Integer(i) => {
            out.push(105u8);
            push_int(*i, out);
            out.push(101u8);
            proof {
                assert(old(out)@ + encode_value(t@) =~= old(out)@ + seq![105u8] + int_text(
                    *i as int,
                ) + seq![101u8]);
            }
        },
        Token::ByteString(b) => {
            push_bytes(b.as_slice(), out);
        },
        Token::List(items) => {
            let ghost tv = tokens_view(items@);
            proof {
                lemma_tokens_view_index(items@);
            }
            out.push(108u8);
            let ghost start = out@;
            let mut k: usize = 0;
            while k < items.len()
                invariant
                    0 <= k <= items.len(),
                    *t == Token::List(*items),
                    tv == tokens_view(items@),
                    tv.len() == items.len(),
                    forall|m: int| 0 <= m < items.len() ==> #[trigger] tv[m] == token_view(
                        items@[m],
                    ),
                    out@ == start + encode_list(tv.take(k as int)),
                decreases items.len() - k,
            {
                proof {
                    assert(decreases_to!(*t => t->List_0));
                    assert(decreases_to!(items => items@));
                    assert(decreases_to!(items@ => items@[k as int]));
                    assert(decreases_to!(t => items@[k as int]));
                }
                encode_token(&items[k], out);
                proof {
                    assert(tv.take(k + 1).drop_last() =~= tv.take(k as int));
                    assert(tv.take(k + 1).last() == tv[k as int]);
                }
                k = k + 1;
            }
            out.push(101u8);
            proof {
                assert(tv.take(k as int) =~= tv);
                assert(old(out)@ + encode_value(t@) =~= old(out)@ + seq![108u8] + encode_list(tv)
                    + seq![101u8]);
            }
        },
        Token::Dictionary(entries) => {
            let ghost ev = entries_view(entries@);
            proof {
                lemma_entries_view_index(entries@);
            }
            let ord = dict_order_exec(entries);
            let ghost idxs = as_ints(ord@);
            out.push(100u8);
            let ghost start = out@;
            let mut k: usize = 0;
            while k < ord.len()
                invariant
                    0 <= k <= ord.len(),
                    *t == Token::Dictionary(*entries),
                    ev == entries_view(entries@),
                    ev.len() == entries.len(),
                    forall|m: int| 0 <= m < entries.len() ==> #[trigger] ev[m] == (
                        entries@[m].0@,
                        token_view(entries@[m].1),
                    ),
                    idxs == as_ints(ord@),
                    forall|m: int| 0 <= m < ord.len() ==> #[trigger] ord@[m] < entries.len(),
                    out@ == start + encode_entries(ev, idxs.take(k as int)),
                decreases ord.len() - k,
            {
                let j = ord[k];
                push_bytes(entries[j].0.as_slice(), out);
                proof {
                    assert(decreases_to!(*t => t->Dictionary_0));
                    assert(decreases_to!(entries => entries@));
                    assert(decreases_to!(entries@ => entries@[j as int]));
                    assert(decreases_to!(entries@[j as int] => entries@[j as int].1));
                    assert(decreases_to!(t => entries@[j as int].1));
                }
                encode_token(&entries[j].1, out);
                proof {
                    assert(idxs.take(k + 1).drop_last() =~= idxs.take(k as int));
                    assert(idxs.take(k + 1).last() == j as int);
                }
                k = k + 1;
            }
            out.push(101u8);
            proof {
                assert(idxs.take(k as int) =~= idxs);
                assert(old(out)@ + encode_value(t@) =~= old(out)@ + seq![100u8] + encode_entries(
                    ev,
                    idxs,
                ) + seq![101u8]);
            }
        },
    }
}

/// Collects bencode output.
pub struct Encoder(Vec<u8>);

impl View for Encoder {
    type V = Seq<u8>;

    closed spec fn view(&self) -> Seq<u8> {
        self.0@
    }
}

impl Encoder {
    /// A new encoder with nothing written.
    pub fn new() -> (e: Self)
        ensures
            e@ == Seq::<u8>::empty(),
    {
        Encoder(Vec::new())
    }

    /// Appends raw bytes to the output.
    pub fn push(&mut self, tokens: &[u8])
        ensures
            final(self)@ == old(self)@ + tokens@,
    {
        let mut i: usize = 0;
        while i < tokens.len()
            invariant
                0 <= i <= tokens.len(),
                self@ == old(self)@ + tokens@.take(i as int),
            decreases tokens.len() - i,
        {
            self.0.push(tokens[i]);
            proof {
                assert(tokens@.take(i + 1) =~= tokens@.take(i as int).push(tokens@[i as int]));
            }
            i = i + 1;
        }
        proof {
            assert(tokens@.take(i as int) =~= tokens@);
        }
    }

    /// Gives back the bytes written, consuming the encoder.
    pub fn into_buf(self) -> (v: Vec<u8>)
        ensures
            v@ == self@,
    {
        self.0
    }

    /// Writes an integer: `i`, its decimal text, `e`.
    pub fn serialize_i64(&mut self, v: i64)
        ensures
            final(self)@ == old(self)@ + encode_value(Value::Int(v as int)),
    {
        self.0.push(105u8);
        push_int(v, &mut self.0);
        self.0.push(101u8);
        proof {
            assert(final(self)@ =~= old(self)@ + encode_value(Value::Int(v as int)));
        }
    }

    /// Writes an unsigned integer: `i`, its decimal text, `e`.
    pub fn serialize_u64(&mut self, v: u64)
        ensures
            final(self)@ == old(self)@ + encode_value(Value::Int(v as int)),
    {
        self.0.push(105u8);
        push_digits(v, &mut self.0);
        self.0.push(101u8);
        proof {
            assert(final(self)@ =~= old(self)@ + encode_value(Value::Int(v as int)));
        }
    }

    /// Writes a boolean as the integer 0 or 1.
    pub fn serialize_bool(&mut self, v: bool)
        ensures
            final(self)@ == old(self)@ + encode_value(Value::Int(if v { 1 } else { 0 })),
    {
        self.serialize_i64(if v { 1 } else { 0 });
    }

    /// Writes a byte string: its length, a colon, then its bytes.
    pub fn serialize_bytes(&mut self, v: &[u8])
        ensures
            final(self)@ == old(self)@ + encode_bytes(v@),
    {
        push_bytes(v, &mut self.0);
    }

    /// Writes a string as the byte string of its UTF-8 bytes.
    pub fn serialize_str(&mut self, v: &str)
        ensures
            final(self)@ == old(self)@ + encode_bytes(v.spec_bytes()),
    {
        push_bytes(v.as_bytes(), &mut self.0);
    }

    /// Writes a token.
    pub fn serialize_token(&mut self, t: &Token)
        ensures
            final(self)@ == old(self)@ + encode_value(t@),
    {
        encode_token(t, &mut self.0);
    }
}

/// Encodes a token to bencode bytes.
pub fn encode_to_raw(v: &Token) -> (r: Result<Vec<u8>, Error>)
    ensures
        r matches Ok(b) && b@ == encode_value(v@),
{
    let mut encoder = Encoder::new();
    encoder.serialize_token(v);
    Ok(encoder.into_buf())
}

} // verus!

verus! {

/// Encodes a token to bencode text; fails when the bytes are not UTF-8.
pub fn encode_to_str(v: &Token) -> (r: Result<String, Error>)
    ensures
        r is Ok <==> vstd::utf8::valid_utf8(encode_value(v@)),
        r matches Ok(s) ==> vstd::utf8::encode_utf8(s@) == encode_value(v@),
        r matches Err(e) ==> e is Custom,
{
    let mut encoder = Encoder::new();
    encoder.serialize_token(v);
    match crate::text::string_from_utf8(encoder.into_buf()) {
        Some(s) => Ok(s),
        None => Err(Error::Custom("invalid utf-8 string".to_string())),
    }
}

} // verus!
