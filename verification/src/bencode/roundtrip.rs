//! Reading back what was written gives the value that was written.

use vstd::prelude::*;
use super::number::{
    digits_of, int_text, is_digit, lemma_digits_of_all_digits, lemma_parse_int_text,
    lemma_parse_usize_digits,
};
use super::token::{
    bytes_lt, canonical, canonical_entries, canonical_list, keys_sorted, lemma_bytes_lt_asym,
    lemma_bytes_lt_irrefl, Value,
};
use super::grammar::{
    decode_spec, dict_order, dict_order_upto, encode_bytes, encode_entries, encode_list,
    encode_value, find_byte, next_lexeme, order_insert, parse_dict, parse_list, parse_value,
    DecodeError, Lexeme, CH_COLON, CH_D, CH_E, CH_I, CH_L,
};

verus! {

/// Whether `s` holds the bytes `e` at position `pos`.
pub open spec fn holds_at(s: Seq<u8>, pos: int, e: Seq<u8>) -> bool {
    &&& 0 <= pos
    &&& pos + e.len() <= s.len()
    &&& s.subrange(pos, pos + e.len()) == e
}

proof fn lemma_holds_at_split(s: Seq<u8>, pos: int, a: Seq<u8>, b: Seq<u8>)
    requires
        holds_at(s, pos, a + b),
    ensures
        holds_at(s, pos, a),
        holds_at(s, pos + a.len(), b),
{
    assert(s.subrange(pos, pos + a.len()) =~= (a + b).subrange(0, a.len() as int));
    assert((a + b).subrange(0, a.len() as int) =~= a);
    assert(s.subrange(pos + a.len(), pos + a.len() + b.len()) =~= (a + b).subrange(
        a.len() as int,
        (a + b).len() as int,
    ));
    assert((a + b).subrange(a.len() as int, (a + b).len() as int) =~= b);
}

proof fn lemma_holds_at_index(s: Seq<u8>, pos: int, e: Seq<u8>, i: int)
    requires
        holds_at(s, pos, e),
        0 <= i < e.len(),
    ensures
        s[pos + i] == e[i],
{
    assert(s.subrange(pos, pos + e.len())[i] == s[pos + i]);
}

proof fn lemma_find_byte(s: Seq<u8>, from: int, j: int, b: u8)
    requires
        0 <= from <= j < s.len(),
        s[j] == b,
        forall|k: int| from <= k < j ==> s[k] != b,
    ensures
        find_byte(s, from, b) == Some(j),
    decreases j - from,
{
    if from < j {
        lemma_find_byte(s, from + 1, j, b);
    }
}

/// A written integer reads back as one integer lexeme.
proof fn lemma_lexeme_int(s: Seq<u8>, pos: int, i: int)
    requires
        i64::MIN <= i <= i64::MAX,
        holds_at(s, pos, seq![CH_I] + int_text(i) + seq![CH_E]),
    ensures
        next_lexeme(s, pos) == Ok::<(Lexeme, int), DecodeError>(
            (Lexeme::Int(i), pos + int_text(i).len() + 2),
        ),
{
    let t = int_text(i);
    let e = seq![CH_I] + t + seq![CH_E];
    lemma_holds_at_split(s, pos, seq![CH_I] + t, seq![CH_E]);
    lemma_holds_at_split(s, pos, seq![CH_I], t);
    lemma_holds_at_index(s, pos, e, 0);
    lemma_holds_at_index(s, pos, e, t.len() + 1int);
    if i < 0 {
        lemma_digits_of_all_digits((-i) as nat);
    } else {
        lemma_digits_of_all_digits(i as nat);
    }
    assert forall|k: int| pos + 1 <= k < pos + 1 + t.len() implies s[k] != CH_E by {
        lemma_holds_at_index(s, pos + 1, t, k - pos - 1);
        if i < 0 {
            if k > pos + 1 {
                assert(t[k - pos - 1] == digits_of((-i) as nat)[k - pos - 2]);
                assert(is_digit(digits_of((-i) as nat)[k - pos - 2]));
            }
        } else {
            assert(is_digit(digits_of(i as nat)[k - pos - 1]));
        }
    }
    lemma_find_byte(s, pos + 1, pos + 1 + t.len(), CH_E);
    assert(s.subrange(pos + 1, pos + 1 + t.len()) == t);
    lemma_parse_int_text(i as i64);
}

/// A written byte string reads back as one byte string lexeme.
proof fn lemma_lexeme_bytes(s: Seq<u8>, pos: int, b: Seq<u8>)
    requires
        b.len() <= usize::MAX,
        holds_at(s, pos, encode_bytes(b)),
    ensures
        next_lexeme(s, pos) == Ok::<(Lexeme, int), DecodeError>(
            (Lexeme::Bytes(b), pos + encode_bytes(b).len()),
        ),
{
    let d = digits_of(b.len());
    let e = encode_bytes(b);
    lemma_digits_of_all_digits(b.len());
    lemma_holds_at_split(s, pos, d + seq![CH_COLON], b);
    lemma_holds_at_split(s, pos, d, seq![CH_COLON]);
    lemma_holds_at_index(s, pos, e, 0);
    assert(e[0] == d[0]);
    assert(is_digit(d[0]));
    lemma_holds_at_index(s, pos, e, d.len() as int);
    assert forall|k: int| pos + 1 <= k < pos + d.len() implies s[k] != CH_COLON by {
        lemma_holds_at_index(s, pos, d, k - pos);
        assert(is_digit(d[k - pos]));
    }
    lemma_find_byte(s, pos + 1, pos + d.len(), CH_COLON);
    lemma_parse_usize_digits(b.len() as usize);
}

pub proof fn lemma_encode_value_nonempty(v: Value)
    ensures
        encode_value(v).len() >= 1,
{
    match v {
        Value::Bytes(b) => {
            lemma_digits_of_all_digits(b.len());
        },
        _ => {},
    }
}

/// The encoding of a list, split at its first item.
proof fn lemma_encode_list_first(items: Seq<Value>)
    requires
        items.len() > 0,
    ensures
        encode_list(items) == encode_value(items[0]) + encode_list(items.drop_first()),
    decreases items.len(),
{
    if items.len() == 1 {
        assert(items.drop_last() =~= Seq::<Value>::empty());
        assert(items.drop_first() =~= Seq::<Value>::empty());
        assert(encode_list(items) =~= encode_value(items[0]) + encode_list(items.drop_first()));
    } else {
        let init = items.drop_last();
        lemma_encode_list_first(init);
        assert(init.drop_first() =~= items.drop_first().drop_last());
        assert(items.drop_first().last() == items.last());
        assert(encode_list(items) =~= encode_value(items[0]) + encode_list(items.drop_first()));
    }
}

/// The encoding of dictionary entries, split at the first index.
proof fn lemma_encode_entries_first(entries: Seq<(Seq<u8>, Value)>, idxs: Seq<int>)
    requires
        idxs.len() > 0,
        forall|k: int| 0 <= k < idxs.len() ==> 0 <= #[trigger] idxs[k] < entries.len(),
    ensures
        encode_entries(entries, idxs) == encode_bytes(entries[idxs[0]].0) + encode_value(
            entries[idxs[0]].1,
        ) + encode_entries(entries, idxs.drop_first()),
    decreases idxs.len(),
{
    let first = encode_bytes(entries[idxs[0]].0) + encode_value(entries[idxs[0]].1);
    if idxs.len() == 1 {
        assert(idxs.drop_last() =~= Seq::<int>::empty());
        assert(idxs.drop_first() =~= Seq::<int>::empty());
        assert(encode_entries(entries, idxs) =~= first + encode_entries(
            entries,
            idxs.drop_first(),
        ));
    } else {
        let init = idxs.drop_last();
        assert(idxs.last() == idxs[idxs.len() - 1]);
        lemma_encode_entries_first(entries, init);
        assert(init.drop_first() =~= idxs.drop_first().drop_last());
        assert(idxs.drop_first().last() == idxs.last());
        assert(idxs.drop_first()[idxs.drop_first().len() - 1] == idxs[idxs.len() - 1]);
        assert(encode_entries(entries, idxs) =~= first + encode_entries(
            entries,
            idxs.drop_first(),
        ));
    }
}

proof fn lemma_canonical_list_index(items: Seq<Value>)
    requires
        canonical_list(items),
    ensures
        forall|i: int| 0 <= i < items.len() ==> canonical(#[trigger] items[i]),
    decreases items.len(),
{
    if items.len() > 0 {
        lemma_canonical_list_index(items.drop_first());
        assert forall|i: int| 0 <= i < items.len() implies canonical(#[trigger] items[i]) by {
            if i > 0 {
                assert(items[i] == items.drop_first()[i - 1]);
            }
        }
    }
}

proof fn lemma_canonical_entries_index(entries: Seq<(Seq<u8>, Value)>)
    requires
        canonical_entries(entries),
    ensures
        forall|i: int|
            0 <= i < entries.len() ==> canonical(#[trigger] entries[i].1) && entries[i].0.len()
                <= usize::MAX,
    decreases entries.len(),
{
    if entries.len() > 0 {
        lemma_canonical_entries_index(entries.drop_first());
        assert forall|i: int| 0 <= i < entries.len() implies canonical(#[trigger] entries[i].1)
            && entries[i].0.len() <= usize::MAX by {
            if i > 0 {
                assert(entries[i] == entries.drop_first()[i - 1]);
            }
        }
    }
}

proof fn lemma_order_insert_greatest<V>(entries: Seq<(Seq<u8>, V)>, ord: Seq<int>, i: int)
    requires
        forall|k: int| 0 <= k < ord.len() ==> bytes_lt(entries[#[trigger] ord[k]].0, entries[i].0),
    ensures
        order_insert(entries, ord, i) == ord.push(i),
    decreases ord.len(),
{
    if ord.len() > 0 {
        assert(bytes_lt(entries[ord[0]].0, entries[i].0));
        lemma_bytes_lt_asym(entries[ord[0]].0, entries[i].0);
        lemma_bytes_lt_irrefl(entries[i].0);
        let t = ord.drop_first();
        assert forall|k: int| 0 <= k < t.len() implies bytes_lt(
            entries[#[trigger] t[k]].0,
            entries[i].0,
        ) by {
            assert(t[k] == ord[k + 1]);
        }
        lemma_order_insert_greatest(entries, t, i);
        assert(order_insert(entries, ord, i) =~= ord.push(i));
    } else {
        assert(order_insert(entries, ord, i) =~= ord.push(i));
    }
}

/// For a dictionary whose keys already increase, the written order is the
/// order of its entries.
pub proof fn lemma_dict_order_sorted<V>(entries: Seq<(Seq<u8>, V)>, n: int)
    requires
        keys_sorted(entries),
        0 <= n <= entries.len(),
    ensures
        dict_order_upto(entries, n) == Seq::new(n as nat, |i: int| i),
    decreases n,
{
    if n > 0 {
        lemma_dict_order_sorted(entries, n - 1);
        let ord = dict_order_upto(entries, n - 1);
        assert forall|k: int| 0 <= k < ord.len() implies bytes_lt(
            entries[#[trigger] ord[k]].0,
            entries[n - 1].0,
        ) by {
            assert(ord[k] == k);
        }
        lemma_order_insert_greatest(entries, ord, n - 1);
        assert(dict_order_upto(entries, n) =~= Seq::new(n as nat, |i: int| i));
    } else {
        assert(dict_order_upto(entries, n) =~= Seq::new(n as nat, |i: int| i));
    }
}

/// Reading a written canonical value gives it back, and stops right after it.
pub proof fn lemma_parse_encode(s: Seq<u8>, pos: int, v: Value)
    requires
        canonical(v),
        holds_at(s, pos, encode_value(v)),
    ensures
        parse_value(s, pos) == Ok::<(Value, int), DecodeError>(
            (v, pos + encode_value(v).len()),
        ),
    decreases v, 0int,
{
    match v {
        Value::Int(i) => {
            lemma_lexeme_int(s, pos, i);
        },
        Value::Bytes(b) => {
            lemma_lexeme_bytes(s, pos, b);
        },
        Value::List(items) => {
            let body = encode_list(items);
            assert(seq![CH_L] + body + seq![CH_E] =~= seq![CH_L] + (body + seq![CH_E]));
            lemma_holds_at_split(s, pos, seq![CH_L], body + seq![CH_E]);
            lemma_holds_at_index(s, pos, encode_value(v), 0);
            lemma_parse_list(s, pos + 1, items, Seq::empty());
            assert(Seq::<Value>::empty() + items =~= items);
        },
        Value::Dict(entries) => {
            let n = entries.len() as int;
            lemma_dict_order_sorted(entries, n);
            let idxs = dict_order(entries);
            let body = encode_entries(entries, idxs);
            assert(seq![CH_D] + body + seq![CH_E] =~= seq![CH_D] + (body + seq![CH_E]));
            lemma_holds_at_split(s, pos, seq![CH_D], body + seq![CH_E]);
            lemma_holds_at_index(s, pos, encode_value(v), 0);
            lemma_canonical_entries_index(entries);
            lemma_parse_dict(s, pos + 1, entries, idxs, Seq::empty());
            assert(Seq::<(Seq<u8>, Value)>::empty() + idxs.map_values(|k: int| entries[k])
                =~= entries);
        },
    }
}

proof fn lemma_parse_list(s: Seq<u8>, pos: int, items: Seq<Value>, acc: Seq<Value>)
    requires
        canonical_list(items),
        holds_at(s, pos, encode_list(items) + seq![CH_E]),
    ensures
        parse_list(s, pos, acc) == Ok::<(Value, int), DecodeError>(
            (Value::List(acc + items), pos + encode_list(items).len() + 1),
        ),
    decreases items, 0int,
{
    if items.len() == 0 {
        lemma_holds_at_index(s, pos, encode_list(items) + seq![CH_E], 0);
        assert(acc + items =~= acc);
    } else {
        lemma_encode_list_first(items);
        let e0 = encode_value(items[0]);
        let rest = encode_list(items.drop_first());
        assert(encode_list(items) + seq![CH_E] =~= e0 + (rest + seq![CH_E]));
        lemma_holds_at_split(s, pos, e0, rest + seq![CH_E]);
        lemma_canonical_list_index(items);
        lemma_encode_value_nonempty(items[0]);
        lemma_parse_encode(s, pos, items[0]);
        lemma_parse_list(s, pos + e0.len(), items.drop_first(), acc.push(items[0]));
        assert(acc.push(items[0]) + items.drop_first() =~= acc + items);
    }
}

proof fn lemma_parse_dict(
    s: Seq<u8>,
    pos: int,
    entries: Seq<(Seq<u8>, Value)>,
    idxs: Seq<int>,
    acc: Seq<(Seq<u8>, Value)>,
)
    requires
        forall|k: int| 0 <= k < idxs.len() ==> 0 <= #[trigger] idxs[k] < entries.len(),
        forall|i: int|
            0 <= i < entries.len() ==> canonical(#[trigger] entries[i].1) && entries[i].0.len()
                <= usize::MAX,
        holds_at(s, pos, encode_entries(entries, idxs) + seq![CH_E]),
    ensures
        parse_dict(s, pos, acc) == Ok::<(Value, int), DecodeError>(
            (
                Value::Dict(acc + idxs.map_values(|k: int| entries[k])),
                pos + encode_entries(entries, idxs).len() + 1,
            ),
        ),
    decreases entries, idxs.len(),
{
    if idxs.len() == 0 {
        lemma_holds_at_index(s, pos, encode_entries(entries, idxs) + seq![CH_E], 0);
        assert(acc + idxs.map_values(|k: int| entries[k]) =~= acc);
    } else {
        lemma_encode_entries_first(entries, idxs);
        let k0 = entries[idxs[0]].0;
        let v0 = entries[idxs[0]].1;
        let ek = encode_bytes(k0);
        let ev = encode_value(v0);
        let rest = encode_entries(entries, idxs.drop_first());
        assert(encode_entries(entries, idxs) + seq![CH_E] =~= ek + (ev + (rest + seq![CH_E])));
        lemma_holds_at_split(s, pos, ek, ev + (rest + seq![CH_E]));
        lemma_holds_at_split(s, pos + ek.len(), ev, rest + seq![CH_E]);
        lemma_lexeme_bytes(s, pos, k0);
        lemma_encode_value_nonempty(v0);
        lemma_parse_encode(s, pos + ek.len(), v0);
        let t = idxs.drop_first();
        assert forall|k: int| 0 <= k < t.len() implies 0 <= #[trigger] t[k] < entries.len() by {
            assert(t[k] == idxs[k + 1]);
        }
        lemma_parse_dict(s, pos + ek.len() + ev.len(), entries, t, acc.push((k0, v0)));
        assert(acc.push((k0, v0)) + t.map_values(|k: int| entries[k]) =~= acc
            + idxs.map_values(|k: int| entries[k]));
    }
}

/// Decoding the encoding of a canonical value gives that value.
pub proof fn law_decode_encode(v: Value)
    requires
        canonical(v),
    ensures
        decode_spec(encode_value(v)) == Ok::<Value, DecodeError>(v),
{
    let e = encode_value(v);
    assert(e.subrange(0, e.len() as int) =~= e);
    lemma_parse_encode(e, 0, v);
}

} // verus!
