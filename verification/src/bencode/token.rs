//! Bencode values: the executable `Token` and its mathematical model `Value`.

use vstd::prelude::*;
use vstd::string::StringSliceAdditionalSpecFns;

verus! {

/// A bencode value.
///
/// A dictionary is held as a list of entries; as a map its meaning is that a
/// later entry for a key replaces an earlier one, and it is encoded with its
/// keys in lexicographic order.
#[derive(Debug, PartialEq, Eq)]
pub enum Token {
    Integer(i64),
    ByteString(Vec<u8>),
    List(Vec<Token>),
    Dictionary(Vec<(Vec<u8>, Token)>),
}

/// The mathematical model of a bencode value.
pub enum Value {
    Int(int),
    Bytes(Seq<u8>),
    List(Seq<Value>),
    Dict(Seq<(Seq<u8>, Value)>),
}

/// The model of a token.
pub open spec fn token_view(t: Token) -> Value
    decreases t,
{
    match t {
        Token::Integer(i) => Value::Int(i as int),
        Token::ByteString(b) => Value::Bytes(b@),
        Token::List(items) => Value::List(tokens_view(items@)),
        Token::Dictionary(entries) => Value::Dict(entries_view(entries@)),
    }
}

/// The models of a sequence of tokens.
pub open spec fn tokens_view(s: Seq<Token>) -> Seq<Value>
    decreases s,
{
    if s.len() == 0 {
        Seq::empty()
    } else {
        tokens_view(s.drop_last()).push(token_view(s.last()))
    }
}

/// The models of a sequence of dictionary entries.
pub open spec fn entries_view(s: Seq<(Vec<u8>, Token)>) -> Seq<(Seq<u8>, Value)>
    decreases s,
{
    if s.len() == 0 {
        Seq::empty()
    } else {
        entries_view(s.drop_last()).push((s.last().0@, token_view(s.last().1)))
    }
}

/// The models of tokens, element by element.
pub proof fn lemma_tokens_view_index(s: Seq<Token>)
    ensures
        tokens_view(s).len() == s.len(),
        forall|i: int| 0 <= i < s.len() ==> #[trigger] tokens_view(s)[i] == token_view(s[i]),
    decreases s.len(),
{
    if s.len() > 0 {
        lemma_tokens_view_index(s.drop_last());
        assert forall|i: int| 0 <= i < s.len() implies #[trigger] tokens_view(s)[i] == token_view(
            s[i],
        ) by {
            if i < s.len() - 1 {
                assert(s.drop_last()[i] == s[i]);
            }
        }
    }
}

/// The models of entries, element by element.
pub proof fn lemma_entries_view_index(s: Seq<(Vec<u8>, Token)>)
    ensures
        entries_view(s).len() == s.len(),
        forall|i: int|
            0 <= i < s.len() ==> #[trigger] entries_view(s)[i] == (s[i].0@, token_view(s[i].1)),
    decreases s.len(),
{
    if s.len() > 0 {
        lemma_entries_view_index(s.drop_last());
        assert forall|i: int| 0 <= i < s.len() implies #[trigger] entries_view(s)[i] == (
            s[i].0@,
            token_view(s[i].1),
        ) by {
            if i < s.len() - 1 {
                assert(s.drop_last()[i] == s[i]);
            }
        }
    }
}

impl View for Token {
    type V = Value;

    open spec fn view(&self) -> Value {
        token_view(*self)
    }
}

/// Lexicographic order on byte strings, as `Vec<u8>` orders them.
pub open spec fn bytes_lt(a: Seq<u8>, b: Seq<u8>) -> bool
    decreases a.len(),
{
    if a.len() == 0 {
        b.len() > 0
    } else if b.len() == 0 {
        false
    } else if a[0] != b[0] {
        a[0] < b[0]
    } else {
        bytes_lt(a.drop_first(), b.drop_first())
    }
}

/// Whether the keys of `entries` strictly increase.
pub open spec fn keys_sorted<V>(entries: Seq<(Seq<u8>, V)>) -> bool {
    forall|i: int, j: int|
        0 <= i < j < entries.len() ==> bytes_lt(#[trigger] entries[i].0, #[trigger] entries[j].0)
}

/// Inserts an entry into a dictionary sorted by key, replacing an entry with
/// the same key.
pub open spec fn dict_insert<V>(d: Seq<(Seq<u8>, V)>, k: Seq<u8>, v: V) -> Seq<(Seq<u8>, V)>
    decreases d.len(),
{
    if d.len() == 0 {
        seq![(k, v)]
    } else if bytes_lt(k, d[0].0) {
        seq![(k, v)] + d
    } else if k == d[0].0 {
        seq![(k, v)] + d.drop_first()
    } else {
        seq![d[0]] + dict_insert(d.drop_first(), k, v)
    }
}

/// The map that a list of entries means, as a key-sorted list: entries are
/// taken in order, and a later one replaces an earlier one with the same key.
pub open spec fn dict_normalize<V>(entries: Seq<(Seq<u8>, V)>) -> Seq<(Seq<u8>, V)>
    decreases entries.len(),
{
    if entries.len() == 0 {
        Seq::empty()
    } else {
        dict_insert(dict_normalize(entries.drop_last()), entries.last().0, entries.last().1)
    }
}

/// Whether a value is in canonical form: every integer fits in `i64`, every
/// byte string length fits in `usize`, and every dictionary has strictly
/// increasing keys.
pub open spec fn canonical(v: Value) -> bool
    decreases v,
{
    match v {
        Value::Int(i) => i64::MIN <= i <= i64::MAX,
        Value::Bytes(b) => b.len() <= usize::MAX,
        Value::List(items) => canonical_list(items),
        Value::Dict(entries) => keys_sorted(entries) && canonical_entries(entries),
    }
}

/// Whether every value of a list is canonical.
pub open spec fn canonical_list(items: Seq<Value>) -> bool
    decreases items,
{
    if items.len() == 0 {
        true
    } else {
        canonical(items[0]) && canonical_list(items.drop_first())
    }
}

/// Whether every key and value of a dictionary is canonical.
pub open spec fn canonical_entries(entries: Seq<(Seq<u8>, Value)>) -> bool
    decreases entries,
{
    if entries.len() == 0 {
        true
    } else {
        entries[0].0.len() <= usize::MAX && canonical(entries[0].1) && canonical_entries(
            entries.drop_first(),
        )
    }
}

// Order lemmas.

/// No byte string is below itself.
pub proof fn lemma_bytes_lt_irrefl(a: Seq<u8>)
    ensures
        !bytes_lt(a, a),
    decreases a.len(),
{
    if a.len() > 0 {
        lemma_bytes_lt_irrefl(a.drop_first());
    }
}

/// Two different byte strings are ordered one way or the other.
#[verifier::spinoff_prover]
#[verifier::rlimit(30)]
pub proof fn lemma_bytes_lt_total(a: Seq<u8>, b: Seq<u8>)
    ensures
        a == b || bytes_lt(a, b) || bytes_lt(b, a),
    decreases a.len(),
{
    if a.len() > 0 && b.len() > 0 && a[0] == b[0] {
        lemma_bytes_lt_total(a.drop_first(), b.drop_first());
        if a.drop_first() == b.drop_first() {
            assert(a =~= seq![a[0]] + a.drop_first());
            assert(b =~= seq![b[0]] + b.drop_first());
        }
    } else if a.len() == 0 && b.len() == 0 {
        assert(a =~= b);
    }
}

/// The order is antisymmetric.
pub proof fn lemma_bytes_lt_asym(a: Seq<u8>, b: Seq<u8>)
    ensures
        !(bytes_lt(a, b) && bytes_lt(b, a)),
    decreases a.len(),
{
    if a.len() > 0 && b.len() > 0 && a[0] == b[0] {
        lemma_bytes_lt_asym(a.drop_first(), b.drop_first());
    }
}

/// The order is transitive.
pub proof fn lemma_bytes_lt_trans(a: Seq<u8>, b: Seq<u8>, c: Seq<u8>)
    requires
        bytes_lt(a, b),
        bytes_lt(b, c),
    ensures
        bytes_lt(a, c),
    decreases a.len(),
{
    if a.len() > 0 && b.len() > 0 && c.len() > 0 && a[0] == b[0] && b[0] == c[0] {
        lemma_bytes_lt_trans(a.drop_first(), b.drop_first(), c.drop_first());
    }
}

// Dictionary lemmas.

/// Inserting keeps a sorted dictionary sorted, and the keys of the result
/// are the old keys and `k`.
pub proof fn lemma_dict_insert_sorted<V>(d: Seq<(Seq<u8>, V)>, k: Seq<u8>, v: V)
    requires
        keys_sorted(d),
    ensures
        keys_sorted(dict_insert(d, k, v)),
        dict_insert(d, k, v).len() >= 1,
        forall|i: int|
            0 <= i < dict_insert(d, k, v).len() ==> (#[trigger] dict_insert(d, k, v)[i].0 == k
                || exists|j: int| 0 <= j < d.len() && d[j].0 == dict_insert(d, k, v)[i].0),
    decreases d.len(),
{
    let r = dict_insert(d, k, v);
    if d.len() == 0 {
    } else if bytes_lt(k, d[0].0) {
        assert forall|i: int, j: int| 0 <= i < j < r.len() implies bytes_lt(
            #[trigger] r[i].0,
            #[trigger] r[j].0,
        ) by {
            if i == 0 {
                if j > 1 {
                    assert(bytes_lt(d[0].0, d[j - 1].0));
                    lemma_bytes_lt_trans(k, d[0].0, d[j - 1].0);
                }
            } else {
                assert(bytes_lt(d[i - 1].0, d[j - 1].0));
            }
        }
        assert forall|i: int| 0 <= i < r.len() implies (#[trigger] r[i].0 == k || exists|j: int|
            0 <= j < d.len() && d[j].0 == r[i].0) by {
            if i > 0 {
                assert(d[i - 1].0 == r[i].0);
            }
        }
    } else if k == d[0].0 {
        assert forall|i: int, j: int| 0 <= i < j < r.len() implies bytes_lt(
            #[trigger] r[i].0,
            #[trigger] r[j].0,
        ) by {
            assert(bytes_lt(d[i].0, d[j].0));
        }
        assert forall|i: int| 0 <= i < r.len() implies (#[trigger] r[i].0 == k || exists|j: int|
            0 <= j < d.len() && d[j].0 == r[i].0) by {
            assert(d[i].0 == r[i].0);
        }
    } else {
        let t = d.drop_first();
        assert(keys_sorted(t)) by {
            assert forall|i: int, j: int| 0 <= i < j < t.len() implies bytes_lt(
                #[trigger] t[i].0,
                #[trigger] t[j].0,
            ) by {
                assert(bytes_lt(d[i + 1].0, d[j + 1].0));
            }
        }
        lemma_dict_insert_sorted(t, k, v);
        let rt = dict_insert(t, k, v);
        lemma_bytes_lt_total(k, d[0].0);
        assert(r =~= seq![d[0]] + rt);
        assert forall|i: int| 0 <= i < r.len() implies (#[trigger] r[i].0 == k || exists|j: int|
            0 <= j < d.len() && d[j].0 == r[i].0) by {
            if i == 0 {
                assert(d[0].0 == r[0].0);
            } else {
                assert(rt[i - 1] == r[i]);
                if rt[i - 1].0 != k {
                    let j = choose|j: int| 0 <= j < t.len() && t[j].0 == rt[i - 1].0;
                    assert(d[j + 1].0 == r[i].0);
                }
            }
        }
        assert forall|i: int, j: int| 0 <= i < j < r.len() implies bytes_lt(
            #[trigger] r[i].0,
            #[trigger] r[j].0,
        ) by {
            if i == 0 {
                assert(rt[j - 1] == r[j]);
                if rt[j - 1].0 == k {
                } else {
                    let m = choose|m: int| 0 <= m < t.len() && t[m].0 == rt[j - 1].0;
                    assert(bytes_lt(d[0].0, d[m + 1].0));
                }
            } else {
                assert(rt[i - 1] == r[i]);
                assert(rt[j - 1] == r[j]);
            }
        }
    }
}

/// Inserting a key above every key of a sorted dictionary appends it.
pub proof fn lemma_dict_insert_greatest<V>(d: Seq<(Seq<u8>, V)>, k: Seq<u8>, v: V)
    requires
        forall|i: int| 0 <= i < d.len() ==> bytes_lt(#[trigger] d[i].0, k),
    ensures
        dict_insert(d, k, v) == d.push((k, v)),
    decreases d.len(),
{
    if d.len() > 0 {
        assert(bytes_lt(d[0].0, k));
        lemma_bytes_lt_asym(d[0].0, k);
        lemma_bytes_lt_irrefl(k);
        let t = d.drop_first();
        assert forall|i: int| 0 <= i < t.len() implies bytes_lt(#[trigger] t[i].0, k) by {
            assert(t[i] == d[i + 1]);
        }
        lemma_dict_insert_greatest(t, k, v);
        assert(dict_insert(d, k, v) =~= d.push((k, v)));
    } else {
        assert(dict_insert(d, k, v) =~= d.push((k, v)));
    }
}

/// A dictionary whose keys already strictly increase is its own normal form.
pub proof fn lemma_normalize_sorted<V>(entries: Seq<(Seq<u8>, V)>)
    requires
        keys_sorted(entries),
    ensures
        dict_normalize(entries) == entries,
    decreases entries.len(),
{
    if entries.len() > 0 {
        let init = entries.drop_last();
        assert(keys_sorted(init)) by {
            assert forall|i: int, j: int| 0 <= i < j < init.len() implies bytes_lt(
                #[trigger] init[i].0,
                #[trigger] init[j].0,
            ) by {
                assert(bytes_lt(entries[i].0, entries[j].0));
            }
        }
        lemma_normalize_sorted(init);
        assert forall|i: int| 0 <= i < init.len() implies bytes_lt(
            #[trigger] init[i].0,
            entries.last().0,
        ) by {
            assert(bytes_lt(entries[i].0, entries[entries.len() - 1].0));
        }
        lemma_dict_insert_greatest(init, entries.last().0, entries.last().1);
        assert(init.push(entries.last()) =~= entries);
    }
}

/// The normal form of a dictionary has strictly increasing keys.
pub proof fn lemma_normalize_is_sorted<V>(entries: Seq<(Seq<u8>, V)>)
    ensures
        keys_sorted(dict_normalize(entries)),
    decreases entries.len(),
{
    if entries.len() > 0 {
        lemma_normalize_is_sorted(entries.drop_last());
        lemma_dict_insert_sorted(
            dict_normalize(entries.drop_last()),
            entries.last().0,
            entries.last().1,
        );
    }
}

} // verus!

verus! {

/// The value that a dictionary gives a key: that of the last entry with the key.
pub open spec fn dict_lookup<V>(entries: Seq<(Seq<u8>, V)>, k: Seq<u8>) -> Option<V>
    decreases entries.len(),
{
    if entries.len() == 0 {
        None
    } else if entries.last().0 == k {
        Some(entries.last().1)
    } else {
        dict_lookup(entries.drop_last(), k)
    }
}

impl Token {
    /// The value of `key` when this is a dictionary: the last entry with
    /// that key; `None` for a missing key or a token that is no dictionary.
    pub fn dict_get(&self, key: &[u8]) -> (r: Option<&Token>)
        ensures
            match self@ {
                Value::Dict(entries) => match dict_lookup(entries, key@) {
                    Some(v) => r matches Some(t) && t@ == v,
                    None => r is None,
                },
                _ => r is None,
            },
    {
        match self {
            Token::Dictionary(entries) => {
                let ghost ev = entries_view(entries@);
                let mut i = entries.len();
                proof {
                    assert(entries@.take(i as int) =~= entries@);
                }
                while i > 0
                    invariant
                        i <= entries.len(),
                        *self == Token::Dictionary(*entries),
                        ev == entries_view(entries@),
                        dict_lookup(ev, key@) == dict_lookup(entries_view(entries@.take(i as int)), key@),
                    decreases i,
                {
                    let ghost pre = entries@.take(i as int);
                    proof {
                        assert(pre.drop_last() =~= entries@.take(i - 1));
                        assert(pre.last() == entries@[i - 1]);
                        let pv = entries_view(pre);
                        assert(pv.drop_last() =~= entries_view(pre.drop_last()));
                        assert(pv.last() == (pre.last().0@, token_view(pre.last().1)));
                    }
                    if super::encode::bytes_equal(entries[i - 1].0.as_slice(), key) {
                        return Some(&entries[i - 1].1);
                    }
                    i = i - 1;
                }
                proof {
                    assert(entries@.take(0) =~= Seq::<(Vec<u8>, Token)>::empty());
                }
                None
            },
            _ => None,
        }
    }
}

} // verus!

verus! {

/// Builds a token from each kind of value that a bencode reader hands out.
pub struct TokenVisitor;

impl TokenVisitor {
    /// A signed integer.
    pub fn visit_i64(self, v: i64) -> (t: Token)
        ensures
            t == Token::Integer(v),
    {
        Token::Integer(v)
    }

    /// An unsigned integer, taken as `i64` (values over `i64::MAX` wrap).
    pub fn visit_u64(self, v: u64) -> (t: Token)
        ensures
            t == Token::Integer(v as i64),
    {
        Token::Integer(v as i64)
    }

    /// A byte string.
    pub fn visit_bytes(self, v: &[u8]) -> (t: Token)
        ensures
            t matches Token::ByteString(b) && b@ == v@,
    {
        Token::ByteString(vstd::slice::slice_to_vec(v))
    }

    /// Text, held as its UTF-8 bytes.
    pub fn visit_str(self, v: &str) -> (t: Token)
        ensures
            t matches Token::ByteString(b) && b@ == v.spec_bytes(),
    {
        Token::ByteString(vstd::slice::slice_to_vec(v.as_bytes()))
    }

    /// Owned text, held as its UTF-8 bytes.
    pub fn visit_string(self, v: String) -> (t: Token)
        ensures
            t matches Token::ByteString(b) && b@ == vstd::utf8::encode_utf8(v@),
    {
        Token::ByteString(vstd::slice::slice_to_vec(v.as_str().as_bytes()))
    }

    /// A list, with the items read in order.
    pub fn visit_seq(self, items: Vec<Token>) -> (t: Token)
        ensures
            t == Token::List(items),
    {
        Token::List(items)
    }

    /// A dictionary, with the entries read in order.
    pub fn visit_map(self, entries: Vec<(Vec<u8>, Token)>) -> (t: Token)
        ensures
            t == Token::Dictionary(entries),
    {
        Token::Dictionary(entries)
    }
}

} // verus!
