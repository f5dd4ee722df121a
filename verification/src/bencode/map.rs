//! Writing dictionaries whose entries arrive one by one.

use vstd::prelude::*;
use super::encode::{bytes_less, encode_token, push_bytes, Encoder};
use super::error::Error;
use super::grammar::{encode_bytes, encode_value, CH_D, CH_E};
use super::token::{bytes_lt, lemma_bytes_lt_asym, lemma_bytes_lt_total, Token};

verus! {

/// Inserts an entry after every entry whose key is not above its key, as a
/// stable sort by key places it.
pub open spec fn stable_insert(d: Seq<(Seq<u8>, Seq<u8>)>, x: (Seq<u8>, Seq<u8>)) -> Seq<
    (Seq<u8>, Seq<u8>),
>
    decreases d.len(),
{
    if d.len() == 0 {
        seq![x]
    } else if bytes_lt(x.0, d[0].0) {
        seq![x] + d
    } else {
        seq![d[0]] + stable_insert(d.drop_first(), x)
    }
}

/// The entries sorted by key, entries with equal keys kept in the order in
/// which they came (a stable sort).
pub open spec fn stable_sort(items: Seq<(Seq<u8>, Seq<u8>)>) -> Seq<(Seq<u8>, Seq<u8>)>
    decreases items.len(),
{
    if items.len() == 0 {
        Seq::empty()
    } else {
        stable_insert(stable_sort(items.drop_last()), items.last())
    }
}

/// Written entries: each key as a byte string followed by its written value.
pub open spec fn write_items(items: Seq<(Seq<u8>, Seq<u8>)>) -> Seq<u8>
    decreases items.len(),
{
    if items.len() == 0 {
        Seq::empty()
    } else {
        write_items(items.drop_last()) + encode_bytes(items.last().0) + items.last().1
    }
}

/// Whether keys never decrease along the entries.
pub open spec fn keys_nondecreasing(d: Seq<(Seq<u8>, Seq<u8>)>) -> bool {
    forall|i: int, j: int| 0 <= i < j < d.len() ==> !bytes_lt(#[trigger] d[j].0, #[trigger] d[i].0)
}

proof fn lemma_stable_insert_sorted(d: Seq<(Seq<u8>, Seq<u8>)>, x: (Seq<u8>, Seq<u8>))
    requires
        keys_nondecreasing(d),
    ensures
        keys_nondecreasing(stable_insert(d, x)),
        stable_insert(d, x).len() == d.len() + 1,
        forall|i: int|
            0 <= i < stable_insert(d, x).len() ==> (#[trigger] stable_insert(d, x)[i] == x
                || exists|j: int| 0 <= j < d.len() && d[j] == stable_insert(d, x)[i]),
    decreases d.len(),
{
    let r = stable_insert(d, x);
    if d.len() == 0 {
    } else if bytes_lt(x.0, d[0].0) {
        assert forall|i: int, j: int| 0 <= i < j < r.len() implies !bytes_lt(
            #[trigger] r[j].0,
            #[trigger] r[i].0,
        ) by {
            if i == 0 {
                assert(!bytes_lt(d[j - 1].0, d[0].0) || j - 1 == 0);
                lemma_bytes_lt_asym(x.0, d[0].0);
                if j - 1 > 0 {
                    lemma_not_lt_trans(x.0, d[0].0, d[j - 1].0);
                }
            } else {
                assert(r[i] == d[i - 1] && r[j] == d[j - 1]);
            }
        }
        assert forall|i: int| 0 <= i < r.len() implies (#[trigger] r[i] == x || exists|j: int|
            0 <= j < d.len() && d[j] == r[i]) by {
            if i > 0 {
                assert(d[i - 1] == r[i]);
            }
        }
    } else {
        let t = d.drop_first();
        assert(keys_nondecreasing(t)) by {
            assert forall|i: int, j: int| 0 <= i < j < t.len() implies !bytes_lt(
                #[trigger] t[j].0,
                #[trigger] t[i].0,
            ) by {
                assert(t[i] == d[i + 1] && t[j] == d[j + 1]);
            }
        }
        lemma_stable_insert_sorted(t, x);
        let rt = stable_insert(t, x);
        assert(r =~= seq![d[0]] + rt);
        assert forall|i: int| 0 <= i < r.len() implies (#[trigger] r[i] == x || exists|j: int|
            0 <= j < d.len() && d[j] == r[i]) by {
            if i == 0 {
                assert(d[0] == r[0]);
            } else {
                assert(rt[i - 1] == r[i]);
                if rt[i - 1] != x {
                    let j = choose|j: int| 0 <= j < t.len() && t[j] == rt[i - 1];
                    assert(d[j + 1] == r[i]);
                }
            }
        }
        assert forall|i: int, j: int| 0 <= i < j < r.len() implies !bytes_lt(
            #[trigger] r[j].0,
            #[trigger] r[i].0,
        ) by {
            if i == 0 {
                assert(rt[j - 1] == r[j]);
                if rt[j - 1] == x {
                } else {
                    let m = choose|m: int| 0 <= m < t.len() && t[m] == rt[j - 1];
                    assert(t[m] == d[m + 1]);
                }
            } else {
                assert(rt[i - 1] == r[i]);
                assert(rt[j - 1] == r[j]);
            }
        }
    }
}

proof fn lemma_not_lt_trans(a: Seq<u8>, b: Seq<u8>, c: Seq<u8>)
    requires
        bytes_lt(a, b),
        !bytes_lt(c, b),
    ensures
        !bytes_lt(c, a),
{
    lemma_bytes_lt_total(b, c);
    if bytes_lt(c, a) {
        if b == c {
            lemma_bytes_lt_asym(a, b);
        } else {
            super::token::lemma_bytes_lt_trans(c, a, b);
        }
    }
}

/// A dictionary ended by `SerializeMap` has its keys in lexicographic order:
/// along the sorted entries no key is below an earlier one.
pub proof fn law_stable_sort_keys_ordered(items: Seq<(Seq<u8>, Seq<u8>)>)
    ensures
        keys_nondecreasing(stable_sort(items)),
        stable_sort(items).len() == items.len(),
    decreases items.len(),
{
    if items.len() > 0 {
        law_stable_sort_keys_ordered(items.drop_last());
        lemma_stable_insert_sorted(stable_sort(items.drop_last()), items.last());
    }
}

/// A dictionary written entry by entry.
pub struct SerializeMap<'a> {
    /// Where the dictionary is written when it ends.
    pub serializer: &'a mut Encoder,
    /// Keys with their written values, in the order given.
    pub items: Vec<(Vec<u8>, Vec<u8>)>,
    /// A key given without its value yet.
    pub current_key: Option<Vec<u8>>,
}

impl<'a> SerializeMap<'a> {
    /// The entries given so far: keys, and values already written.
    pub open spec fn entries(&self) -> Seq<(Seq<u8>, Seq<u8>)> {
        self.items@.map_values(|e: (Vec<u8>, Vec<u8>)| (e.0@, e.1@))
    }

    /// The key given without its value yet, if any.
    pub open spec fn pending_key(&self) -> Option<Seq<u8>> {
        match self.current_key {
            Some(k) => Some(k@),
            None => None,
        }
    }

    /// The output written to so far.
    pub open spec fn output(&self) -> Seq<u8> {
        (*self.serializer)@
    }

    /// Starts a dictionary that will be written to `serializer`.
    pub fn new(serializer: &'a mut Encoder, size: usize) -> (m: Self)
        ensures
            m.entries() == Seq::<(Seq<u8>, Seq<u8>)>::empty(),
            m.pending_key() is None,
            m.output() == old(serializer)@,
    {
        let m = SerializeMap { serializer, items: Vec::new(), current_key: None };
        proof {
            assert(m.entries() =~= Seq::<(Seq<u8>, Seq<u8>)>::empty());
        }
        m
    }

    /// Gives the key of the next entry; fails while a key waits for its value.
    pub fn serialize_key(&mut self, key: &[u8]) -> (r: Result<(), Error>)
        ensures
            final(self).output() == old(self).output(),
            final(self).entries() == old(self).entries(),
            old(self).pending_key() is Some ==> (r matches Err(e) && e is MapSerializationOrder)
                && final(self).pending_key() == old(self).pending_key(),
            old(self).pending_key() is None ==> r is Ok && final(self).pending_key() == Some(key@),
    {
        match self.current_key {
            Some(_) => Err(
                Error::MapSerializationOrder(
                    "consecutive calls to serialize key without serializing value".to_string(),
                ),
            ),
            None => {
                self.current_key = Some(vstd::slice::slice_to_vec(key));
                Ok(())
            },
        }
    }

    /// Gives the value of the key given last; fails when no key waits.
    pub fn serialize_value(&mut self, value: &Token) -> (r: Result<(), Error>)
        ensures
            final(self).output() == old(self).output(),
            final(self).pending_key() is None,
            old(self).pending_key() is None ==> (r matches Err(e) && e is MapSerializationOrder)
                && final(self).entries() == old(self).entries(),
            old(self).pending_key() matches Some(k) ==> r is Ok && final(self).entries()
                == old(self).entries().push((k, encode_value(value@))),
    {
        let key = match self.current_key.take() {
            None => {
                return Err(
                    Error::MapSerializationOrder(
                        "consecutive calls to serialize value without serializing key".to_string(),
                    ),
                );
            },
            Some(k) => k,
        };
        let mut ser = Encoder::new();
        ser.serialize_token(value);
        let v = ser.into_buf();
        proof {
            super::roundtrip::lemma_encode_value_nonempty(value@);
        }
        if v.len() > 0 {
            self.items.push((key, v));
        }
        proof {
            assert(final(self).entries() =~= old(self).entries().push((
                old(self).pending_key()->Some_0,
                encode_value(value@),
            )));
        }
        Ok(())
    }

    /// Gives a whole entry; fails while a key waits for its value.
    pub fn serialize_entry(&mut self, key: &[u8], value: &Token) -> (r: Result<(), Error>)
        ensures
            final(self).output() == old(self).output(),
            final(self).pending_key() == old(self).pending_key(),
            old(self).pending_key() is Some ==> (r matches Err(e) && e is MapSerializationOrder)
                && final(self).entries() == old(self).entries(),
            old(self).pending_key() is None ==> r is Ok && final(self).entries()
                == old(self).entries().push((key@, encode_value(value@))),
    {
        if self.current_key.is_some() {
            return Err(
                Error::MapSerializationOrder(
                    "attemped to serialize entry whilst holding a key".to_string(),
                ),
            );
        }
        let mut ser = Encoder::new();
        ser.serialize_token(value);
        let v = ser.into_buf();
        proof {
            super::roundtrip::lemma_encode_value_nonempty(value@);
        }
        if v.len() > 0 {
            self.items.push((vstd::slice::slice_to_vec(key), v));
        }
        proof {
            assert(final(self).entries() =~= old(self).entries().push((key@, encode_value(value@))));
        }
        Ok(())
    }

    /// Ends the dictionary: fails while a key waits for its value; otherwise
    /// writes `d`, the entries sorted stably by key, and `e`.
    pub fn end(self) -> (r: Result<(), Error>)
        ensures
            r is Err <==> self.pending_key() is Some,
            r matches Err(e) ==> e is MapSerializationOrder,
            r is Ok ==> (*final(self.serializer))@ == self.output() + seq![CH_D] + write_items(
                stable_sort(self.entries()),
            ) + seq![CH_E],
    {
        if self.current_key.is_some() {
            return Err(
                Error::MapSerializationOrder(
                    "attempted to end map serialization while holding key".to_string(),
                ),
            );
        }
        let ghost entries = self.entries();
        let ghost out0 = self.output();
        let order = stable_order(&self.items);
        let serializer = self.serializer;
        serializer.push(&[100u8]);
        let mut k: usize = 0;
        while k < order.len()
            invariant
                0 <= k <= order.len(),
                entries == self.items@.map_values(|e: (Vec<u8>, Vec<u8>)| (e.0@, e.1@)),
                order@.map_values(|i: usize| entries[i as int]) == stable_sort(entries),
                forall|m: int| 0 <= m < order.len() ==> #[trigger] order@[m] < self.items.len(),
                (*serializer)@ == out0 + seq![CH_D] + write_items(
                    order@.take(k as int).map_values(|i: usize| entries[i as int]),
                ),
            decreases order.len() - k,
        {
            let i = order[k];
            serializer.serialize_bytes(self.items[i].0.as_slice());
            serializer.push(self.items[i].1.as_slice());
            proof {
                let pk = order@.take(k as int).map_values(|i: usize| entries[i as int]);
                let pk1 = order@.take(k + 1).map_values(|i: usize| entries[i as int]);
                assert(pk1.drop_last() =~= pk);
                assert(pk1.last() == entries[i as int]);
                assert(entries[i as int] == (self.items@[i as int].0@, self.items@[i as int].1@));
            }
            k = k + 1;
        }
        serializer.push(&[101u8]);
        proof {
            assert(order@.take(k as int) =~= order@);
        }
        Ok(())
    }
}

/// The indices of `items` in the order of a stable sort by key.
fn stable_order(items: &Vec<(Vec<u8>, Vec<u8>)>) -> (r: Vec<usize>)
    ensures
        r@.map_values(|i: usize| items@.map_values(|e: (Vec<u8>, Vec<u8>)| (e.0@, e.1@))[i as int])
            == stable_sort(items@.map_values(|e: (Vec<u8>, Vec<u8>)| (e.0@, e.1@))),
        forall|m: int| 0 <= m < r.len() ==> #[trigger] r@[m] < items.len(),
{
    let ghost entries = items@.map_values(|e: (Vec<u8>, Vec<u8>)| (e.0@, e.1@));
    let mut ord: Vec<usize> = Vec::new();
    let mut i: usize = 0;
    proof {
        assert(ord@.map_values(|j: usize| entries[j as int]) =~= stable_sort(entries.take(0)));
    }
    while i < items.len()
        invariant
            0 <= i <= items.len(),
            entries == items@.map_values(|e: (Vec<u8>, Vec<u8>)| (e.0@, e.1@)),
            ord@.map_values(|j: usize| entries[j as int]) == stable_sort(entries.take(i as int)),
            forall|m: int| 0 <= m < ord.len() ==> #[trigger] ord@[m] < i,
        decreases items.len() - i,
    {
        let ghost pairs = ord@.map_values(|j: usize| entries[j as int]);
        let ghost x = entries[i as int];
        let mut p: usize = 0;
        proof {
            assert(pairs.skip(0) =~= pairs);
            assert(pairs.take(0) + stable_insert(pairs, x) =~= stable_insert(pairs, x));
        }
        while p < ord.len() && !bytes_less(items[i].0.as_slice(), items[ord[p]].0.as_slice())
            invariant
                0 <= p <= ord.len(),
                i < items.len(),
                entries == items@.map_values(|e: (Vec<u8>, Vec<u8>)| (e.0@, e.1@)),
                x == entries[i as int],
                pairs == ord@.map_values(|j: usize| entries[j as int]),
                forall|m: int| 0 <= m < ord.len() ==> #[trigger] ord@[m] < i,
                forall|m: int| 0 <= m < p ==> !bytes_lt(x.0, #[trigger] pairs[m].0),
                stable_insert(pairs, x) == pairs.take(p as int) + stable_insert(
                    pairs.skip(p as int),
                    x,
                ),
            decreases ord.len() - p,
        {
            let j = ord[p];
            proof {
                assert(pairs.skip(p as int)[0] == pairs[p as int]);
                assert(pairs.skip(p as int).drop_first() =~= pairs.skip(p + 1));
                assert(pairs[p as int] == entries[j as int]);
            }
            proof {
                assert(pairs.take(p as int) + (seq![pairs[p as int]] + stable_insert(
                    pairs.skip(p + 1),
                    x,
                )) =~= pairs.take(p + 1) + stable_insert(pairs.skip(p + 1), x));
            }
            p = p + 1;
        }
        let ghost old_ord = ord@;
        ord.insert(p, i);
        proof {
            if p < old_ord.len() {
                assert(pairs[p as int] == entries[ord@[p as int + 1] as int]);
                assert(pairs.skip(p as int)[0] == pairs[p as int]);
                assert(stable_insert(pairs.skip(p as int), x) =~= seq![x] + pairs.skip(p as int));
            } else {
                assert(pairs.skip(p as int) =~= Seq::<(Seq<u8>, Seq<u8>)>::empty());
            }
            assert(ord@.map_values(|j: usize| entries[j as int]) =~= pairs.take(p as int) + (seq![
                x,
            ] + pairs.skip(p as int)));
            assert(entries.take(i + 1).drop_last() =~= entries.take(i as int));
            assert(entries.take(i + 1).last() == x);
        }
        i = i + 1;
    }
    proof {
        assert(entries.take(i as int) =~= entries);
    }
    ord
}

} // verus!
