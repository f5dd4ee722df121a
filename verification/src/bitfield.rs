//! Bitfields: which pieces a client or a peer has, one bit per piece, most
//! significant bit first in each byte.

use vstd::prelude::*;
use bitvec::order::Msb0;
use bitvec::vec::BitVec;

verus! {

/// A bitfield, held in a `bitvec` bit-vector of bytes in `Msb0` order.
#[verifier::external_body]
#[derive(Debug, PartialEq, Eq)]
pub struct Bitfield {
    bits: BitVec<u8, Msb0>,
}

impl Clone for Bitfield {
    /// A copy of the bitfield.
    ///
    /// Trusted: calls `BitVec::clone`, which copies the bits.
    #[verifier::external_body]
    fn clone(&self) -> (r: Self)
        ensures
            bitfield_bits(r) == bitfield_bits(*self),
    {
        Bitfield { bits: self.bits.clone() }
    }
}

/// The bits a bitfield holds.
pub uninterp spec fn bitfield_bits(b: Bitfield) -> Seq<bool>;

impl View for Bitfield {
    type V = Seq<bool>;

    open spec fn view(&self) -> Seq<bool> {
        bitfield_bits(*self)
    }
}

/// Bit `i` of `bytes`, counting from the most significant bit of byte 0.
pub open spec fn msb0_bit(bytes: Seq<u8>, i: int) -> bool {
    (bytes[i / 8] >> ((7 - i % 8) as u8)) & 1u8 == 1u8
}

/// The bits of `bytes`, most significant first in each byte.
pub open spec fn msb0_bits(bytes: Seq<u8>) -> Seq<bool> {
    Seq::new(bytes.len() * 8, |i: int| msb0_bit(bytes, i))
}

/// Largest number of bits a bitfield can hold (`BitSlice::MAX_BITS` for `u8`).
pub open spec fn max_bits() -> int {
    (usize::MAX / 8) as int
}

impl Bitfield {
    /// `len` copies of `bit`.
    ///
    /// Trusted: calls `BitVec::repeat`, which panics only above `MAX_BITS`.
    #[verifier::external_body]
    pub fn repeat(bit: bool, len: usize) -> (r: Self)
        requires
            len <= max_bits(),
        ensures
            bitfield_bits(r) == Seq::new(len as nat, |i: int| bit),
    {
        Bitfield { bits: BitVec::repeat(bit, len) }
    }

    /// The bits of `bytes`, eight per byte, most significant first.
    ///
    /// Trusted: calls `BitVec::from_vec`, which spans every bit of the bytes
    /// in `Msb0` order and panics only above `MAX_BITS`.
    #[verifier::external_body]
    pub fn from_vec(bytes: Vec<u8>) -> (r: Self)
        requires
            bytes@.len() * 8 <= max_bits(),
        ensures
            bitfield_bits(r) == msb0_bits(bytes@),
    {
        Bitfield { bits: BitVec::from_vec(bytes) }
    }

    /// Number of bits.
    ///
    /// Trusted: calls `BitVec::len`.
    #[verifier::external_body]
    pub fn len(&self) -> (n: usize)
        ensures
            n == bitfield_bits(*self).len(),
    {
        self.bits.len()
    }

    /// Bit `i`.
    ///
    /// Trusted: indexes the `BitVec`, which panics out of bounds.
    #[verifier::external_body]
    pub fn get(&self, i: usize) -> (b: bool)
        requires
            i < bitfield_bits(*self).len(),
        ensures
            b == bitfield_bits(*self)[i as int],
    {
        self.bits[i]
    }

    /// Sets bit `i` to `value`.
    ///
    /// Trusted: calls `BitSlice::set`, which panics out of bounds.
    #[verifier::external_body]
    pub fn set(&mut self, i: usize, value: bool)
        requires
            i < bitfield_bits(*old(self)).len(),
        ensures
            bitfield_bits(*final(self)) == bitfield_bits(*old(self)).update(i as int, value),
    {
        self.bits.set(i, value)
    }

    /// Truncates to `new_len` bits, or extends with copies of `value`.
    ///
    /// Trusted: calls `BitVec::resize`, which panics only above `MAX_BITS`.
    #[verifier::external_body]
    pub fn resize(&mut self, new_len: usize, value: bool)
        requires
            new_len <= max_bits(),
        ensures
            bitfield_bits(*final(self)) == if new_len <= bitfield_bits(*old(self)).len() {
                bitfield_bits(*old(self)).take(new_len as int)
            } else {
                bitfield_bits(*old(self)) + Seq::new((new_len - bitfield_bits(*old(self)).len()) as nat, |i: int| value)
            },
    {
        self.bits.resize(new_len, value)
    }

    /// The bytes holding the bits; bits past the end in the last byte are
    /// not stated.
    ///
    /// Trusted: copies `BitVec::as_raw_slice`, the memory elements that hold
    /// the live bits in `Msb0` order.
    #[verifier::external_body]
    pub fn to_raw_vec(&self) -> (r: Vec<u8>)
        ensures
            r@.len() == (bitfield_bits(*self).len() + 7) / 8,
            forall|i: int| 0 <= i < bitfield_bits(*self).len() ==> #[trigger] msb0_bit(r@, i) == bitfield_bits(*self)[i],
    {
        self.bits.as_raw_slice().to_vec()
    }

    /// A bitfield with no bits.
    pub fn new() -> (r: Self)
        ensures
            r@ == Seq::<bool>::empty(),
    {
        let r = Bitfield::repeat(false, 0);
        proof {
            assert(r@ =~= Seq::<bool>::empty());
        }
        r
    }

    /// Number of set bits.
    pub fn count_ones(&self) -> (n: usize)
        ensures
            n == count_true(self@),
    {
        let len = self.len();
        let mut n: usize = 0;
        let mut i: usize = 0;
        while i < len
            invariant
                0 <= i <= len,
                len == self@.len(),
                n == count_true(self@.take(i as int)),
                n <= i,
            decreases len - i,
        {
            proof {
                assert(self@.take(i + 1).drop_last() =~= self@.take(i as int));
            }
            if self.get(i) {
                n = n + 1;
            }
            i = i + 1;
        }
        proof {
            assert(self@.take(i as int) =~= self@);
        }
        n
    }

    /// Number of clear bits.
    pub fn count_zeros(&self) -> (n: usize)
        ensures
            n == self@.len() - count_true(self@),
    {
        let ones = self.count_ones();
        proof {
            lemma_count_true_le(self@);
        }
        self.len() - ones
    }

    /// Whether every bit is set.
    pub fn all(&self) -> (r: bool)
        ensures
            r == (forall|i: int| 0 <= i < self@.len() ==> #[trigger] self@[i]),
    {
        let len = self.len();
        let mut i: usize = 0;
        while i < len
            invariant
                0 <= i <= len,
                len == self@.len(),
                forall|k: int| 0 <= k < i ==> #[trigger] self@[k],
            decreases len - i,
        {
            if !self.get(i) {
                return false;
            }
            i = i + 1;
        }
        true
    }

    /// Whether no bit is set.
    pub fn not_any(&self) -> (r: bool)
        ensures
            r == (forall|i: int| 0 <= i < self@.len() ==> !#[trigger] self@[i]),
    {
        let len = self.len();
        let mut i: usize = 0;
        while i < len
            invariant
                0 <= i <= len,
                len == self@.len(),
                forall|k: int| 0 <= k < i ==> !#[trigger] self@[k],
            decreases len - i,
        {
            if self.get(i) {
                return false;
            }
            i = i + 1;
        }
        true
    }

    /// Whether some bit is set.
    pub fn any(&self) -> (r: bool)
        ensures
            r == (exists|i: int| 0 <= i < self@.len() && #[trigger] self@[i]),
    {
        !self.not_any()
    }
}

/// Number of `true` bits.
pub open spec fn count_true(s: Seq<bool>) -> nat
    decreases s.len(),
{
    if s.len() == 0 {
        0
    } else {
        count_true(s.drop_last()) + if s.last() { 1nat } else { 0nat }
    }
}

pub proof fn lemma_count_true_le(s: Seq<bool>)
    ensures
        count_true(s) <= s.len(),
    decreases s.len(),
{
    if s.len() > 0 {
        lemma_count_true_le(s.drop_last());
    }
}

/// Setting a clear bit counts one more.
pub proof fn lemma_count_true_set(s: Seq<bool>, i: int)
    requires
        0 <= i < s.len(),
        !s[i],
    ensures
        count_true(s.update(i, true)) == count_true(s) + 1,
    decreases s.len(),
{
    let t = s.update(i, true);
    if i < s.len() - 1 {
        assert(t.drop_last() =~= s.drop_last().update(i, true));
        lemma_count_true_set(s.drop_last(), i);
    } else {
        assert(t.drop_last() =~= s.drop_last());
    }
}

/// Fewer set bits than bits where one is clear.
pub proof fn lemma_count_true_lt(s: Seq<bool>, i: int)
    requires
        0 <= i < s.len(),
        !s[i],
    ensures
        count_true(s) < s.len(),
{
    lemma_count_true_set(s, i);
    lemma_count_true_le(s.update(i, true));
}

/// Every bit is set exactly where the set bits are as many as the bits.
pub proof fn lemma_count_true_full(s: Seq<bool>)
    ensures
        count_true(s) == s.len() <==> forall|k: int| 0 <= k < s.len() ==> s[k],
    decreases s.len(),
{
    if s.len() > 0 {
        lemma_count_true_full(s.drop_last());
        lemma_count_true_le(s.drop_last());
        if forall|k: int| 0 <= k < s.len() ==> s[k] {
            assert forall|k: int| 0 <= k < s.drop_last().len() implies s.drop_last()[k] by {
                assert(s[k]);
            }
        }
        if count_true(s) == s.len() {
            assert forall|k: int| 0 <= k < s.len() implies s[k] by {
                if k < s.len() - 1 {
                    assert(s.drop_last()[k] == s[k]);
                }
            }
        }
    }
}

} // verus!
