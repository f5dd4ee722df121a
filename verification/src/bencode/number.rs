//! Decimal integers as bencode writes and reads them.

use vstd::prelude::*;

verus! {

/// Whether `b` is an ASCII decimal digit.
pub open spec fn is_digit(b: u8) -> bool {
    48 <= b <= 57
}

/// Whether every byte of `d` is a decimal digit.
pub open spec fn all_digits(d: Seq<u8>) -> bool {
    forall|i: int| 0 <= i < d.len() ==> #[trigger] is_digit(d[i])
}

/// The value of a string of decimal digits (most significant first).
pub open spec fn decimal_value(d: Seq<u8>) -> nat
    decreases d.len(),
{
    if d.len() == 0 {
        0
    } else {
        10 * decimal_value(d.drop_last()) + (d.last() - 48) as nat
    }
}

/// The shortest decimal digits of `n`: no leading zero, `0` for zero.
pub open spec fn digits_of(n: nat) -> Seq<u8>
    decreases n,
{
    if n < 10 {
        seq![(48 + n) as u8]
    } else {
        digits_of(n / 10).push((48 + n % 10) as u8)
    }
}

/// The decimal text of an integer, with `-` in front of a negative one.
pub open spec fn int_text(i: int) -> Seq<u8> {
    if i < 0 {
        seq![45u8] + digits_of((-i) as nat)
    } else {
        digits_of(i as nat)
    }
}

/// What `i64::from_str` makes of the bytes `d`: an optional `+` or `-` sign
/// followed by at least one decimal digit, with a value that fits in `i64`.
pub open spec fn spec_parse_i64(d: Seq<u8>) -> Option<i64> {
    if d.len() == 0 {
        None
    } else if d[0] == 45u8 {
        let r = d.drop_first();
        if r.len() > 0 && all_digits(r) && decimal_value(r) <= 0x8000_0000_0000_0000 {
            Some((-decimal_value(r)) as i64)
        } else {
            None
        }
    } else {
        let r = if d[0] == 43u8 { d.drop_first() } else { d };
        if r.len() > 0 && all_digits(r) && decimal_value(r) <= i64::MAX {
            Some(decimal_value(r) as i64)
        } else {
            None
        }
    }
}

/// What `usize::from_str` makes of a string that starts with a digit: a value
/// when every byte is a digit and the value fits in `usize`.
pub open spec fn spec_parse_usize(d: Seq<u8>) -> Option<usize> {
    if d.len() > 0 && all_digits(d) && decimal_value(d) <= usize::MAX {
        Some(decimal_value(d) as usize)
    } else {
        None
    }
}

/// The digits of `n` are decimal digits.
pub proof fn lemma_digits_of_all_digits(n: nat)
    ensures
        all_digits(digits_of(n)),
        digits_of(n).len() >= 1,
    decreases n,
{
    if n >= 10 {
        lemma_digits_of_all_digits(n / 10);
        let d = digits_of(n);
        assert forall|i: int| 0 <= i < d.len() implies #[trigger] is_digit(d[i]) by {
            if i < d.len() - 1 {
                assert(d[i] == digits_of(n / 10)[i]);
            }
        }
    }
}

/// Reading back the digits of `n` gives `n`.
pub proof fn lemma_decimal_of_digits(n: nat)
    ensures
        decimal_value(digits_of(n)) == n,
    decreases n,
{
    if n >= 10 {
        lemma_decimal_of_digits(n / 10);
        let d = digits_of(n);
        assert(d.drop_last() =~= digits_of(n / 10));
        assert(d.last() == (48 + n % 10) as u8);
        assert((48 + n % 10) as u8 == 48 + n % 10);
        assert(10 * (n / 10) + n % 10 == n);
        assert(decimal_value(d) == 10 * decimal_value(d.drop_last()) + (d.last() - 48) as nat);
    } else {
        let d = digits_of(n);
        assert(d.drop_last() =~= Seq::<u8>::empty());
        assert(d.last() == (48 + n) as u8);
        assert((48 + n) as u8 == 48 + n);
        assert(decimal_value(d.drop_last()) == 0);
        assert(decimal_value(d) == 10 * decimal_value(d.drop_last()) + (d.last() - 48) as nat);
    }
}

/// A longer run of digits is worth at least as much as its prefix.
pub proof fn lemma_decimal_prefix_le(d: Seq<u8>, k: int)
    requires
        0 <= k <= d.len(),
    ensures
        decimal_value(d.take(k)) <= decimal_value(d),
    decreases d.len(),
{
    if k < d.len() {
        assert(d.drop_last().take(k) =~= d.take(k));
        lemma_decimal_prefix_le(d.drop_last(), k);
    } else {
        assert(d.take(k) =~= d);
    }
}

/// Appending one digit multiplies by ten and adds the digit.
pub proof fn lemma_decimal_take_step(d: Seq<u8>, i: int)
    requires
        0 <= i < d.len(),
    ensures
        decimal_value(d.take(i + 1)) == 10 * decimal_value(d.take(i)) + (d[i] - 48) as nat,
{
    assert(d.take(i + 1).drop_last() =~= d.take(i));
}

/// The text of an `i64` reads back as that `i64`.
pub proof fn lemma_parse_int_text(i: i64)
    ensures
        spec_parse_i64(int_text(i as int)) == Some(i),
{
    if i < 0 {
        let m = (-i) as nat;
        lemma_digits_of_all_digits(m);
        lemma_decimal_of_digits(m);
        let t = int_text(i as int);
        assert(t.drop_first() =~= digits_of(m));
    } else {
        lemma_digits_of_all_digits(i as nat);
        lemma_decimal_of_digits(i as nat);
        let t = int_text(i as int);
        assert(t[0] == digits_of(i as nat)[0]);
        assert(is_digit(t[0]));
    }
}

/// The digits of a `usize` read back as that `usize`.
pub proof fn lemma_parse_usize_digits(n: usize)
    ensures
        spec_parse_usize(digits_of(n as nat)) == Some(n),
{
    lemma_digits_of_all_digits(n as nat);
    lemma_decimal_of_digits(n as nat);
}

/// Appends the decimal digits of `n` to `out`.
pub fn push_digits(n: u64, out: &mut Vec<u8>)
    ensures
        final(out)@ == old(out)@ + digits_of(n as nat),
    decreases n,
{
    if n >= 10 {
        push_digits(n / 10, out);
    }
    let d: u8 = (n % 10) as u8;
    out.push(48u8 + d);
    proof {
        if n < 10 {
            assert(digits_of(n as nat) =~= seq![(48 + n) as u8]);
        }
    }
}

/// Appends the decimal text of `i`, as `i64::to_string` writes it.
pub fn push_int(i: i64, out: &mut Vec<u8>)
    ensures
        final(out)@ == old(out)@ + int_text(i as int),
{
    if i < 0 {
        out.push(45u8);
        let m: u64 = if i == i64::MIN { 0x8000_0000_0000_0000u64 } else { (-i) as u64 };
        push_digits(m, out);
    } else {
        push_digits(i as u64, out);
    }
}

/// Reads `d` as `i64::from_str` does.
pub fn parse_i64(d: &[u8]) -> (r: Option<i64>)
    ensures
        r == spec_parse_i64(d@),
{
    if d.len() == 0 {
        return None;
    }
    let neg = d[0] == 45u8;
    let start: usize = if neg || d[0] == 43u8 { 1 } else { 0 };
    if start == d.len() {
        return None;
    }
    let ghost r = d@.skip(start as int);
    proof {
        if start == 1 {
            assert(r =~= d@.drop_first());
        } else {
            assert(r =~= d@);
        }
    }
    let mut acc: u64 = 0;
    let mut i: usize = start;
    while i < d.len()
        invariant
            start <= i <= d.len(),
            start < d.len(),
            r == d@.skip(start as int),
            d@.len() > 0,
            neg == (d@[0] == 45u8),
            start == (if neg || d@[0] == 43u8 { 1usize } else { 0usize }),
            start == 1 ==> r == d@.drop_first(),
            start == 0 ==> r == d@,
            all_digits(r.take(i - start)),
            acc == decimal_value(r.take(i - start)),
        decreases d.len() - i,
    {
        let b = d[i];
        proof {
            lemma_decimal_take_step(r, i - start);
            assert(r[i - start] == b);
        }
        if b < 48u8 || b > 57u8 {
            proof {
                assert(!is_digit(r[i - start]));
            }
            return None;
        }
        let digit: u64 = (b - 48u8) as u64;
        if acc > 1_844_674_407_370_955_161u64 || (acc == 1_844_674_407_370_955_161u64 && digit > 5) {
            proof {
                lemma_decimal_prefix_le(r, i - start + 1);
                if all_digits(r) {
                    assert(decimal_value(r) > 0x8000_0000_0000_0000);
                }
            }
            return None;
        }
        acc = acc * 10 + digit;
        i = i + 1;
        proof {
            assert forall|j: int| 0 <= j < r.take(i - start).len() implies #[trigger] is_digit(
                r.take(i - start)[j],
            ) by {
                if j < i - 1 - start {
                    assert(r.take(i - start)[j] == r.take(i - 1 - start)[j]);
                }
            }
        }
    }
    proof {
        assert(r.take(i - start) =~= r);
    }
    if neg {
        if acc > 0x8000_0000_0000_0000u64 {
            None
        } else if acc == 0x8000_0000_0000_0000u64 {
            Some(i64::MIN)
        } else {
            Some(-(acc as i64))
        }
    } else {
        if acc > 0x7fff_ffff_ffff_ffffu64 {
            None
        } else {
            Some(acc as i64)
        }
    }
}

/// Reads a string of digits as a `usize`, as `usize::from_str` does for a
/// string that starts with a digit.
pub fn parse_usize(d: &[u8]) -> (r: Option<usize>)
    ensures
        r == spec_parse_usize(d@),
{
    if d.len() == 0 {
        return None;
    }
    let mut acc: usize = 0;
    let mut i: usize = 0;
    while i < d.len()
        invariant
            0 <= i <= d.len(),
            all_digits(d@.take(i as int)),
            acc == decimal_value(d@.take(i as int)),
        decreases d.len() - i,
    {
        let b = d[i];
        proof {
            lemma_decimal_take_step(d@, i as int);
        }
        if b < 48u8 || b > 57u8 {
            proof {
                assert(!is_digit(d@[i as int]));
            }
            return None;
        }
        let digit: usize = (b - 48u8) as usize;
        if acc > (usize::MAX - digit) / 10 {
            proof {
                lemma_decimal_prefix_le(d@, i + 1);
                assert(10 * acc + digit > usize::MAX) by (nonlinear_arith)
                    requires
                        acc > (usize::MAX - digit) / 10,
                        digit <= 9,
                ;
            }
            return None;
        }
        proof {
            assert(10 * acc + digit <= usize::MAX) by (nonlinear_arith)
                requires
                    acc <= (usize::MAX - digit) / 10,
                    digit <= 9,
            ;
        }
        acc = acc * 10 + digit;
        i = i + 1;
        proof {
            assert forall|j: int| 0 <= j < d@.take(i as int).len() implies #[trigger] is_digit(
                d@.take(i as int)[j],
            ) by {
                if j < i - 1 {
                    assert(d@.take(i as int)[j] == d@.take(i - 1)[j]);
                }
            }
        }
    }
    proof {
        assert(d@.take(i as int) =~= d@);
    }
    Some(acc)
}

} // verus!
