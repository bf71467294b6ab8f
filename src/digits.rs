//! ASCII decimal digits: their value, and the digits of a number.

use vstd::prelude::*;

verus! {

/// Whether `b` is an ASCII decimal digit.
pub open spec fn is_digit(b: u8) -> bool {
    0x30 <= b <= 0x39
}

/// Whether every byte of `s` is an ASCII decimal digit.
pub open spec fn all_digits(s: Seq<u8>) -> bool {
    forall|i: int| 0 <= i < s.len() ==> is_digit(#[trigger] s[i])
}

/// The number that the decimal digits `s` spell, most significant first.
pub open spec fn digits_value(s: Seq<u8>) -> nat
    decreases s.len(),
{
    if s.len() == 0 {
        0
    } else {
        10 * digits_value(s.drop_last()) + (s.last() - 0x30) as nat
    }
}

/// The decimal digits of `n`, with no leading zero.
pub open spec fn decimal_digits(n: nat) -> Seq<u8>
    decreases n,
{
    if n < 10 {
        seq![(0x30 + n) as u8]
    } else {
        decimal_digits(n / 10) + seq![(0x30 + n % 10) as u8]
    }
}

/// The decimal digits of `n` are non-empty digits that spell `n` back.
pub proof fn lemma_decimal_digits(n: nat)
    ensures
        decimal_digits(n).len() > 0,
        all_digits(decimal_digits(n)),
        digits_value(decimal_digits(n)) == n,
    decreases n,
{
    let d = decimal_digits(n);
    if n >= 10 {
        lemma_decimal_digits(n / 10);
        assert(d.drop_last() =~= decimal_digits(n / 10));
        assert(d.last() == (0x30 + n % 10) as u8);
        assert(10 * (n / 10) + n % 10 == n);
        assert((d.last() - 0x30) as nat == n % 10);
        assert(digits_value(d) == 10 * digits_value(d.drop_last()) + (d.last() - 0x30) as nat);
    } else {
        assert(d.drop_last() =~= Seq::<u8>::empty());
        assert((d.last() - 0x30) as nat == n);
        assert(digits_value(d) == 10 * digits_value(d.drop_last()) + (d.last() - 0x30) as nat);
    }
}

/// Adding digits at the end never makes the value smaller.
pub proof fn lemma_digits_value_prefix(s: Seq<u8>, k: int)
    requires
        0 <= k <= s.len(),
        all_digits(s),
    ensures
        digits_value(s.subrange(0, k)) <= digits_value(s),
    decreases s.len(),
{
    if k < s.len() {
        let t = s.drop_last();
        assert(t.subrange(0, k) =~= s.subrange(0, k));
        lemma_digits_value_prefix(t, k);
    } else {
        assert(s.subrange(0, k) =~= s);
    }
}

/// Decimal text of `n`.
pub fn decimal_bytes(n: u64) -> (r: Vec<u8>)
    ensures
        r@ == decimal_digits(n as nat),
    decreases n,
{
    if n < 10 {
        let mut v: Vec<u8> = Vec::new();
        v.push(0x30 + n as u8);
        assert(v@ =~= decimal_digits(n as nat));
        v
    } else {
        let mut v = decimal_bytes(n / 10);
        v.push(0x30 + (n % 10) as u8);
        assert(v@ =~= decimal_digits(n as nat));
        v
    }
}

/// The value of the decimal digits `s[from..to]` when they are non-empty,
/// all digits, and fit in `u32`; `None` otherwise.
pub fn parse_u32_digits(s: &[u8], from: usize, to: usize) -> (r: Option<u32>)
    requires
        from <= to <= s@.len(),
    ensures
        ({
            let d = s@.subrange(from as int, to as int);
            if d.len() > 0 && all_digits(d) && digits_value(d) <= u32::MAX {
                r == Some(digits_value(d) as u32)
            } else {
                r is None
            }
        }),
{
    let ghost d = s@.subrange(from as int, to as int);
    if from == to {
        return None;
    }
    let mut acc: u64 = 0;
    let mut i: usize = from;
    while i < to
        invariant
            from <= i <= to <= s@.len(),
            d == s@.subrange(from as int, to as int),
            all_digits(s@.subrange(from as int, i as int)),
            acc == digits_value(s@.subrange(from as int, i as int)),
            acc <= u32::MAX,
        decreases to - i,
    {
        let b = s[i];
        let ghost p = s@.subrange(from as int, i as int);
        let ghost q = s@.subrange(from as int, i + 1);
        assert(q.drop_last() =~= p);
        if b < 0x30 || b > 0x39 {
            assert(!is_digit(d[i - from]));
            return None;
        }
        acc = acc * 10 + (b - 0x30) as u64;
        i = i + 1;
        if acc > 0xffff_ffff {
            proof {
                assert(d.subrange(0, i - from) =~= q);
                if all_digits(d) {
                    lemma_digits_value_prefix(d, i - from);
                }
            }
            return None;
        }
    }
    assert(s@.subrange(from as int, i as int) =~= d);
    Some(acc as u32)
}

/// Whether `s[from..to]` is a non-empty run of decimal digits spelling `n`.
pub fn digits_spell(s: &[u8], from: usize, to: usize, n: usize) -> (r: bool)
    requires
        from <= to <= s@.len(),
    ensures
        r == ({
            let d = s@.subrange(from as int, to as int);
            d.len() > 0 && all_digits(d) && digits_value(d) == n
        }),
{
    let ghost d = s@.subrange(from as int, to as int);
    if from == to {
        return false;
    }
    let mut acc: u128 = 0;
    let mut i: usize = from;
    while i < to
        invariant
            from <= i <= to <= s@.len(),
            d == s@.subrange(from as int, to as int),
            all_digits(s@.subrange(from as int, i as int)),
            acc == digits_value(s@.subrange(from as int, i as int)),
            acc <= n,
        decreases to - i,
    {
        let b = s[i];
        let ghost p = s@.subrange(from as int, i as int);
        let ghost q = s@.subrange(from as int, i + 1);
        assert(q.drop_last() =~= p);
        if b < 0x30 || b > 0x39 {
            assert(!is_digit(d[i - from]));
            return false;
        }
        acc = acc * 10 + (b - 0x30) as u128;
        i = i + 1;
        if acc > n as u128 {
            proof {
                assert(d.subrange(0, i - from) =~= q);
                if all_digits(d) {
                    lemma_digits_value_prefix(d, i - from);
                }
            }
            return false;
        }
    }
    assert(s@.subrange(from as int, i as int) =~= d);
    acc == n as u128
}

} // verus!
