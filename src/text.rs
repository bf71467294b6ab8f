//! Text: UTF-8 checks, hexadecimal and number formatting.

use vstd::prelude::*;
use vstd::string::{StrSliceExecFns, StringExecFns};
use vstd::utf8::{decode_utf8, valid_utf8};

verus! {

/// Relies on `std::str::from_utf8`: it accepts exactly the well-formed UTF-8
/// byte sequences and reads them as the characters they encode.
#[verifier::external_body]
pub(crate) fn utf8_text(b: &[u8]) -> (r: Option<&str>)
    ensures
        match r {
            Some(s) => valid_utf8(b@) && s@ == decode_utf8(b@),
            None => !valid_utf8(b@),
        },
{
    std::str::from_utf8(b).ok()
}

/// The character of digit `n < 16`, lower case past nine.
pub open spec fn digit_char(n: int) -> char {
    seq!['0', '1', '2', '3', '4', '5', '6', '7', '8', '9', 'a', 'b', 'c', 'd', 'e', 'f'][n]
}

/// Lower-case hexadecimal text of `b`: two digits per byte, high nibble first.
pub open spec fn hex_text(b: Seq<u8>) -> Seq<char>
    decreases b.len(),
{
    if b.len() == 0 {
        Seq::empty()
    } else {
        hex_text(b.drop_last()) + seq![digit_char(b.last() as int / 16), digit_char(b.last() as int % 16)]
    }
}

/// Hexadecimal text has two characters per byte.
pub proof fn lemma_hex_text_len(b: Seq<u8>)
    ensures
        hex_text(b).len() == 2 * b.len(),
    decreases b.len(),
{
    if b.len() > 0 {
        lemma_hex_text_len(b.drop_last());
    }
}

/// Relies on `hex::encode`: each byte becomes two lower-case hexadecimal digits,
/// high nibble first.
#[verifier::external_body]
pub(crate) fn to_hex(b: &[u8]) -> (r: String)
    ensures
        r@ == hex_text(b@),
{
    hex::encode(b)
}

/// The digits of `n` in `base`, most significant first, with no leading zero.
pub open spec fn base_digits(n: nat, base: nat) -> Seq<char>
    recommends
        2 <= base <= 16,
    decreases n,
    via base_digits_decreases
{
    if n < base || base < 2 {
        seq![digit_char(n as int)]
    } else {
        base_digits(n / base, base) + seq![digit_char((n % base) as int)]
    }
}

#[via_fn]
proof fn base_digits_decreases(n: nat, base: nat) {
    if !(n < base || base < 2) {
        assert(n / base < n) by (nonlinear_arith)
            requires
                n >= base,
                base >= 2,
        ;
    }
}

/// `s` padded on the left with zeros to at least `width` characters.
pub open spec fn zero_padded(s: Seq<char>, width: nat) -> Seq<char> {
    if s.len() >= width {
        s
    } else {
        Seq::new((width - s.len()) as nat, |i: int| '0') + s
    }
}

/// The one-character text of digit `d < 16`.
fn digit_str(d: u32) -> (r: &'static str)
    requires
        d < 16,
    ensures
        r@ == seq![digit_char(d as int)],
{
    proof {
        reveal_strlit("0");
        reveal_strlit("1");
        reveal_strlit("2");
        reveal_strlit("3");
        reveal_strlit("4");
        reveal_strlit("5");
        reveal_strlit("6");
        reveal_strlit("7");
        reveal_strlit("8");
        reveal_strlit("9");
        reveal_strlit("a");
        reveal_strlit("b");
        reveal_strlit("c");
        reveal_strlit("d");
        reveal_strlit("e");
        reveal_strlit("f");
    }
    let r = match d {
        0 => "0",
        1 => "1",
        2 => "2",
        3 => "3",
        4 => "4",
        5 => "5",
        6 => "6",
        7 => "7",
        8 => "8",
        9 => "9",
        10 => "a",
        11 => "b",
        12 => "c",
        13 => "d",
        14 => "e",
        _ => "f",
    };
    assert(r@ =~= seq![digit_char(d as int)]);
    r
}

/// The text of `n` in `base` (octal, decimal, hexadecimal and the like).
pub fn digits_text(n: u32, base: u32) -> (r: String)
    requires
        2 <= base <= 16,
    ensures
        r@ == base_digits(n as nat, base as nat),
    decreases n,
{
    if n < base {
        let r = digit_str(n).to_owned();
        r
    } else {
        assert(n / base < n) by (nonlinear_arith)
            requires
                n >= base,
                base >= 2,
        ;
        let mut r = digits_text(n / base, base);
        r.append(digit_str(n % base));
        r
    }
}

/// `s` padded on the left with zeros to at least `width` characters.
pub fn pad_zeros(s: &str, width: usize) -> (r: String)
    ensures
        r@ == zero_padded(s@, width as nat),
{
    let n = s.unicode_len();
    if n >= width {
        return s.to_owned();
    }
    let mut r = "".to_owned();
    proof {
        reveal_strlit("");
        reveal_strlit("0");
    }
    let mut k: usize = 0;
    while k < width - n
        invariant
            k <= width - n,
            n < width,
            r@ == Seq::new(k as nat, |i: int| '0'),
        decreases width - n - k,
    {
        proof {
            reveal_strlit("0");
        }
        r.append("0");
        k = k + 1;
        assert(r@ =~= Seq::new(k as nat, |i: int| '0'));
    }
    r.append(s);
    r
}

} // verus!
