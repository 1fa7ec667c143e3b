//! Hexadecimal text, specified character by character.
//!
//! The interchange format carries scalars and points as hex strings. These
//! spec functions define what a hex string denotes; the executable codec in
//! `codec` is verified against them directly, so nothing about hex handling
//! is trusted.

use vstd::prelude::*;

verus! {

pub open spec fn is_hex_digit(c: char) -> bool {
    ('0' <= c && c <= '9') || ('a' <= c && c <= 'f') || ('A' <= c && c <= 'F')
}

/// Value of one hex digit.
pub open spec fn hex_char_val(c: char) -> nat {
    if '0' <= c && c <= '9' {
        (c as nat - '0' as nat) as nat
    } else if 'a' <= c && c <= 'f' {
        (c as nat - 'a' as nat + 10) as nat
    } else if 'A' <= c && c <= 'F' {
        (c as nat - 'A' as nat + 10) as nat
    } else {
        0
    }
}

/// Lowercase digit for a value below 16.
pub open spec fn hex_digit_char(v: nat) -> char {
    if v == 0 { '0' } else if v == 1 { '1' } else if v == 2 { '2' }
    else if v == 3 { '3' } else if v == 4 { '4' } else if v == 5 { '5' }
    else if v == 6 { '6' } else if v == 7 { '7' } else if v == 8 { '8' }
    else if v == 9 { '9' } else if v == 10 { 'a' } else if v == 11 { 'b' }
    else if v == 12 { 'c' } else if v == 13 { 'd' } else if v == 14 { 'e' }
    else { 'f' }
}

pub open spec fn all_hex(s: Seq<char>) -> bool {
    forall|i: int| 0 <= i < s.len() ==> is_hex_digit(#[trigger] s[i])
}

/// The natural number denoted by a big-endian string of hex digits.
pub open spec fn hex_val_of(s: Seq<char>) -> nat
    decreases s.len(),
{
    if s.len() == 0 {
        0
    } else {
        hex_val_of(s.drop_last()) * 16 + hex_char_val(s.last())
    }
}

/// Lowercase, two digits per byte, high nibble first.
pub open spec fn hex_of_bytes(b: Seq<u8>) -> Seq<char>
    decreases b.len(),
{
    if b.len() == 0 {
        seq![]
    } else {
        hex_of_bytes(b.drop_last())
            + seq![
            hex_digit_char((b.last() / 16) as nat),
            hex_digit_char((b.last() % 16) as nat),
        ]
    }
}

/// The byte string denoted by an even-length string of hex digits.
pub open spec fn bytes_of_hex_even(d: Seq<char>) -> Seq<u8>
    decreases d.len(),
{
    if d.len() < 2 {
        seq![]
    } else {
        bytes_of_hex_even(d.take(d.len() - 2)).push(
            (hex_char_val(d[d.len() - 2]) * 16 + hex_char_val(d[d.len() - 1])) as u8,
        )
    }
}

/// The byte string denoted by hex digits, a zero digit prepended when their
/// number is odd.
pub open spec fn bytes_of_hex(d: Seq<char>) -> Seq<u8> {
    if d.len() % 2 == 1 {
        bytes_of_hex_even(seq!['0'] + d)
    } else {
        bytes_of_hex_even(d)
    }
}

pub proof fn lemma_hex_digit_char_val(v: nat)
    requires
        v < 16,
    ensures
        is_hex_digit(hex_digit_char(v)),
        hex_char_val(hex_digit_char(v)) == v,
        '0' <= hex_digit_char(v),
        hex_digit_char(v) <= 'f',
{
}

/// A leading zero digit does not change the denoted value.
pub proof fn lemma_hex_val_zero_front(s: Seq<char>)
    ensures
        hex_val_of(seq!['0'] + s) == hex_val_of(s),
    decreases s.len(),
{
    if s.len() == 0 {
        assert(seq!['0'] + s =~= seq!['0']);
        let z = seq!['0'];
        assert(z.len() == 1);
        assert(z.drop_last() =~= Seq::<char>::empty());
        assert(z.last() == '0');
        assert(hex_val_of(z) == hex_val_of(z.drop_last()) * 16 + hex_char_val(z.last()));
        assert(hex_char_val('0') == 0);
    } else {
        let t = seq!['0'] + s;
        assert(t.drop_last() =~= seq!['0'] + s.drop_last());
        assert(t.last() == s.last());
        lemma_hex_val_zero_front(s.drop_last());
    }
}

/// The hex encoding of a byte string denotes the same number the bytes do.
pub proof fn lemma_hex_of_bytes_val(b: Seq<u8>)
    ensures
        hex_of_bytes(b).len() == 2 * b.len(),
        all_hex(hex_of_bytes(b)),
        hex_val_of(hex_of_bytes(b)) == crate::bytes::be_nat(b),
    decreases b.len(),
{
    if b.len() > 0 {
        lemma_hex_of_bytes_val(b.drop_last());
        let p = hex_of_bytes(b.drop_last());
        let hi = hex_digit_char((b.last() / 16) as nat);
        let lo = hex_digit_char((b.last() % 16) as nat);
        let w = p + seq![hi, lo];
        assert(b.last() / 16 < 16 && b.last() % 16 < 16) by {
            assert(b.last() < 256);
        }
        lemma_hex_digit_char_val((b.last() / 16) as nat);
        lemma_hex_digit_char_val((b.last() % 16) as nat);
        assert(w.drop_last() =~= p.push(hi));
        assert(w.last() == lo);
        assert(p.push(hi).drop_last() =~= p);
        assert(p.push(hi).last() == hi);
        assert(hex_val_of(w) == hex_val_of(p.push(hi)) * 16 + hex_char_val(lo));
        assert(hex_val_of(p.push(hi)) == hex_val_of(p) * 16 + hex_char_val(hi));
        assert(hex_val_of(w) == (hex_val_of(p) * 16 + b.last() / 16) * 16 + b.last() % 16);
        assert((b.last() / 16) * 16 + b.last() % 16 == b.last()) by {
            vstd::arithmetic::div_mod::lemma_fundamental_div_mod(b.last() as int, 16);
        }
        assert forall|i: int| 0 <= i < w.len() implies is_hex_digit(#[trigger] w[i]) by {
            if i < p.len() {
                assert(w[i] == p[i]);
            }
        }
    }
}

} // verus!
