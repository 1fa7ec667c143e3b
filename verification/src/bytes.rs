//! Big-endian byte strings as natural numbers.
//!
//! Scalars travel through the interchange format as fixed-width big-endian
//! byte strings. `be_nat` is the value such a string denotes and `be_bytes`
//! is the canonical fixed-width encoding of a value; the lemmas here make the
//! two inverse to each other, which is what pins scalar bytes down uniquely.

use vstd::prelude::*;
use vstd::arithmetic::power::pow;
use vstd::arithmetic::div_mod::lemma_fundamental_div_mod_converse;
use vstd::arithmetic::div_mod::lemma_multiply_divide_lt;

verus! {

/// The natural number denoted by a big-endian byte string.
pub open spec fn be_nat(b: Seq<u8>) -> nat
    decreases b.len(),
{
    if b.len() == 0 {
        0
    } else {
        be_nat(b.drop_last()) * 256 + b.last() as nat
    }
}

/// The big-endian encoding of `v` into exactly `len` bytes
/// (high bytes of `v` beyond `len` are cut off).
pub open spec fn be_bytes(v: nat, len: nat) -> Seq<u8>
    decreases len,
{
    if len == 0 {
        seq![]
    } else {
        be_bytes(v / 256, (len - 1) as nat).push((v % 256) as u8)
    }
}

pub proof fn lemma_be_bytes_len(v: nat, len: nat)
    ensures
        be_bytes(v, len).len() == len,
    decreases len,
{
    if len > 0 {
        lemma_be_bytes_len(v / 256, (len - 1) as nat);
    }
}

/// Encoding a string's value at its own width gives the string back.
pub proof fn lemma_be_bytes_be_nat(b: Seq<u8>)
    ensures
        be_bytes(be_nat(b), b.len()) == b,
    decreases b.len(),
{
    if b.len() > 0 {
        let p = be_nat(b.drop_last());
        let v = be_nat(b);
        lemma_fundamental_div_mod_converse(v as int, 256, p as int, b.last() as int);
        lemma_be_bytes_be_nat(b.drop_last());
        assert(be_bytes(v, b.len()) =~= b);
    }
}

/// A value below `256^len` is recovered from its `len`-byte encoding.
pub proof fn lemma_be_nat_be_bytes(v: nat, len: nat)
    requires
        v < pow(256, len),
    ensures
        be_nat(be_bytes(v, len)) == v,
    decreases len,
{
    reveal(pow);
    if len == 0 {
        assert(pow(256, 0) == 1);
    } else {
        assert(pow(256, len) == 256 * pow(256, (len - 1) as nat));
        lemma_multiply_divide_lt(v as int, 256, pow(256, (len - 1) as nat));
        lemma_be_nat_be_bytes(v / 256, (len - 1) as nat);
        let s = be_bytes(v / 256, (len - 1) as nat);
        assert(be_bytes(v, len) == s.push((v % 256) as u8));
        assert(s.push((v % 256) as u8).drop_last() == s);
        vstd::arithmetic::div_mod::lemma_fundamental_div_mod(v as int, 256);
    }
}

} // verus!
