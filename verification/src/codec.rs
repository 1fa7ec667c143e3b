//! The scalar/point codec and the hex-string utilities.
//!
//! Scalars cross the interchange boundary as fixed-width, zero-padded,
//! lowercase hex with no prefix; inputs may carry one optional `0x` prefix.
//! Everything here is verified against the spec functions in `hexstr` and
//! `bytes`; only the canonicity test of the curve library is trusted.

use vstd::prelude::*;
use vstd::string::StrSliceExecFns;
use vstd::string::StringExecFns;
use vstd::arithmetic::power::pow;
use crate::bytes::be_nat;
use crate::bytes::be_bytes;
use crate::bytes::lemma_be_bytes_len;
use crate::bytes::lemma_be_nat_be_bytes;
use crate::error::BridgeError;
use crate::hexstr::all_hex;
use crate::hexstr::hex_char_val;
use crate::hexstr::hex_digit_char;
use crate::hexstr::hex_of_bytes;
use crate::hexstr::hex_val_of;
use crate::hexstr::is_hex_digit;
use crate::hexstr::lemma_hex_of_bytes_val;
use crate::hexstr::lemma_hex_val_zero_front;
use crate::hexstr::bytes_of_hex;
use crate::hexstr::bytes_of_hex_even;
use crate::point::is_point_encoding;
use crate::point::point_log;
use crate::point::point_encoding;
use crate::point::point_from_bytes;
use crate::point::point_to_bytes;
use crate::scalar::group_order;
use crate::scalar::scalar_from_be_bytes;
use crate::scalar::Scalar;

verus! {

/// Relies on `String::push`: appends exactly one character.
#[verifier::external_body]
fn string_push(s: &mut String, c: char)
    ensures
        final(s)@ == old(s)@.push(c),
{
    s.push(c);
}

/// One leading `0x`, as accepted on input.
pub open spec fn has_hex_prefix(s: Seq<char>) -> bool {
    s.len() >= 2 && s[0] == '0' && s[1] == 'x'
}

/// The digits of a scalar string: the input with one optional prefix removed.
pub open spec fn hex_digits_of(s: Seq<char>) -> Seq<char> {
    if has_hex_prefix(s) {
        s.skip(2)
    } else {
        s
    }
}

/// The canonical encoding of a scalar value: 64 lowercase hex digits.
pub open spec fn scalar_hex(v: nat) -> Seq<char> {
    hex_of_bytes(be_bytes(v, 32))
}

/// Whether a string parses as a scalar: hex digits denoting a canonical
/// field element of at most the field's width.
pub open spec fn scalar_str_ok(s: Seq<char>) -> bool {
    let d = hex_digits_of(s);
    all_hex(d) && d.len() <= 64 && hex_val_of(d) < group_order()
}

/// The field element a scalar string denotes.
pub open spec fn scalar_str_val(s: Seq<char>) -> nat {
    hex_val_of(hex_digits_of(s))
}

/// The error `decode_scalar` reports for a string that does not parse.
pub open spec fn scalar_str_err(s: Seq<char>) -> BridgeError {
    let d = hex_digits_of(s);
    if !all_hex(d) {
        BridgeError::MalformedHex
    } else if d.len() > 64 {
        BridgeError::ScalarTooLong
    } else {
        BridgeError::NonCanonicalScalar
    }
}

/// The `0x` prefix repeatedly removed, as `strip_0x` does.
pub open spec fn spec_strip_0x(s: Seq<char>) -> Seq<char>
    decreases s.len(),
{
    if s.len() >= 2 && s[0] == '0' && s[1] == 'x' {
        spec_strip_0x(s.skip(2))
    } else {
        s
    }
}

/// Removes every leading `0x` from a hex string.
pub fn strip_0x<'a>(s: &'a str) -> (r: &'a str)
    ensures
        r@ == spec_strip_0x(s@),
{
    let len = s.unicode_len();
    let mut k: usize = 0;
    proof {
        assert(s@.skip(0) =~= s@);
    }
    while len >= 2 && k <= len - 2 && s.get_char(k) == '0' && s.get_char(k + 1) == 'x'
        invariant
            len == s@.len(),
            k <= len,
            spec_strip_0x(s@) == spec_strip_0x(s@.skip(k as int)),
        decreases len - k,
    {
        proof {
            assert(s@.skip(k as int).len() >= 2);
            assert(s@.skip(k as int)[0] == s@[k as int]);
            assert(s@.skip(k as int)[1] == s@[k as int + 1]);
            assert(s@.skip(k as int).skip(2) =~= s@.skip(k as int + 2));
        }
        k += 2;
    }
    proof {
        let rest = s@.skip(k as int);
        if rest.len() >= 2 {
            assert(rest[0] == s@[k as int]);
            assert(rest[1] == s@[k as int + 1]);
        }
        assert(spec_strip_0x(rest) == rest);
    }
    s.substring_char(k, len)
}

/// Prefixes `0x` unless it is already there; used only at the external
/// library boundary, never by the codec's own output.
pub fn ensure_0x(s: &str) -> (r: String)
    ensures
        r@ == if has_hex_prefix(s@) {
            s@
        } else {
            seq!['0', 'x'] + s@
        },
{
    let len = s.unicode_len();
    if len >= 2 && s.get_char(0) == '0' && s.get_char(1) == 'x' {
        s.to_owned()
    } else {
        proof {
            reveal_strlit("0x");
            assert(("0x")@ =~= seq!['0', 'x']);
        }
        let mut r = String::from_str("0x");
        r.append(s);
        r
    }
}

/// Prepends one zero digit when the string's length is odd, so that it
/// splits into whole bytes.
pub fn pad_hex(s: String) -> (r: String)
    ensures
        r@ == if s@.len() % 2 == 1 {
            seq!['0'] + s@
        } else {
            s@
        },
{
    let len = s.as_str().unicode_len();
    if len % 2 == 1 {
        proof {
            reveal_strlit("0");
            assert(("0")@ =~= seq!['0']);
        }
        let mut r = String::from_str("0");
        r.append(s.as_str());
        r
    } else {
        s
    }
}

/// Shortens a long hex string for display: ten characters from either end
/// around an ellipsis.
pub fn truncate_hex(hex: &str) -> (r: String)
    ensures
        r@ == if hex@.len() <= 20 {
            hex@
        } else {
            hex@.take(10) + seq!['.', '.', '.'] + hex@.skip(hex@.len() - 10)
        },
{
    let len = hex.unicode_len();
    if len <= 20 {
        hex.to_owned()
    } else {
        proof {
            reveal_strlit("...");
            assert(("...")@ =~= seq!['.', '.', '.']);
        }
        let head = hex.substring_char(0, 10);
        let tail = hex.substring_char(len - 10, len);
        let mut r = head.to_owned();
        r.append("...");
        r.append(tail);
        proof {
            assert(hex@.subrange(0, 10) =~= hex@.take(10));
            assert(hex@.subrange(len - 10, len as int) =~= hex@.skip(hex@.len() - 10));
        }
        r
    }
}

/// The character for a nibble, lowercase.
fn hex_char_of(v: u8) -> (c: char)
    requires
        v < 16,
    ensures
        c == hex_digit_char(v as nat),
{
    match v {
        0 => '0',
        1 => '1',
        2 => '2',
        3 => '3',
        4 => '4',
        5 => '5',
        6 => '6',
        7 => '7',
        8 => '8',
        9 => '9',
        10 => 'a',
        11 => 'b',
        12 => 'c',
        13 => 'd',
        14 => 'e',
        _ => 'f',
    }
}

/// Lowercase hex, two digits per byte.
fn hex_of_byte_vec(b: &Vec<u8>) -> (r: String)
    ensures
        r@ == hex_of_bytes(b@),
{
    let mut r = String::new();
    proof {
        assert(b@.take(0) =~= Seq::<u8>::empty());
    }
    let n = b.len();
    for i in 0..n
        invariant
            n == b@.len(),
            r@ == hex_of_bytes(b@.take(i as int)),
    {
        let by = b[i];
        proof {
            assert(by / 16 < 16 && by % 16 < 16) by {
                assert(by < 256);
            }
        }
        let hi = hex_char_of(by / 16);
        let lo = hex_char_of(by % 16);
        string_push(&mut r, hi);
        string_push(&mut r, lo);
        proof {
            let t1 = b@.take(i + 1);
            assert(t1.drop_last() =~= b@.take(i as int));
            assert(t1.last() == by);
            assert(r@ =~= hex_of_bytes(b@.take(i as int)) + seq![
                hex_digit_char((by / 16) as nat),
                hex_digit_char((by % 16) as nat),
            ]);
        }
    }
    proof {
        assert(b@.take(n as int) =~= b@);
    }
    r
}

/// Emits the fixed-width, zero-padded, lowercase hex encoding of a scalar,
/// with no prefix.
pub fn encode_scalar(s: &Scalar) -> (r: String)
    requires
        s.wf(),
    ensures
        r@ == scalar_hex(s@),
        r@.len() == 64,
        all_hex(r@),
{
    let bs = s.byte_vec();
    let r = hex_of_byte_vec(bs);
    proof {
        crate::scalar::lemma_scalar_bytes(s);
        lemma_hex_of_bytes_val(bs@);
    }
    r
}

/// The canonical hex encoding of the point `v·G`: its compressed SEC1 form
/// in lowercase hex.
pub open spec fn point_hex(v: nat) -> Seq<char> {
    hex_of_bytes(point_encoding(v))
}

/// Emits the compressed SEC1 form of a point as lowercase hex.
pub fn encode_point(p: &k256::ProjectivePoint) -> (r: String)
    ensures
        r@ == point_hex(point_log(*p)),
        all_hex(r@),
        point_log(*p) != 0 ==> r@.len() == 66,
{
    let bytes = point_to_bytes(p);
    let r = hex_of_byte_vec(&bytes);
    proof {
        lemma_hex_of_bytes_val(bytes@);
    }
    r
}

/// The digit value of a hex character, or `None` for anything else.
fn hex_val_of_char(c: char) -> (r: Option<u8>)
    ensures
        r is Some <==> is_hex_digit(c),
        r matches Some(v) ==> v < 16 && v as nat == hex_char_val(c),
{
    match c {
        '0' => Some(0),
        '1' => Some(1),
        '2' => Some(2),
        '3' => Some(3),
        '4' => Some(4),
        '5' => Some(5),
        '6' => Some(6),
        '7' => Some(7),
        '8' => Some(8),
        '9' => Some(9),
        'a' => Some(10),
        'b' => Some(11),
        'c' => Some(12),
        'd' => Some(13),
        'e' => Some(14),
        'f' => Some(15),
        'A' => Some(10),
        'B' => Some(11),
        'C' => Some(12),
        'D' => Some(13),
        'E' => Some(14),
        'F' => Some(15),
        _ => None,
    }
}

/// Parses a hex string into a scalar.
///
/// One `0x` prefix is accepted; an odd number of digits is read as if a zero
/// digit were prepended. Fails with `MalformedHex` on any non-hex character,
/// with `ScalarTooLong` when the digits denote more than the field's 32-byte
/// width, and with `NonCanonicalScalar` when the value is not below the
/// group order.
#[verifier::rlimit(100)]
pub fn decode_scalar(h: &str) -> (r: Result<Scalar, BridgeError>)
    ensures
        ({
            let d = hex_digits_of(h@);
            &&& (!all_hex(d) ==> r == Err::<Scalar, BridgeError>(BridgeError::MalformedHex))
            &&& (all_hex(d) && d.len() > 64 ==> r == Err::<Scalar, BridgeError>(
                BridgeError::ScalarTooLong,
            ))
            &&& (all_hex(d) && d.len() <= 64 && hex_val_of(d) >= group_order() ==> r
                == Err::<Scalar, BridgeError>(BridgeError::NonCanonicalScalar))
            &&& (all_hex(d) && d.len() <= 64 && hex_val_of(d) < group_order() ==> {
                &&& r matches Ok(s)
                &&& s.wf()
                &&& s@ == hex_val_of(d)
            })
        }),
{
    let ghost d = hex_digits_of(h@);
    let len = h.unicode_len();
    let start: usize = if len >= 2 && h.get_char(0) == '0' && h.get_char(1) == 'x' {
        2
    } else {
        0
    };
    proof {
        assert(d =~= h@.skip(start as int));
    }

    // 1. Validate the digits and read their values.
    let mut nibs: Vec<u8> = Vec::new();
    for i in start..len
        invariant
            len == h@.len(),
            start <= i <= len,
            d == h@.skip(start as int),
            d == hex_digits_of(h@),
            nibs@.len() == i - start,
            forall|k: int| #![trigger nibs@[k]] #![trigger d[k]]
                0 <= k < nibs@.len() ==> {
                    &&& is_hex_digit(d[k])
                    &&& nibs@[k] < 16
                    &&& nibs@[k] as nat == hex_char_val(d[k])
                },
    {
        let c = h.get_char(i);
        proof {
            assert(d[i - start] == h@[i as int]);
        }
        let ghost nibs_before = nibs@;
        match hex_val_of_char(c) {
            Some(v) => {
                nibs.push(v);
                proof {
                    assert forall|k: int| #![trigger nibs@[k]] #![trigger d[k]]
                        0 <= k < nibs@.len() implies {
                        &&& is_hex_digit(d[k])
                        &&& nibs@[k] < 16
                        &&& nibs@[k] as nat == hex_char_val(d[k])
                    } by {
                        if k < nibs@.len() - 1 {
                            assert(nibs@[k] == nibs_before[k]);
                        } else {
                            assert(nibs@[k] == v);
                            assert(d[k] == h@[i as int]);
                        }
                    }
                }
            },
            None => {
                proof {
                    assert(!is_hex_digit(d[i - start]));
                    assert(!all_hex(d));
                }
                return Err(BridgeError::MalformedHex);
            },
        }
    }
    proof {
        assert(d.len() == len - start);
        assert(all_hex(d));
    }

    // 2. Reject digits beyond the field's byte width.
    if len - start > 64 {
        return Err(BridgeError::ScalarTooLong);
    }

    // 3. Pad to whole bytes.
    let ghost d2: Seq<char> = if d.len() % 2 == 1 {
        seq!['0'] + d
    } else {
        d
    };
    let ghost nibs0 = nibs@;
    if nibs.len() % 2 == 1 {
        nibs.insert(0, 0);
    }
    proof {
        lemma_hex_val_zero_front(d);
        assert(hex_val_of(d2) == hex_val_of(d));
        assert(nibs@.len() == d2.len());
        assert(is_hex_digit('0') && hex_char_val('0') == 0);
        assert forall|k: int| #![trigger nibs@[k]] #![trigger d2[k]] 0 <= k < nibs@.len() implies {
            &&& is_hex_digit(d2[k])
            &&& nibs@[k] < 16
            &&& nibs@[k] as nat == hex_char_val(d2[k])
        } by {
            if d.len() % 2 == 1 {
                assert(nibs@ == nibs0.insert(0, 0u8));
                if k == 0 {
                    assert(d2[0] == '0');
                    assert(nibs@[0] == 0);
                } else {
                    assert(nibs@[k] == nibs0[k - 1]);
                    assert(d2[k] == d[k - 1]);
                }
            } else {
                assert(nibs@[k] == nibs0[k]);
                assert(d2[k] == d[k]);
            }
        }
        assert(nibs@.len() % 2 == 0);
        assert(nibs@.len() <= 64);
    }

    // 4. Pack digit pairs into bytes.
    let nb = nibs.len() / 2;
    let mut bytes: Vec<u8> = Vec::new();
    proof {
        assert(d2.take(0) =~= Seq::<char>::empty());
    }
    for k in 0..nb
        invariant
            nibs@.len() == 2 * nb,
            nb <= 32,
            d2.len() == nibs@.len(),
            forall|j: int| #![trigger nibs@[j]] #![trigger d2[j]]
                0 <= j < nibs@.len() ==> {
                    &&& is_hex_digit(d2[j])
                    &&& nibs@[j] < 16
                    &&& nibs@[j] as nat == hex_char_val(d2[j])
                },
            bytes@.len() == k,
            be_nat(bytes@) == hex_val_of(d2.take(2 * k)),
    {
        let v1 = nibs[2 * k];
        let v2 = nibs[2 * k + 1];
        proof {
            assert(nibs@[2 * k] < 16);
            assert(nibs@[2 * k + 1] < 16);
        }
        let b = v1 * 16 + v2;
        let ghost bytes_before = bytes@;
        bytes.push(b);
        proof {
            assert(bytes@.drop_last() =~= bytes_before);
            let t2 = d2.take(2 * k + 2);
            assert(t2.drop_last() =~= d2.take(2 * k + 1));
            assert(d2.take(2 * k + 1).drop_last() =~= d2.take(2 * k));
            assert(t2.last() == d2[2 * k + 1]);
            assert(d2.take(2 * k + 1).last() == d2[2 * k]);
            assert(hex_char_val(d2[2 * k]) == v1 as nat);
            assert(hex_char_val(d2[2 * k + 1]) == v2 as nat);
            assert(hex_val_of(t2) == hex_val_of(d2.take(2 * k + 1)) * 16 + hex_char_val(
                d2[2 * k + 1],
            ));
            assert(hex_val_of(d2.take(2 * k + 1)) == hex_val_of(d2.take(2 * k)) * 16
                + hex_char_val(d2[2 * k]));
            assert(hex_val_of(t2) == (hex_val_of(d2.take(2 * k)) * 16 + v1) * 16 + v2);
        }
    }
    proof {
        assert(d2.take(2 * nb) =~= d2);
        assert(be_nat(bytes@) == hex_val_of(d));
    }

    // 5. Zero-pad on the left to the field's full width.
    let mut full: Vec<u8> = Vec::new();
    let pad = 32 - bytes.len();
    for j in 0..pad
        invariant
            pad == 32 - bytes@.len(),
            full@.len() == j,
            be_nat(full@) == 0,
    {
        let ghost full_before = full@;
        full.push(0);
        proof {
            assert(full@.drop_last() =~= full_before);
        }
    }
    proof {
        assert(bytes@.take(0) =~= Seq::<u8>::empty());
    }
    let m = bytes.len();
    for t in 0..m
        invariant
            m == bytes@.len(),
            m + pad == 32,
            pad == 32 - bytes@.len(),
            full@.len() == pad + t,
            be_nat(full@) == be_nat(bytes@.take(t as int)),
    {
        let ghost full_before = full@;
        full.push(bytes[t]);
        proof {
            assert(full@.drop_last() =~= full_before);
            assert(bytes@.take(t + 1).drop_last() =~= bytes@.take(t as int));
            assert(bytes@.take(t + 1).last() == bytes@[t as int]);
        }
    }
    proof {
        assert(bytes@.take(m as int) =~= bytes@);
        assert(be_nat(full@) == hex_val_of(d));
    }

    // 6. Canonicity.
    match scalar_from_be_bytes(full) {
        Some(s) => Ok(s),
        None => Err(BridgeError::NonCanonicalScalar),
    }
}

/// Encoding then decoding a scalar gives the value back: the encoded string
/// is 64 unprefixed hex digits denoting exactly the encoded value.
pub proof fn lemma_scalar_codec_round_trip(v: nat)
    requires
        v < group_order(),
    ensures
        scalar_hex(v).len() == 64,
        all_hex(scalar_hex(v)),
        hex_digits_of(scalar_hex(v)) == scalar_hex(v),
        hex_val_of(scalar_hex(v)) == v,
{
    lemma_be_bytes_len(v, 32);
    lemma_hex_of_bytes_val(be_bytes(v, 32));
    assert(pow(256, 32)
        == 0x10000000000000000000000000000000000000000000000000000000000000000) by {
        reveal_with_fuel(pow, 33);
    }
    lemma_be_nat_be_bytes(v, 32);
    let s = scalar_hex(v);
    assert(!is_hex_digit('x'));
    if has_hex_prefix(s) {
        assert(is_hex_digit(s[1]));
        assert(false);
    }
}

/// Parses a compressed SEC1 hex string into a curve point.
///
/// One `0x` prefix is accepted and an odd digit count is read with a zero
/// digit prepended, as for scalars. Fails with `MalformedHex` on any non-hex
/// character and with `InvalidPoint` when the bytes are not a valid point
/// encoding.
#[verifier::rlimit(100)]
pub fn decode_point(h: &str) -> (r: Result<k256::ProjectivePoint, BridgeError>)
    ensures
        ({
            let d = hex_digits_of(h@);
            &&& (!all_hex(d) ==> (r matches Err(e) && e == BridgeError::MalformedHex))
            &&& (all_hex(d) && !is_point_encoding(bytes_of_hex(d)) ==> (r matches Err(e) && e
                == BridgeError::InvalidPoint))
            &&& (all_hex(d) && is_point_encoding(bytes_of_hex(d)) ==> r is Ok)
        }),
{
    let ghost d = hex_digits_of(h@);
    let len = h.unicode_len();
    let start: usize = if len >= 2 && h.get_char(0) == '0' && h.get_char(1) == 'x' {
        2
    } else {
        0
    };
    proof {
        assert(d =~= h@.skip(start as int));
    }

    // 1. Validate the digits and read their values.
    let mut nibs: Vec<u8> = Vec::new();
    for i in start..len
        invariant
            len == h@.len(),
            start <= i <= len,
            d == h@.skip(start as int),
            d == hex_digits_of(h@),
            nibs@.len() == i - start,
            forall|k: int| #![trigger nibs@[k]] #![trigger d[k]]
                0 <= k < nibs@.len() ==> {
                    &&& is_hex_digit(d[k])
                    &&& nibs@[k] < 16
                    &&& nibs@[k] as nat == hex_char_val(d[k])
                },
    {
        let c = h.get_char(i);
        proof {
            assert(d[i - start] == h@[i as int]);
        }
        let ghost nibs_before = nibs@;
        match hex_val_of_char(c) {
            Some(v) => {
                nibs.push(v);
                proof {
                    assert forall|k: int| #![trigger nibs@[k]] #![trigger d[k]]
                        0 <= k < nibs@.len() implies {
                        &&& is_hex_digit(d[k])
                        &&& nibs@[k] < 16
                        &&& nibs@[k] as nat == hex_char_val(d[k])
                    } by {
                        if k < nibs@.len() - 1 {
                            assert(nibs@[k] == nibs_before[k]);
                        } else {
                            assert(nibs@[k] == v);
                            assert(d[k] == h@[i as int]);
                        }
                    }
                }
            },
            None => {
                proof {
                    assert(!is_hex_digit(d[i - start]));
                    assert(!all_hex(d));
                }
                return Err(BridgeError::MalformedHex);
            },
        }
    }
    proof {
        assert(d.len() == len - start);
        assert(all_hex(d));
    }

    // 2. Pad to whole bytes.
    let ghost d2: Seq<char> = if d.len() % 2 == 1 {
        seq!['0'] + d
    } else {
        d
    };
    let ghost nibs0 = nibs@;
    if nibs.len() % 2 == 1 {
        nibs.insert(0, 0);
    }
    proof {
        assert(bytes_of_hex(d) == bytes_of_hex_even(d2));
        assert(nibs@.len() == d2.len());
        assert(is_hex_digit('0') && hex_char_val('0') == 0);
        assert forall|k: int| #![trigger nibs@[k]] #![trigger d2[k]] 0 <= k < nibs@.len() implies {
            &&& is_hex_digit(d2[k])
            &&& nibs@[k] < 16
            &&& nibs@[k] as nat == hex_char_val(d2[k])
        } by {
            if d.len() % 2 == 1 {
                assert(nibs@ == nibs0.insert(0, 0u8));
                if k == 0 {
                    assert(d2[0] == '0');
                    assert(nibs@[0] == 0);
                } else {
                    assert(nibs@[k] == nibs0[k - 1]);
                    assert(d2[k] == d[k - 1]);
                }
            } else {
                assert(nibs@[k] == nibs0[k]);
                assert(d2[k] == d[k]);
            }
        }
        assert(nibs@.len() % 2 == 0);
    }

    // 3. Pack digit pairs into bytes.
    let nb = nibs.len() / 2;
    let mut bytes: Vec<u8> = Vec::new();
    proof {
        assert(d2.take(0) =~= Seq::<char>::empty());
    }
    for k in 0..nb
        invariant
            nibs@.len() == 2 * nb,
            d2.len() == nibs@.len(),
            forall|j: int| #![trigger nibs@[j]] #![trigger d2[j]]
                0 <= j < nibs@.len() ==> {
                    &&& is_hex_digit(d2[j])
                    &&& nibs@[j] < 16
                    &&& nibs@[j] as nat == hex_char_val(d2[j])
                },
            bytes@.len() == k,
            bytes@ == bytes_of_hex_even(d2.take(2 * k)),
    {
        let v1 = nibs[2 * k];
        let v2 = nibs[2 * k + 1];
        proof {
            assert(nibs@[2 * k] < 16);
            assert(nibs@[2 * k + 1] < 16);
        }
        let b = v1 * 16 + v2;
        let ghost bytes_before = bytes@;
        bytes.push(b);
        proof {
            let t2 = d2.take(2 * k + 2);
            assert(t2.len() == 2 * k + 2);
            assert(t2.take(2 * k) =~= d2.take(2 * k));
            assert(t2[2 * k] == d2[2 * k]);
            assert(t2[2 * k + 1] == d2[2 * k + 1]);
            assert(hex_char_val(d2[2 * k]) == v1 as nat);
            assert(hex_char_val(d2[2 * k + 1]) == v2 as nat);
            assert(bytes_of_hex_even(t2) == bytes_of_hex_even(d2.take(2 * k)).push(b));
            assert(bytes@ =~= bytes_before.push(b));
        }
    }
    proof {
        assert(d2.take(2 * nb) =~= d2);
        assert(bytes@ == bytes_of_hex(d));
    }

    // 4. The curve library decides validity.
    match point_from_bytes(&bytes) {
        Some(p) => Ok(p),
        None => Err(BridgeError::InvalidPoint),
    }
}

} // verus!
