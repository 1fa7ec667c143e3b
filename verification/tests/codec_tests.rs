use share_bridge::codec::decode_point;
use share_bridge::codec::decode_scalar;
use share_bridge::codec::encode_point;
use share_bridge::codec::encode_scalar;
use share_bridge::codec::ensure_0x;
use share_bridge::codec::pad_hex;
use share_bridge::codec::strip_0x;
use share_bridge::codec::truncate_hex;
use share_bridge::error::BridgeError;
use share_bridge::point::scalar_commitment;
use share_bridge::scalar::scalar_from_u64;

/// Compressed SEC1 encoding of the secp256k1 generator.
const GENERATOR_HEX: &str = "0279be667ef9dcbbac55a06295ce870b07029bfcdb2dce28d959f2815b16f81798";

/// The group order, which is one past the largest canonical scalar.
const ORDER_HEX: &str = "fffffffffffffffffffffffffffffffebaaedce6af48a03bbfd25e8cd0364141";
const ORDER_MINUS_ONE_HEX: &str =
    "fffffffffffffffffffffffffffffffebaaedce6af48a03bbfd25e8cd0364140";

#[test]
fn scalar_round_trip_small() {
    let s = scalar_from_u64(7);
    let hex = encode_scalar(&s);
    assert_eq!(hex.len(), 64);
    let back = decode_scalar(&hex).unwrap();
    assert_eq!(back, s);
}

#[test]
fn scalar_round_trip_large() {
    let s = decode_scalar(ORDER_MINUS_ONE_HEX).unwrap();
    assert_eq!(encode_scalar(&s), ORDER_MINUS_ONE_HEX);
}

#[test]
fn encode_scalar_is_fixed_width_lowercase() {
    let s = scalar_from_u64(255);
    let mut expected = "0".repeat(62);
    expected.push_str("ff");
    assert_eq!(encode_scalar(&s), expected);
}

#[test]
fn decode_scalar_accepts_one_prefix() {
    let a = decode_scalar("0x07").unwrap();
    let b = decode_scalar("07").unwrap();
    assert_eq!(a, b);
    assert_eq!(a, scalar_from_u64(7));
}

#[test]
fn decode_scalar_pads_odd_length() {
    let a = decode_scalar("7").unwrap();
    assert_eq!(a, scalar_from_u64(7));
}

#[test]
fn decode_scalar_empty_is_zero() {
    let a = decode_scalar("").unwrap();
    assert_eq!(a, scalar_from_u64(0));
}

#[test]
fn decode_scalar_rejects_non_hex() {
    assert_eq!(decode_scalar("zz"), Err(BridgeError::MalformedHex));
    // only one prefix is allowed, so a second one is not hexadecimal
    assert_eq!(decode_scalar("0x0x07"), Err(BridgeError::MalformedHex));
}

#[test]
fn decode_scalar_rejects_too_long() {
    let long = "11".repeat(33);
    assert_eq!(decode_scalar(&long), Err(BridgeError::ScalarTooLong));
}

#[test]
fn decode_scalar_rejects_non_canonical() {
    assert_eq!(decode_scalar(ORDER_HEX), Err(BridgeError::NonCanonicalScalar));
}

#[test]
fn point_encoding_matches_generator() {
    let one = scalar_from_u64(1);
    let g = scalar_commitment(&one);
    assert_eq!(encode_point(&g), GENERATOR_HEX);
}

#[test]
fn point_round_trip() {
    let p = decode_point(GENERATOR_HEX).unwrap();
    assert_eq!(encode_point(&p), GENERATOR_HEX);
    let with_prefix = format!("0x{}", GENERATOR_HEX);
    let q = decode_point(&with_prefix).unwrap();
    assert_eq!(encode_point(&q), GENERATOR_HEX);
}

#[test]
fn decode_point_rejects_invalid() {
    let bad_x = format!("02{}", "ff".repeat(32));
    assert_eq!(decode_point(&bad_x).unwrap_err(), BridgeError::InvalidPoint);
    assert_eq!(decode_point("02ab").unwrap_err(), BridgeError::InvalidPoint);
    assert_eq!(decode_point("zz").unwrap_err(), BridgeError::MalformedHex);
}

#[test]
fn ensure_0x_adds_prefix_once() {
    assert_eq!(ensure_0x("ab"), "0xab");
    assert_eq!(ensure_0x("0xab"), "0xab");
    assert_eq!(ensure_0x(""), "0x");
}

#[test]
fn strip_0x_removes_every_prefix() {
    assert_eq!(strip_0x("0xab"), "ab");
    assert_eq!(strip_0x("ab"), "ab");
    assert_eq!(strip_0x("0x0xab"), "ab");
    assert_eq!(strip_0x("0x"), "");
}

#[test]
fn pad_hex_evens_length() {
    assert_eq!(pad_hex(String::from("abc")), "0abc");
    assert_eq!(pad_hex(String::from("abcd")), "abcd");
    assert_eq!(pad_hex(String::new()), "");
}

#[test]
fn truncate_hex_keeps_ends() {
    assert_eq!(truncate_hex("0123456789abcdef0123"), "0123456789abcdef0123");
    assert_eq!(
        truncate_hex("0123456789abcdef0123x"),
        "0123456789...bcdef0123x"
    );
}
