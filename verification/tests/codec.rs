//! End-to-end tests of the signature codec on concrete byte patterns.

use ecdsa_codec::error::ErrorKind;
use ecdsa_codec::scalars::{Asn1Signature, FixedSignature, ScalarPair};

fn fixed(width: usize, bytes: Vec<u8>) -> FixedSignature {
    assert_eq!(bytes.len(), 2 * width);
    FixedSignature { width, bytes }
}

fn asn1(width: usize, bytes: Vec<u8>) -> Asn1Signature {
    Asn1Signature { width, bytes }
}

#[test]
fn scenario_width_32_plain() {
    // r = 32 bytes of 0x01, s = 32 bytes of 0x02.
    let mut buf = vec![0x01u8; 32];
    buf.extend_from_slice(&[0x02u8; 32]);
    let pair = ScalarPair::from_fixed_signature(&fixed(32, buf.clone()));
    assert_eq!(pair.r, vec![0x01u8; 32]);
    assert_eq!(pair.s, vec![0x02u8; 32]);

    let der = pair.to_asn1_signature();
    let mut expected = vec![0x30u8, 0x44, 0x02, 0x20];
    expected.extend_from_slice(&[0x01u8; 32]);
    expected.extend_from_slice(&[0x02u8, 0x20]);
    expected.extend_from_slice(&[0x02u8; 32]);
    assert_eq!(der.bytes.len(), 70);
    assert_eq!(der.bytes, expected);

    // Decoding the encoding gives the fixed form back.
    let pair2 = ScalarPair::from_asn1_signature(&der).unwrap();
    assert_eq!(pair2.to_fixed_signature().bytes, buf);
}

#[test]
fn scenario_high_bit_gets_sign_guard() {
    // r's first byte has the high bit set: the DER integer grows to 33
    // bytes with a leading 0x00.
    let mut r = vec![0xaau8; 32];
    r[0] = 0x80;
    let mut buf = r.clone();
    buf.extend_from_slice(&[0x02u8; 32]);
    let pair = ScalarPair::from_fixed_signature(&fixed(32, buf.clone()));
    let der = pair.to_asn1_signature();

    assert_eq!(der.bytes[0], 0x30);
    assert_eq!(der.bytes[1], 0x45); // 33 + 32 + 4
    assert_eq!(der.bytes[2], 0x02);
    assert_eq!(der.bytes[3], 33);
    assert_eq!(der.bytes[4], 0x00);
    assert_eq!(der.bytes[5], 0x80);
    assert_eq!(&der.bytes[5..37], &r[..]);

    // Decoding strips the sign guard back off.
    let pair2 = ScalarPair::from_asn1_signature(&der).unwrap();
    assert_eq!(pair2.r, r);
    assert_eq!(pair2.to_fixed_signature().bytes, buf);
}

#[test]
fn scenario_zero_scalar() {
    // r is all zero bytes: the DER integer is length 1, value 0x00, and
    // decoding normalizes back to 32 zero bytes in fixed form.
    let mut buf = vec![0x00u8; 32];
    buf.extend_from_slice(&[0x02u8; 32]);
    let pair = ScalarPair::from_fixed_signature(&fixed(32, buf.clone()));
    let der = pair.to_asn1_signature();

    assert_eq!(der.bytes[0], 0x30);
    assert_eq!(der.bytes[1], 0x25); // (2 + 1) + (2 + 32)
    assert_eq!(der.bytes[2], 0x02);
    assert_eq!(der.bytes[3], 0x01);
    assert_eq!(der.bytes[4], 0x00);

    let pair2 = ScalarPair::from_asn1_signature(&der).unwrap();
    assert_eq!(pair2.r, Vec::<u8>::new());
    assert_eq!(pair2.to_fixed_signature().bytes, buf);
}

#[test]
fn scenario_trailing_byte_rejected() {
    let mut buf = vec![0x01u8; 32];
    buf.extend_from_slice(&[0x02u8; 32]);
    let pair = ScalarPair::from_fixed_signature(&fixed(32, buf));
    let mut der = pair.to_asn1_signature();
    der.bytes.push(0x00);
    let err = ScalarPair::from_asn1_signature(&der).unwrap_err();
    assert_eq!(err.kind(), ErrorKind::ParseError);
}

#[test]
fn long_form_sequence_length() {
    // Two 64-byte scalars with high bits set force 65-byte integers:
    // contents are 134 bytes, beyond short form.
    let r = vec![0x80u8; 64];
    let s = vec![0xffu8; 64];
    let mut buf = r.clone();
    buf.extend_from_slice(&s);
    let pair = ScalarPair::from_fixed_signature(&fixed(64, buf.clone()));
    let der = pair.to_asn1_signature();
    assert_eq!(der.bytes[0], 0x30);
    assert_eq!(der.bytes[1], 0x81);
    assert_eq!(der.bytes[2], 134);
    assert_eq!(der.bytes.len(), 137);
    assert_eq!(der.bytes[3], 0x02);
    assert_eq!(der.bytes[4], 65);
    assert_eq!(der.bytes[5], 0x00);

    let pair2 = ScalarPair::from_asn1_signature(&der).unwrap();
    assert_eq!(pair2.to_fixed_signature().bytes, buf);
}

#[test]
fn fixed_round_trip_short_scalars() {
    // Scalars shorter than the width are left-padded with zeros.
    let pair = ScalarPair {
        width: 4,
        r: vec![0x05],
        s: vec![0x01, 0x02],
    };
    let f = pair.to_fixed_signature();
    assert_eq!(f.bytes, vec![0, 0, 0, 0x05, 0, 0, 0x01, 0x02]);
    let pair2 = ScalarPair::from_fixed_signature(&f);
    assert_eq!(pair2.r, vec![0, 0, 0, 0x05]);
    assert_eq!(pair2.s, vec![0, 0, 0x01, 0x02]);
}

#[test]
fn encoder_strips_redundant_zeros() {
    // A scalar with leading zeros encodes minimally.
    let pair = ScalarPair {
        width: 3,
        r: vec![0x00, 0x00, 0x05],
        s: vec![0x00, 0x01, 0x02],
    };
    let der = pair.to_asn1_signature();
    assert_eq!(
        der.bytes,
        vec![0x30, 0x07, 0x02, 0x01, 0x05, 0x02, 0x02, 0x01, 0x02]
    );
}

#[test]
fn decoder_accepts_redundant_zeros_in_input() {
    // A non-minimal integer of length <= width is accepted and
    // normalized.
    let der = asn1(3, vec![0x30, 0x08, 0x02, 0x03, 0x00, 0x00, 0x05, 0x02, 0x01, 0x07]);
    let pair = ScalarPair::from_asn1_signature(&der).unwrap();
    assert_eq!(pair.r, vec![0x05]);
    assert_eq!(pair.s, vec![0x07]);
}

#[test]
fn asn1_to_fixed_to_asn1_round_trip() {
    // A canonical DER signature survives the trip through the fixed form
    // byte for byte.
    let mut der_bytes = vec![0x30u8, 0x44, 0x02, 0x20];
    der_bytes.extend_from_slice(&[0x01u8; 32]);
    der_bytes.extend_from_slice(&[0x02u8, 0x20]);
    der_bytes.extend_from_slice(&[0x02u8; 32]);
    let der = asn1(32, der_bytes.clone());

    let pair = ScalarPair::from_asn1_signature(&der).unwrap();
    let f = pair.to_fixed_signature();
    let pair2 = ScalarPair::from_fixed_signature(&f);
    let der2 = pair2.to_asn1_signature();
    assert_eq!(der2.bytes, der_bytes);
}

#[test]
fn asn1_int_length_values() {
    assert_eq!(ScalarPair::asn1_int_length(&vec![]), 1);
    assert_eq!(ScalarPair::asn1_int_length(&vec![0x00, 0x00]), 1);
    assert_eq!(ScalarPair::asn1_int_length(&vec![0x00, 0x05]), 1);
    assert_eq!(ScalarPair::asn1_int_length(&vec![0x7f, 0x00]), 2);
    assert_eq!(ScalarPair::asn1_int_length(&vec![0x80]), 2);
    assert_eq!(ScalarPair::asn1_int_length(&vec![0x00, 0x80, 0x01]), 3);
}
