//! Every malformed variant of the DER input must be rejected with a
//! `ParseError`, without panicking.

use ecdsa_codec::error::ErrorKind;
use ecdsa_codec::scalars::{Asn1Signature, ScalarPair};

fn rejects(width: usize, bytes: Vec<u8>) {
    let sig = Asn1Signature { width, bytes };
    let err = ScalarPair::from_asn1_signature(&sig).unwrap_err();
    assert_eq!(err.kind(), ErrorKind::ParseError);
}

#[test]
fn rejects_wrong_sequence_tag() {
    rejects(3, vec![0x31, 0x06, 0x02, 0x01, 0x01, 0x02, 0x01, 0x02]);
}

#[test]
fn rejects_multi_byte_long_form() {
    // 0x82 (two length bytes) is unsupported.
    rejects(3, vec![0x30, 0x82, 0x00, 0x06, 0x02, 0x01, 0x01, 0x02, 0x01, 0x02]);
}

#[test]
fn rejects_sequence_length_mismatch() {
    // Declared 0x07, actual remaining 6.
    rejects(3, vec![0x30, 0x07, 0x02, 0x01, 0x01, 0x02, 0x01, 0x02]);
    // Declared 0x05, actual remaining 6.
    rejects(3, vec![0x30, 0x05, 0x02, 0x01, 0x01, 0x02, 0x01, 0x02]);
    // Long form: declared 0x06, actual remaining 7.
    rejects(3, vec![0x30, 0x81, 0x06, 0x02, 0x01, 0x01, 0x02, 0x01, 0x02, 0x00]);
}

#[test]
fn rejects_wrong_integer_tag() {
    rejects(3, vec![0x30, 0x06, 0x03, 0x01, 0x01, 0x02, 0x01, 0x02]);
    // Second integer tag wrong too.
    rejects(3, vec![0x30, 0x06, 0x02, 0x01, 0x01, 0x03, 0x01, 0x02]);
}

#[test]
fn rejects_long_integer_length() {
    // INTEGER length byte >= 0x80 is unsupported.
    rejects(3, vec![0x30, 0x04, 0x02, 0x81, 0x00, 0x00]);
    rejects(3, vec![0x30, 0x04, 0x02, 0x80, 0x00, 0x00]);
}

#[test]
fn rejects_integer_overrunning_buffer() {
    // INTEGER declares 5 value bytes, 2 are present.
    rejects(3, vec![0x30, 0x04, 0x02, 0x05, 0x01, 0x02]);
}

#[test]
fn rejects_truncated_input() {
    rejects(3, vec![]);
    rejects(3, vec![0x30]);
    rejects(3, vec![0x30, 0x00]);
    rejects(3, vec![0x30, 0x81]);
    // Second integer truncated to its bare tag and length.
    rejects(3, vec![0x30, 0x05, 0x02, 0x01, 0x01, 0x02, 0x00]);
}

#[test]
fn rejects_trailing_data_inside_sequence() {
    // The declared SEQUENCE length covers one byte beyond the two
    // integers.
    rejects(3, vec![0x30, 0x07, 0x02, 0x01, 0x01, 0x02, 0x01, 0x02, 0x00]);
}

#[test]
fn rejects_overlong_integer() {
    // r has width + 2 = 4 value bytes: too long even with a sign guard.
    rejects(2, vec![0x30, 0x09, 0x02, 0x04, 0x00, 0x00, 0x01, 0x02, 0x02, 0x01, 0x01]);
}

#[test]
fn rejects_overlong_integer_without_sign_guard() {
    // r has width + 1 = 3 value bytes but does not start with 0x00.
    rejects(2, vec![0x30, 0x08, 0x02, 0x03, 0x01, 0x02, 0x03, 0x02, 0x01, 0x01]);
}

#[test]
fn accepts_overlong_integer_with_sign_guard() {
    // The same shape with the mandatory 0x00 guard is accepted.
    let sig = Asn1Signature {
        width: 2,
        bytes: vec![0x30, 0x08, 0x02, 0x03, 0x00, 0x81, 0x03, 0x02, 0x01, 0x01],
    };
    let pair = ScalarPair::from_asn1_signature(&sig).unwrap();
    assert_eq!(pair.r, vec![0x81, 0x03]);
    assert_eq!(pair.s, vec![0x01]);
}
