//! Tests of the error taxonomy.

use ecdsa_codec::error::{Error, ErrorKind};

#[test]
fn new_keeps_kind_and_description() {
    let e = Error::new(ErrorKind::ParseError, Some("bad header"));
    assert_eq!(e.kind(), ErrorKind::ParseError);
    assert_eq!(e.description_opt(), Some("bad header"));
    assert_eq!(e.description(), "bad header");
}

#[test]
fn new_without_description_falls_back_to_kind() {
    let e = Error::new(ErrorKind::SignatureInvalid, None);
    assert_eq!(e.kind(), ErrorKind::SignatureInvalid);
    assert_eq!(e.description_opt(), None);
    assert_eq!(e.description(), "bad signature");
}

#[test]
fn from_kind() {
    let e = Error::from(ErrorKind::KeyInvalid);
    assert_eq!(e.kind(), ErrorKind::KeyInvalid);
    assert_eq!(e.description_opt(), None);
}

#[test]
fn kind_strings() {
    assert_eq!(ErrorKind::Io.as_str(), "I/O error");
    assert_eq!(ErrorKind::KeyInvalid.as_str(), "invalid cryptographic key");
    assert_eq!(ErrorKind::ParseError.as_str(), "parse error");
    assert_eq!(
        ErrorKind::ProviderError.as_str(),
        "internal crypto provider error"
    );
    assert_eq!(ErrorKind::SignatureInvalid.as_str(), "bad signature");
}
