//! Codec for ECDSA signatures: conversion between the ASN.1 DER wire form
//! (`SEQUENCE` of two `INTEGER`s) and the fixed-width "compact" form
//! (`r || s`, each scalar zero-padded to the curve's scalar byte width).
//!
//! The decode path treats its input as untrusted: every length read from the
//! buffer is bounds-checked before it is used, and every malformed variant is
//! rejected with a [`error::Error`] of kind [`error::ErrorKind::ParseError`].
//! The encode path emits canonical (minimal) DER.

pub mod asn1;
pub mod error;
pub mod scalars;
