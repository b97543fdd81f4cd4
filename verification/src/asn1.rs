//! Byte-level model of the DER signature format: `30 <len> 02 <len_r>
//! <r-bytes> 02 <len_s> <s-bytes>`, together with the proofs that the
//! encoder and decoder specifications invert one another.

use vstd::prelude::*;

verus! {

/// DER tag of an ASN.1 `SEQUENCE` value.
pub const SEQUENCE_TAG: u8 = 0x30;

/// DER tag of an ASN.1 `INTEGER` value.
pub const INTEGER_TAG: u8 = 0x02;

/// Largest supported scalar byte width.  The `SEQUENCE` length is encoded
/// over at most two bytes (short form, or `0x81` plus one byte), which caps
/// the contents at 255 bytes: two integers of at most `width + 1` value
/// bytes plus 4 bytes of tag/length overhead.
pub const MAX_SCALAR_WIDTH: usize = 124;

/// `s` with every leading zero byte removed; the canonical form of a
/// big-endian scalar (the zero scalar becomes the empty sequence).
pub open spec fn strip_zeros(s: Seq<u8>) -> Seq<u8>
    decreases s.len(),
{
    if s.len() > 0 && s[0] == 0 {
        strip_zeros(s.drop_first())
    } else {
        s
    }
}

/// Whether the DER `INTEGER` encoding of scalar `s` needs a leading `0x00`
/// sign-guard byte: the stripped value is empty, or its high bit is set.
pub open spec fn needs_guard(s: Seq<u8>) -> bool {
    strip_zeros(s).len() == 0 || strip_zeros(s)[0] >= 0x80
}

/// Number of value bytes in the DER `INTEGER` encoding of scalar `s`.
pub open spec fn der_int_len(s: Seq<u8>) -> nat {
    if needs_guard(s) {
        strip_zeros(s).len() + 1
    } else {
        strip_zeros(s).len()
    }
}

/// The complete DER `INTEGER` encoding of scalar `s`: tag, length, then the
/// optional sign-guard byte followed by the stripped value bytes.
pub open spec fn der_int(s: Seq<u8>) -> Seq<u8> {
    let guard: Seq<u8> = if needs_guard(s) {
        seq![0u8]
    } else {
        Seq::empty()
    };
    seq![INTEGER_TAG, der_int_len(s) as u8] + guard + strip_zeros(s)
}

/// The `SEQUENCE` header for `content_len` bytes of contents: short form for
/// lengths below `0x80`, else `0x81` followed by the length byte.
pub open spec fn der_sequence_header(content_len: nat) -> Seq<u8> {
    if content_len < 0x80 {
        seq![SEQUENCE_TAG, content_len as u8]
    } else {
        seq![SEQUENCE_TAG, 0x81u8, content_len as u8]
    }
}

/// The complete DER signature encoding of the scalar pair `(r, s)`.
pub open spec fn der_sig(r: Seq<u8>, s: Seq<u8>) -> Seq<u8> {
    der_sequence_header((der_int(r) + der_int(s)).len()) + der_int(r) + der_int(s)
}

/// Strip and check the `SEQUENCE` header of `b`: the tag must be `0x30` and
/// the declared length must equal the number of bytes that follow the
/// header.  Returns the contents, or `None` for any malformed header.
pub open spec fn spec_sequence_body(b: Seq<u8>) -> Option<Seq<u8>> {
    if b.len() < 2 || b[0] != SEQUENCE_TAG {
        None
    } else if b[1] <= 0x80 {
        if b[1] as int == b.len() - 2 {
            Some(b.skip(2))
        } else {
            None
        }
    } else if b[1] == 0x81 {
        if b.len() >= 3 && b[2] as int == b.len() - 3 {
            Some(b.skip(3))
        } else {
            None
        }
    } else {
        None
    }
}

/// Split one DER `INTEGER` off the front of `b`: tag `0x02`, a short-form
/// length byte, and that many value bytes present.  Returns the raw value
/// bytes and the remainder, or `None` for any malformed integer.
pub open spec fn spec_int_parse(b: Seq<u8>) -> Option<(Seq<u8>, Seq<u8>)> {
    if b.len() < 3 || b[0] != INTEGER_TAG {
        None
    } else if b[1] >= 0x80 || b[1] as int + 2 > b.len() {
        None
    } else {
        Some((b.subrange(2, b[1] as int + 2), b.skip(b[1] as int + 2)))
    }
}

/// Normalize the raw value bytes of a parsed `INTEGER` against the scalar
/// width: a value longer than `width` is accepted only as exactly
/// `width + 1` bytes led by the `0x00` sign guard, and leading zeros are
/// stripped from the result.
pub open spec fn spec_normalize(raw: Seq<u8>, width: nat) -> Option<Seq<u8>> {
    if raw.len() <= width {
        Some(strip_zeros(raw))
    } else if raw.len() == width + 1 && raw[0] == 0 {
        Some(strip_zeros(raw.drop_first()))
    } else {
        None
    }
}

/// The whole decode path: header, two integers, no trailing bytes, and both
/// scalars normalized against `width`.
pub open spec fn spec_parse_sig(b: Seq<u8>, width: nat) -> Option<(Seq<u8>, Seq<u8>)> {
    match spec_sequence_body(b) {
        None => None,
        Some(body) => match spec_int_parse(body) {
            None => None,
            Some((r_raw, rest)) => match spec_int_parse(rest) {
                None => None,
                Some((s_raw, tail)) => {
                    if tail.len() != 0 {
                        None
                    } else {
                        match (spec_normalize(r_raw, width), spec_normalize(s_raw, width)) {
                            (Some(r), Some(s)) => Some((r, s)),
                            _ => None,
                        }
                    }
                },
            },
        },
    }
}

/// Basic shape of `strip_zeros`: it removes exactly the leading zero bytes,
/// keeping a suffix whose first byte (if any) is non-zero.
pub proof fn lemma_strip_zeros_props(s: Seq<u8>)
    ensures
        strip_zeros(s).len() <= s.len(),
        strip_zeros(s).len() > 0 ==> strip_zeros(s)[0] != 0,
        strip_zeros(s) == s.subrange(s.len() - strip_zeros(s).len(), s.len() as int),
        forall|i: int| 0 <= i < s.len() - strip_zeros(s).len() ==> s[i] == 0,
    decreases s.len(),
{
    if s.len() > 0 && s[0] == 0 {
        lemma_strip_zeros_props(s.drop_first());
        let t = strip_zeros(s);
        assert(s.subrange(s.len() - t.len(), s.len() as int) =~= s.drop_first().subrange(
            s.drop_first().len() - t.len(),
            s.drop_first().len() as int,
        ));
        assert forall|i: int| 0 <= i < s.len() - t.len() implies s[i] == 0 by {
            if i > 0 {
                assert(s.drop_first()[i - 1] == 0);
            }
        }
    }
}

/// Stripping is idempotent.
pub proof fn lemma_strip_zeros_idempotent(s: Seq<u8>)
    ensures
        strip_zeros(strip_zeros(s)) == strip_zeros(s),
{
    lemma_strip_zeros_props(s);
}

/// The encoded integer's length fits in a length byte for all supported
/// scalar widths.
pub proof fn lemma_der_int_len_bound(s: Seq<u8>)
    ensures
        der_int_len(s) <= s.len() + 1,
        der_int(s).len() == der_int_len(s) + 2,
{
    lemma_strip_zeros_props(s);
}

/// Canonical encoding: among the value bytes of an encoded integer, a
/// leading zero appears only as the single mandatory sign-guard byte —
/// either the value is the zero scalar (one `0x00` byte in all), or the
/// byte after the guard has its high bit set.
pub proof fn lemma_encode_canonical(x: Seq<u8>)
    requires
        x.len() <= 254,
    ensures
        der_int(x).len() >= 3,
        der_int(x)[2] == 0 ==> (der_int(x).len() == 3 || der_int(x)[3] >= 0x80),
{
    lemma_strip_zeros_props(x);
    let t = strip_zeros(x);
    if needs_guard(x) {
        assert(der_int(x)[2] == 0);
        if t.len() > 0 {
            assert(der_int(x)[3] == t[0]);
        }
    } else {
        assert(der_int(x)[2] == t[0]);
    }
}

/// Parsing one integer off `der_int(r) + rest` succeeds and yields the
/// encoded value bytes and `rest`.
pub proof fn lemma_parse_der_int(r: Seq<u8>, rest: Seq<u8>)
    requires
        r.len() <= 126,
    ensures
        spec_int_parse(der_int(r) + rest) == Some((der_int(r).skip(2), rest)),
{
    lemma_strip_zeros_props(r);
    let e = der_int(r);
    let b = e + rest;
    let len = der_int_len(r);
    assert(len < 0x80);
    assert(b[0] == INTEGER_TAG);
    assert(b[1] == len as u8);
    assert(b[1] as int + 2 <= b.len());
    assert(b.subrange(2, b[1] as int + 2) =~= e.skip(2));
    assert(b.skip(b[1] as int + 2) =~= rest);
}

/// Normalizing the value bytes of an encoded integer recovers the stripped
/// scalar, for every scalar that fits the width.
pub proof fn lemma_normalize_der_value(r: Seq<u8>, width: nat)
    requires
        r.len() <= width,
        width <= 253,
    ensures
        spec_normalize(der_int(r).skip(2), width) == Some(strip_zeros(r)),
{
    lemma_strip_zeros_props(r);
    lemma_strip_zeros_idempotent(r);
    let t = strip_zeros(r);
    let raw = der_int(r).skip(2);
    if needs_guard(r) {
        assert(raw =~= seq![0u8] + t);
        assert(raw[0] == 0);
        assert(raw.drop_first() =~= t);
        assert(strip_zeros(raw) == strip_zeros(raw.drop_first())) by {
            assert(raw.len() > 0 && raw[0] == 0);
        }
        assert(strip_zeros(raw.drop_first()) == t);
    } else {
        assert(raw =~= t);
    }
}

/// Decoding an encoded signature succeeds and yields the stripped scalars:
/// the spec-level core of the encode-then-decode round trip.
pub proof fn lemma_parse_of_encode(r: Seq<u8>, s: Seq<u8>, width: nat)
    requires
        r.len() <= width,
        s.len() <= width,
        width <= MAX_SCALAR_WIDTH,
    ensures
        spec_parse_sig(der_sig(r, s), width) == Some((strip_zeros(r), strip_zeros(s))),
{
    lemma_der_int_len_bound(r);
    lemma_der_int_len_bound(s);
    let er = der_int(r);
    let es = der_int(s);
    let content = er + es;
    let clen = content.len();
    assert(clen <= 254);
    let b = der_sig(r, s);
    if clen < 0x80 {
        assert(b[0] == SEQUENCE_TAG);
        assert(b[1] == clen as u8);
        assert(b[1] <= 0x80);
        assert(b[1] as int == b.len() - 2);
        assert(b.skip(2) =~= content);
    } else {
        assert(b[0] == SEQUENCE_TAG);
        assert(b[1] == 0x81);
        assert(b[2] == clen as u8);
        assert(b[2] as int == b.len() - 3);
        assert(b.skip(3) =~= content);
    }
    assert(spec_sequence_body(b) == Some(content));
    lemma_parse_der_int(r, es);
    assert(spec_int_parse(content) == Some((er.skip(2), es)));
    assert(es =~= es + Seq::<u8>::empty());
    lemma_parse_der_int(s, Seq::<u8>::empty());
    assert(spec_int_parse(es) == Some((es.skip(2), Seq::<u8>::empty())));
    lemma_normalize_der_value(r, width);
    lemma_normalize_der_value(s, width);
}

/// Whatever bytes decode successfully, the resulting scalars are in
/// canonical form: at most `width` bytes, with no leading zero byte (the
/// zero scalar is the empty sequence).
pub proof fn lemma_parse_results_canonical(b: Seq<u8>, width: nat)
    ensures
        spec_parse_sig(b, width) matches Some(p) ==> {
            &&& p.0.len() <= width
            &&& p.1.len() <= width
            &&& strip_zeros(p.0) == p.0
            &&& p.0.len() > 0 ==> p.0[0] != 0
            &&& strip_zeros(p.1) == p.1
            &&& p.1.len() > 0 ==> p.1[0] != 0
        },
{
    if spec_parse_sig(b, width) is Some {
        let body = spec_sequence_body(b).unwrap();
        let (r_raw, rest) = spec_int_parse(body).unwrap();
        let (s_raw, _) = spec_int_parse(rest).unwrap();
        lemma_normalized_canonical(r_raw, width);
        lemma_normalized_canonical(s_raw, width);
    }
}

/// A normalized integer value is stripped and fits the width.
proof fn lemma_normalized_canonical(raw: Seq<u8>, width: nat)
    ensures
        spec_normalize(raw, width) matches Some(v) ==> {
            &&& v.len() <= width
            &&& strip_zeros(v) == v
            &&& v.len() > 0 ==> v[0] != 0
        },
{
    if raw.len() <= width {
        lemma_strip_zeros_props(raw);
        lemma_strip_zeros_idempotent(raw);
    } else if raw.len() == width + 1 && raw[0] == 0 {
        lemma_strip_zeros_props(raw.drop_first());
        lemma_strip_zeros_idempotent(raw.drop_first());
    }
}

/// Malformed `SEQUENCE` framing is rejected: a wrong tag byte, an
/// unsupported multi-byte long-form length, or a declared length that does
/// not match the bytes actually present.
pub proof fn lemma_parse_sig_rejects(b: Seq<u8>, width: nat)
    ensures
        b.len() < 2 ==> spec_parse_sig(b, width) is None,
        b.len() >= 1 && b[0] != SEQUENCE_TAG ==> spec_parse_sig(b, width) is None,
        b.len() >= 2 && b[1] > 0x81 ==> spec_parse_sig(b, width) is None,
        b.len() >= 2 && b[1] <= 0x80 && b[1] as int != b.len() - 2 ==> spec_parse_sig(b, width)
            is None,
        b.len() >= 2 && b[1] == 0x81 && (b.len() < 3 || b[2] as int != b.len() - 3)
            ==> spec_parse_sig(b, width) is None,
{
}

/// Malformed `INTEGER` fields are rejected: a wrong tag, a long-form (or
/// otherwise out-of-range) length byte, or fewer value bytes than declared.
pub proof fn lemma_int_parse_rejects(b: Seq<u8>)
    ensures
        b.len() < 3 ==> spec_int_parse(b) is None,
        b.len() >= 1 && b[0] != INTEGER_TAG ==> spec_int_parse(b) is None,
        b.len() >= 2 && b[1] >= 0x80 ==> spec_int_parse(b) is None,
        b.len() >= 2 && b[1] as int + 2 > b.len() ==> spec_int_parse(b) is None,
{
}

/// Overlong integer values are rejected: longer than `width + 1` bytes, or
/// exactly `width + 1` bytes without the `0x00` sign guard in front.
pub proof fn lemma_normalize_rejects(raw: Seq<u8>, width: nat)
    ensures
        raw.len() > width + 1 ==> spec_normalize(raw, width) is None,
        raw.len() == width + 1 && raw[0] != 0 ==> spec_normalize(raw, width) is None,
{
}

} // verus!
