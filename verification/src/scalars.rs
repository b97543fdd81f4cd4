//! An ECDSA signature comprises two scalars, `r` and `s`, each at most the
//! curve's scalar byte width.  This module holds the two owned signature
//! containers and the scalar-pair codec that converts between them.

use vstd::prelude::*;

use crate::asn1::{
    INTEGER_TAG, MAX_SCALAR_WIDTH, SEQUENCE_TAG, der_int, der_int_len, der_sequence_header,
    der_sig, lemma_der_int_len_bound, lemma_parse_of_encode, lemma_strip_zeros_props,
    spec_int_parse, spec_normalize, spec_parse_sig, spec_sequence_body, strip_zeros,
};
use crate::error::{Error, ErrorKind};

verus! {

/// `x` left-padded with zero bytes to `width` bytes (meaningful when
/// `x.len() <= width`).
pub open spec fn pad_left(width: nat, x: Seq<u8>) -> Seq<u8> {
    Seq::new((width - x.len()) as nat, |i: int| 0u8) + x
}

/// The fixed-width signature holding `r` and `s`: both scalars zero-padded
/// to `width` bytes and concatenated.
pub open spec fn fixed_of(width: nat, r: Seq<u8>, s: Seq<u8>) -> Seq<u8> {
    pad_left(width, r) + pad_left(width, s)
}

/// Fixed-width "compact" signature: exactly `2 * width` bytes, the first
/// half holding `r` and the second half `s`, each left-padded with zeros.
#[derive(Debug)]
pub struct FixedSignature {
    /// The curve's scalar byte width.
    pub width: usize,
    /// The `2 * width` signature bytes.
    pub bytes: Vec<u8>,
}

impl FixedSignature {
    /// Structural invariant: the buffer is exactly two scalars wide.
    pub open spec fn wf(&self) -> bool {
        &&& self.width <= MAX_SCALAR_WIDTH
        &&& self.bytes@.len() == 2 * self.width
    }
}

/// ASN.1 DER signature buffer.  The bytes are untrusted until they pass
/// `ScalarPair::from_asn1_signature`; the encoder only produces buffers
/// that hold a complete, canonical DER `SEQUENCE` of two `INTEGER`s.
#[derive(Debug)]
pub struct Asn1Signature {
    /// The curve's scalar byte width.
    pub width: usize,
    /// The DER bytes.
    pub bytes: Vec<u8>,
}

impl Asn1Signature {
    /// Structural invariant: the scalar width is one this codec supports.
    pub open spec fn wf(&self) -> bool {
        self.width <= MAX_SCALAR_WIDTH
    }
}

/// Index of the first non-zero byte of `x` (or `x.len()` if all bytes are
/// zero): the suffix from here is the stripped scalar.
fn strip_start(x: &Vec<u8>) -> (start: usize)
    ensures
        start <= x@.len(),
        x@.skip(start as int) == strip_zeros(x@),
        forall|j: int| 0 <= j < start ==> x@[j] == 0,
{
    let mut i: usize = 0;
    proof {
        assert(x@.skip(0) =~= x@);
    }
    while i < x.len() && x[i] == 0
        invariant
            i <= x@.len(),
            strip_zeros(x@) == strip_zeros(x@.skip(i as int)),
            forall|j: int| 0 <= j < i ==> x@[j] == 0,
        decreases x@.len() - i,
    {
        proof {
            assert(x@.skip(i as int)[0] == x@[i as int]);
            assert(x@.skip(i as int).drop_first() =~= x@.skip(i + 1));
        }
        i = i + 1;
    }
    proof {
        let cur = x@.skip(i as int);
        if i < x@.len() {
            assert(cur[0] == x@[i as int]);
        }
        assert(strip_zeros(cur) == cur);
    }
    i
}

/// A fresh copy of `x[a..b]`.
fn copy_range(x: &Vec<u8>, a: usize, b: usize) -> (out: Vec<u8>)
    requires
        a <= b,
        b <= x@.len(),
    ensures
        out@ == x@.subrange(a as int, b as int),
{
    let mut out: Vec<u8> = Vec::new();
    let mut i: usize = a;
    proof {
        assert(out@ =~= x@.subrange(a as int, a as int));
    }
    while i < b
        invariant
            a <= i <= b,
            b <= x@.len(),
            out@ == x@.subrange(a as int, i as int),
        decreases b - i,
    {
        out.push(x[i]);
        proof {
            assert(x@.subrange(a as int, (i + 1) as int) =~= x@.subrange(a as int, i as int).push(
                x@[i as int],
            ));
        }
        i = i + 1;
    }
    out
}

/// Append `n` zero bytes to `out`.
fn push_zeros(out: &mut Vec<u8>, n: usize)
    ensures
        final(out)@ == old(out)@ + Seq::new(n as nat, |i: int| 0u8),
{
    let mut i: usize = 0;
    proof {
        assert(out@ =~= out@ + Seq::new(0nat, |j: int| 0u8));
    }
    while i < n
        invariant
            i <= n,
            out@ == old(out)@ + Seq::new(i as nat, |j: int| 0u8),
        decreases n - i,
    {
        out.push(0);
        proof {
            assert(old(out)@ + Seq::new((i + 1) as nat, |j: int| 0u8) =~= (old(out)@ + Seq::new(
                i as nat,
                |j: int| 0u8,
            )).push(0u8));
        }
        i = i + 1;
    }
}

/// Append all of `x` to `out`.
fn push_bytes(out: &mut Vec<u8>, x: &Vec<u8>)
    ensures
        final(out)@ == old(out)@ + x@,
{
    let mut i: usize = 0;
    proof {
        assert(out@ =~= out@ + x@.subrange(0, 0));
    }
    while i < x.len()
        invariant
            i <= x@.len(),
            out@ == old(out)@ + x@.subrange(0, i as int),
        decreases x@.len() - i,
    {
        out.push(x[i]);
        proof {
            assert(old(out)@ + x@.subrange(0, (i + 1) as int) =~= (old(out)@ + x@.subrange(
                0,
                i as int,
            )).push(x@[i as int]));
        }
        i = i + 1;
    }
    proof {
        assert(x@.subrange(0, x@.len() as int) =~= x@);
    }
}

/// Padding to width is insensitive to leading zeros: a scalar and its
/// stripped form place the same bytes in a fixed-width buffer.
pub proof fn lemma_pad_strip(width: nat, x: Seq<u8>)
    requires
        x.len() <= width,
    ensures
        pad_left(width, strip_zeros(x)) == pad_left(width, x),
{
    lemma_strip_zeros_props(x);
    let t = strip_zeros(x);
    assert(pad_left(width, t).len() == width);
    assert(pad_left(width, x).len() == width);
    assert forall|i: int| 0 <= i < width implies pad_left(width, t)[i] == pad_left(width, x)[i] by {
        if i < width - t.len() {
            if i >= width - x.len() {
                assert(x[i - (width - x.len())] == 0);
            }
        } else {
            assert(t[i - (width - t.len())] == x[i - (width - x.len())]);
        }
    }
    assert(pad_left(width, t) =~= pad_left(width, x));
}

/// Fixed-form round trip: splitting the fixed encoding of `(r, s)` at the
/// midpoint recovers each scalar, left-zero-padded to the scalar width.
pub proof fn lemma_fixed_round_trip(width: nat, r: Seq<u8>, s: Seq<u8>)
    requires
        r.len() <= width,
        s.len() <= width,
    ensures
        fixed_of(width, r, s).len() == 2 * width,
        fixed_of(width, r, s).subrange(0, width as int) == pad_left(width, r),
        fixed_of(width, r, s).subrange(width as int, 2 * width as int) == pad_left(width, s),
{
    assert(fixed_of(width, r, s).subrange(0, width as int) =~= pad_left(width, r));
    assert(fixed_of(width, r, s).subrange(width as int, 2 * width as int) =~= pad_left(width, s));
}

/// ASN.1 round trip: decoding the DER encoding of `(r, s)` succeeds, and
/// re-encoding the decoded scalars in fixed form gives the same bytes as
/// encoding `(r, s)` directly.
pub proof fn lemma_asn1_round_trip(width: nat, r: Seq<u8>, s: Seq<u8>)
    requires
        r.len() <= width,
        s.len() <= width,
        width <= MAX_SCALAR_WIDTH,
    ensures
        spec_parse_sig(der_sig(r, s), width) == Some((strip_zeros(r), strip_zeros(s))),
        fixed_of(width, strip_zeros(r), strip_zeros(s)) == fixed_of(width, r, s),
{
    lemma_parse_of_encode(r, s, width);
    lemma_pad_strip(width, r);
    lemma_pad_strip(width, s);
}

/// ECDSA signature `r` and `s` values, each at most `width` bytes.
#[derive(Debug)]
pub struct ScalarPair {
    /// The curve's scalar byte width.
    pub width: usize,
    /// The `r` scalar value.
    pub r: Vec<u8>,
    /// The `s` scalar value.
    pub s: Vec<u8>,
}

impl ScalarPair {
    /// Structural invariant: neither scalar exceeds the scalar width.
    pub open spec fn wf(&self) -> bool {
        &&& self.width <= MAX_SCALAR_WIDTH
        &&& self.r@.len() <= self.width
        &&& self.s@.len() <= self.width
    }

    /// Parse the given fixed-size ECDSA signature, obtaining the `r` and `s`
    /// scalar pair: the first half of the buffer and the second, as-is.
    pub fn from_fixed_signature(signature: &FixedSignature) -> (p: ScalarPair)
        requires
            signature.wf(),
        ensures
            p.wf(),
            p.width == signature.width,
            p.r@ == signature.bytes@.subrange(0, signature.width as int),
            p.s@ == signature.bytes@.subrange(
                signature.width as int,
                signature.bytes@.len() as int,
            ),
    {
        let width = signature.width;
        let r = copy_range(&signature.bytes, 0, width);
        let s = copy_range(&signature.bytes, width, signature.bytes.len());
        ScalarPair { width, r, s }
    }

    /// Serialize this signature's scalar pair in fixed form: each scalar
    /// right-aligned in its half of a zero-filled `2 * width` byte buffer.
    pub fn to_fixed_signature(&self) -> (sig: FixedSignature)
        requires
            self.wf(),
        ensures
            sig.wf(),
            sig.width == self.width,
            sig.bytes@ == fixed_of(self.width as nat, self.r@, self.s@),
    {
        let mut bytes: Vec<u8> = Vec::new();
        push_zeros(&mut bytes, self.width - self.r.len());
        push_bytes(&mut bytes, &self.r);
        push_zeros(&mut bytes, self.width - self.s.len());
        push_bytes(&mut bytes, &self.s);
        proof {
            assert(bytes@ =~= fixed_of(self.width as nat, self.r@, self.s@));
        }
        FixedSignature { width: self.width, bytes }
    }

    /// Compute the ASN.1 DER encoded length for the provided scalar.  The
    /// DER encoding is signed, so the leading bit must be 0, and minimal,
    /// so redundant leading zero bytes are not counted.
    pub fn asn1_int_length(x: &Vec<u8>) -> (len: usize)
        requires
            x@.len() < usize::MAX,
        ensures
            len == der_int_len(x@),
    {
        let start = strip_start(x);
        let stripped_len = x.len() - start;
        if stripped_len == 0 || x[start] >= 0x80 {
            stripped_len + 1
        } else {
            stripped_len
        }
    }

    /// Append the ASN.1 DER serialization of `scalar` (tag, length, then
    /// the optional sign-guard byte and the stripped value bytes) to `out`.
    /// `len` must be the value `asn1_int_length` computes for the scalar.
    pub fn asn1_int_serialize(scalar: &Vec<u8>, out: &mut Vec<u8>, len: usize)
        requires
            len == der_int_len(scalar@),
            scalar@.len() <= 254,
        ensures
            final(out)@ == old(out)@ + der_int(scalar@),
    {
        proof {
            lemma_der_int_len_bound(scalar@);
        }
        let start = strip_start(scalar);
        out.push(INTEGER_TAG);
        out.push(len as u8);
        if start == scalar.len() || scalar[start] >= 0x80 {
            out.push(0x00);
        }
        let ghost base: Seq<u8> = out@;
        let mut i: usize = start;
        proof {
            assert(out@ =~= base + scalar@.subrange(start as int, start as int));
        }
        while i < scalar.len()
            invariant
                start <= i <= scalar@.len(),
                out@ == base + scalar@.subrange(start as int, i as int),
            decreases scalar@.len() - i,
        {
            out.push(scalar[i]);
            proof {
                assert(scalar@.subrange(start as int, (i + 1) as int) =~= scalar@.subrange(
                    start as int,
                    i as int,
                ).push(scalar@[i as int]));
            }
            i = i + 1;
        }
        proof {
            assert(scalar@.subrange(start as int, scalar@.len() as int) =~= scalar@.skip(
                start as int,
            ));
            assert(out@ =~= old(out)@ + der_int(scalar@));
        }
    }

    /// Serialize this signature's scalar pair as ASN.1 DER: a `SEQUENCE`
    /// of two minimally-encoded `INTEGER`s, its length in short form when
    /// the contents fit below `0x80` bytes and as `0x81` plus one length
    /// byte otherwise.  The output always re-parses: `lemma_asn1_round_trip`
    /// proves that `from_asn1_signature` accepts every buffer produced here.
    pub fn to_asn1_signature(&self) -> (sig: Asn1Signature)
        requires
            self.wf(),
        ensures
            sig.wf(),
            sig.width == self.width,
            sig.bytes@ == der_sig(self.r@, self.s@),
    {
        proof {
            lemma_der_int_len_bound(self.r@);
            lemma_der_int_len_bound(self.s@);
        }
        let rlen = Self::asn1_int_length(&self.r);
        let slen = Self::asn1_int_length(&self.s);
        let zlen = rlen + slen + 4;
        let mut bytes: Vec<u8> = Vec::new();
        bytes.push(SEQUENCE_TAG);
        if zlen >= 0x80 {
            bytes.push(0x81);
            bytes.push(zlen as u8);
        } else {
            bytes.push(zlen as u8);
        }
        proof {
            assert(bytes@ =~= der_sequence_header((der_int(self.r@) + der_int(self.s@)).len()));
        }
        Self::asn1_int_serialize(&self.r, &mut bytes, rlen);
        Self::asn1_int_serialize(&self.s, &mut bytes, slen);
        proof {
            assert(bytes@ == der_sig(self.r@, self.s@));
        }
        Asn1Signature { width: self.width, bytes }
    }

    /// Parse one DER `INTEGER` starting at `start`: tag `0x02`, a
    /// short-form length byte, and that many value bytes present.  On
    /// success returns the value's start index and length.
    pub fn asn1_int_parse(bytes: &Vec<u8>, start: usize) -> (res: Result<(usize, usize), Error>)
        requires
            start <= bytes@.len(),
        ensures
            match res {
                Ok(v) => {
                    &&& v.0 == start + 2
                    &&& v.0 + v.1 <= bytes@.len()
                    &&& spec_int_parse(bytes@.skip(start as int)) == Some(
                        (
                            bytes@.subrange(v.0 as int, (v.0 + v.1) as int),
                            bytes@.skip((v.0 + v.1) as int),
                        ),
                    )
                },
                Err(e) => {
                    &&& spec_int_parse(bytes@.skip(start as int)) is None
                    &&& e.kind_spec() == ErrorKind::ParseError
                },
            },
    {
        let ghost b: Seq<u8> = bytes@.skip(start as int);
        let n = bytes.len();
        if n - start < 3 {
            return Err(Error::new(ErrorKind::ParseError, Some("ASN.1 error: truncated INTEGER")));
        }
        proof {
            assert(b[0] == bytes@[start as int]);
            assert(b[1] == bytes@[start as int + 1]);
        }
        if bytes[start] != INTEGER_TAG {
            return Err(
                Error::new(ErrorKind::ParseError, Some("ASN.1 error: expected INTEGER tag (0x02)")),
            );
        }
        let len_byte = bytes[start + 1];
        if len_byte >= 0x80 {
            return Err(
                Error::new(
                    ErrorKind::ParseError,
                    Some("ASN.1 error: unexpected length for INTEGER"),
                ),
            );
        }
        let vlen = len_byte as usize;
        if vlen > n - start - 2 {
            return Err(
                Error::new(
                    ErrorKind::ParseError,
                    Some("ASN.1 error: unexpected length for INTEGER"),
                ),
            );
        }
        proof {
            assert(b.subrange(2, 2 + vlen as int) =~= bytes@.subrange(
                (start + 2) as int,
                (start + 2 + vlen) as int,
            ));
            assert(b.skip(2 + vlen as int) =~= bytes@.skip((start + 2 + vlen) as int));
        }
        Ok((start + 2, vlen))
    }

    /// Check a parsed `INTEGER` value at `bytes[vstart..vstart + vlen]`
    /// against the scalar width and strip its leading zeros: a value wider
    /// than `width` is accepted only as `width + 1` bytes led by the `0x00`
    /// sign guard.
    fn normalize_scalar(bytes: &Vec<u8>, vstart: usize, vlen: usize, width: usize) -> (res: Result<
        Vec<u8>,
        Error,
    >)
        requires
            vstart + vlen <= bytes@.len(),
            width <= MAX_SCALAR_WIDTH,
        ensures
            match res {
                Ok(v) => {
                    &&& spec_normalize(
                        bytes@.subrange(vstart as int, (vstart + vlen) as int),
                        width as nat,
                    ) == Some(v@)
                    &&& v@.len() <= width
                },
                Err(e) => {
                    &&& spec_normalize(
                        bytes@.subrange(vstart as int, (vstart + vlen) as int),
                        width as nat,
                    ) is None
                    &&& e.kind_spec() == ErrorKind::ParseError
                },
            },
    {
        let ghost raw: Seq<u8> = bytes@.subrange(vstart as int, (vstart + vlen) as int);
        let n = bytes.len();
        let mut a: usize = vstart;
        let mut l: usize = vlen;
        if l > width {
            if l != width + 1 {
                return Err(
                    Error::new(ErrorKind::ParseError, Some("ASN.1 error: overlong integer")),
                );
            }
            proof {
                assert(raw[0] == bytes@[vstart as int]);
            }
            if bytes[a] != 0 {
                return Err(
                    Error::new(
                        ErrorKind::ParseError,
                        Some("ASN.1 error: expected leading 0 on overlong integer"),
                    ),
                );
            }
            proof {
                assert(raw.drop_first() =~= bytes@.subrange(
                    (vstart + 1) as int,
                    (vstart + vlen) as int,
                ));
            }
            a = a + 1;
            l = l - 1;
        } else {
            proof {
                assert(raw =~= bytes@.subrange(a as int, (a + l) as int));
            }
        }
        while l > 0 && bytes[a] == 0
            invariant
                a + l <= n,
                n == bytes@.len(),
                l <= width,
                spec_normalize(raw, width as nat) == Some(
                    strip_zeros(bytes@.subrange(a as int, (a + l) as int)),
                ),
            decreases l,
        {
            proof {
                let cur = bytes@.subrange(a as int, (a + l) as int);
                assert(cur[0] == bytes@[a as int]);
                assert(cur.drop_first() =~= bytes@.subrange((a + 1) as int, (a + l) as int));
            }
            a = a + 1;
            l = l - 1;
        }
        proof {
            let cur = bytes@.subrange(a as int, (a + l) as int);
            if l > 0 {
                assert(cur[0] == bytes@[a as int]);
            }
            assert(strip_zeros(cur) == cur);
        }
        Ok(copy_range(bytes, a, a + l))
    }

    /// Parse the given ASN.1 DER-encoded ECDSA signature, obtaining the
    /// `r` and `s` scalar pair.  The input is untrusted: every declared
    /// length is checked against the bytes actually present, and every
    /// malformed variant is rejected with a `ParseError`.
    pub fn from_asn1_signature(signature: &Asn1Signature) -> (res: Result<ScalarPair, Error>)
        requires
            signature.wf(),
        ensures
            match res {
                Ok(p) => {
                    &&& p.wf()
                    &&& p.width == signature.width
                    &&& spec_parse_sig(signature.bytes@, signature.width as nat) == Some(
                        (p.r@, p.s@),
                    )
                },
                Err(e) => {
                    &&& spec_parse_sig(signature.bytes@, signature.width as nat) is None
                    &&& e.kind_spec() == ErrorKind::ParseError
                },
            },
    {
        let bytes = &signature.bytes;
        let width = signature.width;
        let n = bytes.len();

        // SEQUENCE header: tag, then a length over one or two bytes that
        // must match the number of bytes that follow it.
        if n < 2 {
            return Err(Error::new(ErrorKind::ParseError, Some("ASN.1 error: truncated signature")));
        }
        if bytes[0] != SEQUENCE_TAG {
            return Err(
                Error::new(
                    ErrorKind::ParseError,
                    Some("ASN.1 error: expected first byte to be a SEQUENCE tag"),
                ),
            );
        }
        let zlen = bytes[1];
        let body_start: usize;
        if zlen <= 0x80 {
            if zlen as usize != n - 2 {
                return Err(
                    Error::new(ErrorKind::ParseError, Some("ASN.1 error: sequence length mismatch")),
                );
            }
            body_start = 2;
        } else if zlen == 0x81 {
            if n < 3 {
                return Err(
                    Error::new(ErrorKind::ParseError, Some("ASN.1 error: truncated signature")),
                );
            }
            if bytes[2] as usize != n - 3 {
                return Err(
                    Error::new(ErrorKind::ParseError, Some("ASN.1 error: sequence length mismatch")),
                );
            }
            body_start = 3;
        } else {
            return Err(
                Error::new(ErrorKind::ParseError, Some("ASN.1 error: overlength signature")),
            );
        }
        proof {
            assert(spec_sequence_body(bytes@) == Some(bytes@.skip(body_start as int)));
        }

        // First INTEGER (r)
        let (rstart, rlen) = match Self::asn1_int_parse(bytes, body_start) {
            Ok(v) => v,
            Err(e) => {
                return Err(e);
            },
        };

        // Second INTEGER (s)
        let (sstart, slen) = match Self::asn1_int_parse(bytes, rstart + rlen) {
            Ok(v) => v,
            Err(e) => {
                return Err(e);
            },
        };

        // No bytes may remain after the second integer.
        if sstart + slen != n {
            return Err(
                Error::new(
                    ErrorKind::ParseError,
                    Some("ASN.1 error: trailing data at end of signature"),
                ),
            );
        }
        proof {
            assert(bytes@.skip((sstart + slen) as int).len() == 0);
        }

        // Check each integer against the scalar width and strip leading
        // zeros.
        let r = match Self::normalize_scalar(bytes, rstart, rlen, width) {
            Ok(v) => v,
            Err(e) => {
                return Err(e);
            },
        };
        let s = match Self::normalize_scalar(bytes, sstart, slen, width) {
            Ok(v) => v,
            Err(e) => {
                return Err(e);
            },
        };
        Ok(ScalarPair { width, r, s })
    }
}

} // verus!
