//! The serialization capability of keys and values.
//!
//! A [`Storable`] type can be converted to a byte sequence and reconstructed
//! from one. Encoding a valid in-memory value always succeeds; decoding a
//! canonical image always succeeds and yields a value with exactly that
//! image, which is the round-trip law every implementation proves.

use vstd::prelude::*;
use vstd::slice::slice_to_vec;
use vstd::string::StrSliceExecFns;
use vstd::string::StringSliceAdditionalSpecFns;
use vstd::utf8::char_is_scalar;
use vstd::utf8::encode_scalar;
use vstd::utf8::encode_utf8;
use vstd::utf8::encode_utf8_decode_utf8;
use vstd::utf8::encode_utf8_valid_utf8;
use vstd::utf8::is_scalar;
use vstd::utf8::valid_utf8;

use crate::byte_order::lemma_lex_lt_at;
use crate::byte_order::lex_lt;
use crate::errors::MapError;

verus! {

/// The capability of a type to serialize to and deserialize from a byte
/// sequence.
///
/// `encode_spec` is the canonical image of a value. A decoder may accept
/// more than the canonical images (a schema-carrying format stays decodable
/// after fields are added), but on a canonical image it must succeed and
/// return a value with exactly that image.
pub trait Storable: Sized {
    /// The canonical serialized image of the value.
    spec fn encode_spec(&self) -> Seq<u8>;

    /// The byte strings this type's decoder reads successfully. Every
    /// canonical image is among them; a schema-carrying format also keeps
    /// images written under later schema versions.
    spec fn accepts_spec(bytes: Seq<u8>) -> bool;

    /// Serializes the value; this never fails.
    fn to_bytes(&self) -> (r: Vec<u8>)
        ensures
            r@ == self.encode_spec(),
    ;

    /// Reconstructs a value from bytes: it succeeds exactly on the inputs
    /// that [`Storable::accepts_spec`] names and rejects everything else
    /// with [`MapError::DecodeError`].
    ///
    /// On a canonical image the decoder succeeds and the reconstructed value
    /// is observably equal to the encoded one: it has the same image.
    fn from_bytes(bytes: &[u8]) -> (r: Result<Self, MapError>)
        ensures
            r is Ok <==> Self::accepts_spec(bytes@),
            r matches Err(e) ==> e == MapError::DecodeError,
            (exists|x: Self| x.encode_spec() == bytes@) ==> (r matches Ok(y) && y.encode_spec()
                == bytes@),
    ;
}

/// The eight big-endian bytes of a 64-bit integer; big-endian order makes
/// the byte order of encoded keys agree with the numeric order.
pub open spec fn be64(x: u64) -> Seq<u8> {
    seq![
        ((x >> 56) & 0xff) as u8,
        ((x >> 48) & 0xff) as u8,
        ((x >> 40) & 0xff) as u8,
        ((x >> 32) & 0xff) as u8,
        ((x >> 24) & 0xff) as u8,
        ((x >> 16) & 0xff) as u8,
        ((x >> 8) & 0xff) as u8,
        (x & 0xff) as u8,
    ]
}

/// Equal big-endian images come only from equal 64-bit integers.
pub proof fn lemma_be64_injective(x: u64, y: u64)
    requires
        be64(x) == be64(y),
    ensures
        x == y,
{
    assert(be64(x)[0] == be64(y)[0] && be64(x)[1] == be64(y)[1] && be64(x)[2] == be64(y)[2]
        && be64(x)[3] == be64(y)[3] && be64(x)[4] == be64(y)[4] && be64(x)[5] == be64(y)[5]
        && be64(x)[6] == be64(y)[6] && be64(x)[7] == be64(y)[7]);
    assert(((x >> 56) & 0xff) as u8 == ((y >> 56) & 0xff) as u8 && ((x >> 48) & 0xff) as u8 == ((y
        >> 48) & 0xff) as u8 && ((x >> 40) & 0xff) as u8 == ((y >> 40) & 0xff) as u8 && ((x >> 32)
        & 0xff) as u8 == ((y >> 32) & 0xff) as u8 && ((x >> 24) & 0xff) as u8 == ((y >> 24)
        & 0xff) as u8 && ((x >> 16) & 0xff) as u8 == ((y >> 16) & 0xff) as u8 && ((x >> 8)
        & 0xff) as u8 == ((y >> 8) & 0xff) as u8 && (x & 0xff) as u8 == (y & 0xff) as u8 ==> x == y)
        by (bit_vector);
}

/// Big-endian images sort as the integers do: iterating a map with `u64`
/// keys yields them in increasing numeric order.
pub proof fn lemma_be64_preserves_order(x: u64, y: u64)
    requires
        x < y,
    ensures
        lex_lt(be64(x), be64(y)),
{
    let a = be64(x);
    let b = be64(y);
    if x >> 56 != y >> 56 {
        assert((((x >> 56) & 0xff) as u8) < (((y >> 56) & 0xff) as u8)) by (bit_vector)
            requires
                x < y && x >> 56 != y >> 56,
        ;
        lemma_lex_lt_at(a, b, 0);
    } else if x >> 48 != y >> 48 {
        assert(((x >> 56) & 0xff) as u8 == ((y >> 56) & 0xff) as u8 && (((x >> 48) & 0xff) as u8) < ((
        (y >> 48) & 0xff) as u8)) by (bit_vector)
            requires
                x < y && x >> 56 == y >> 56 && x >> 48 != y >> 48,
        ;
        lemma_lex_lt_at(a, b, 1);
    } else if x >> 40 != y >> 40 {
        assert(((x >> 56) & 0xff) as u8 == ((y >> 56) & 0xff) as u8 && ((x >> 48) & 0xff) as u8
            == ((y >> 48) & 0xff) as u8 && (((x >> 40) & 0xff) as u8) < (((y >> 40) & 0xff) as u8))
            by (bit_vector)
            requires
                x < y && x >> 48 == y >> 48 && x >> 40 != y >> 40,
        ;
        lemma_lex_lt_at(a, b, 2);
    } else if x >> 32 != y >> 32 {
        assert(((x >> 56) & 0xff) as u8 == ((y >> 56) & 0xff) as u8 && ((x >> 48) & 0xff) as u8
            == ((y >> 48) & 0xff) as u8 && ((x >> 40) & 0xff) as u8 == ((y >> 40) & 0xff) as u8
            && (((x >> 32) & 0xff) as u8) < (((y >> 32) & 0xff) as u8)) by (bit_vector)
            requires
                x < y && x >> 40 == y >> 40 && x >> 32 != y >> 32,
        ;
        lemma_lex_lt_at(a, b, 3);
    } else if x >> 24 != y >> 24 {
        assert(((x >> 56) & 0xff) as u8 == ((y >> 56) & 0xff) as u8 && ((x >> 48) & 0xff) as u8
            == ((y >> 48) & 0xff) as u8 && ((x >> 40) & 0xff) as u8 == ((y >> 40) & 0xff) as u8 && (
        (x >> 32) & 0xff) as u8 == ((y >> 32) & 0xff) as u8 && (((x >> 24) & 0xff) as u8) < ((((y >> 24)
            & 0xff) as u8))) by (bit_vector)
            requires
                x < y && x >> 32 == y >> 32 && x >> 24 != y >> 24,
        ;
        lemma_lex_lt_at(a, b, 4);
    } else if x >> 16 != y >> 16 {
        assert(((x >> 56) & 0xff) as u8 == ((y >> 56) & 0xff) as u8 && ((x >> 48) & 0xff) as u8
            == ((y >> 48) & 0xff) as u8 && ((x >> 40) & 0xff) as u8 == ((y >> 40) & 0xff) as u8 && (
        (x >> 32) & 0xff) as u8 == ((y >> 32) & 0xff) as u8 && ((x >> 24) & 0xff) as u8 == ((y
            >> 24) & 0xff) as u8 && (((x >> 16) & 0xff) as u8) < (((y >> 16) & 0xff) as u8))
            by (bit_vector)
            requires
                x < y && x >> 24 == y >> 24 && x >> 16 != y >> 16,
        ;
        lemma_lex_lt_at(a, b, 5);
    } else if x >> 8 != y >> 8 {
        assert(((x >> 56) & 0xff) as u8 == ((y >> 56) & 0xff) as u8 && ((x >> 48) & 0xff) as u8
            == ((y >> 48) & 0xff) as u8 && ((x >> 40) & 0xff) as u8 == ((y >> 40) & 0xff) as u8 && (
        (x >> 32) & 0xff) as u8 == ((y >> 32) & 0xff) as u8 && ((x >> 24) & 0xff) as u8 == ((y
            >> 24) & 0xff) as u8 && ((x >> 16) & 0xff) as u8 == ((y >> 16) & 0xff) as u8 && (((x
            >> 8) & 0xff) as u8) < (((y >> 8) & 0xff) as u8)) by (bit_vector)
            requires
                x < y && x >> 16 == y >> 16 && x >> 8 != y >> 8,
        ;
        lemma_lex_lt_at(a, b, 6);
    } else {
        assert(((x >> 56) & 0xff) as u8 == ((y >> 56) & 0xff) as u8 && ((x >> 48) & 0xff) as u8
            == ((y >> 48) & 0xff) as u8 && ((x >> 40) & 0xff) as u8 == ((y >> 40) & 0xff) as u8 && (
        (x >> 32) & 0xff) as u8 == ((y >> 32) & 0xff) as u8 && ((x >> 24) & 0xff) as u8 == ((y
            >> 24) & 0xff) as u8 && ((x >> 16) & 0xff) as u8 == ((y >> 16) & 0xff) as u8 && ((x
            >> 8) & 0xff) as u8 == ((y >> 8) & 0xff) as u8 && ((x & 0xff) as u8) < ((y & 0xff) as u8))
            by (bit_vector)
            requires
                x < y && x >> 8 == y >> 8,
        ;
        lemma_lex_lt_at(a, b, 7);
    }
}

impl Storable for u64 {
    open spec fn encode_spec(&self) -> Seq<u8> {
        be64(*self)
    }

    open spec fn accepts_spec(bytes: Seq<u8>) -> bool {
        bytes.len() == 8
    }

    fn to_bytes(&self) -> (r: Vec<u8>) {
        let x: u64 = *self;
        let mut r: Vec<u8> = Vec::new();
        r.push(((x >> 56) & 0xff) as u8);
        r.push(((x >> 48) & 0xff) as u8);
        r.push(((x >> 40) & 0xff) as u8);
        r.push(((x >> 32) & 0xff) as u8);
        r.push(((x >> 24) & 0xff) as u8);
        r.push(((x >> 16) & 0xff) as u8);
        r.push(((x >> 8) & 0xff) as u8);
        r.push((x & 0xff) as u8);
        proof {
            assert(r@ =~= be64(x));
        }
        r
    }

    fn from_bytes(bytes: &[u8]) -> (r: Result<u64, MapError>) {
        if bytes.len() != 8 {
            return Err(MapError::DecodeError);
        }
        let b0: u8 = bytes[0];
        let b1: u8 = bytes[1];
        let b2: u8 = bytes[2];
        let b3: u8 = bytes[3];
        let b4: u8 = bytes[4];
        let b5: u8 = bytes[5];
        let b6: u8 = bytes[6];
        let b7: u8 = bytes[7];
        let x: u64 = ((b0 as u64) << 56) | ((b1 as u64) << 48) | ((b2 as u64) << 40) | (
        (b3 as u64) << 32) | ((b4 as u64) << 24) | ((b5 as u64) << 16) | ((b6 as u64) << 8) | (
        b7 as u64);
        proof {
            assert(((x >> 56) & 0xff) as u8 == b0 && ((x >> 48) & 0xff) as u8 == b1 && ((x >> 40)
                & 0xff) as u8 == b2 && ((x >> 32) & 0xff) as u8 == b3 && ((x >> 24) & 0xff) as u8
                == b4 && ((x >> 16) & 0xff) as u8 == b5 && ((x >> 8) & 0xff) as u8 == b6 && (x
                & 0xff) as u8 == b7) by (bit_vector)
                requires
                    x == ((b0 as u64) << 56) | ((b1 as u64) << 48) | ((b2 as u64) << 40) | (
                    (b3 as u64) << 32) | ((b4 as u64) << 24) | ((b5 as u64) << 16) | (
                    (b6 as u64) << 8) | (b7 as u64),
            ;
            assert(be64(x) =~= bytes@);
        }
        Ok(x)
    }
}

impl Storable for Vec<u8> {
    open spec fn encode_spec(&self) -> Seq<u8> {
        self@
    }

    open spec fn accepts_spec(bytes: Seq<u8>) -> bool {
        true
    }

    fn to_bytes(&self) -> (r: Vec<u8>) {
        slice_to_vec(self.as_slice())
    }

    fn from_bytes(bytes: &[u8]) -> (r: Result<Vec<u8>, MapError>) {
        Ok(slice_to_vec(bytes))
    }
}

/// An opaque declaration of the standard library's UTF-8 validation error,
/// so the validator below can be given a contract.
#[verifier::external_type_specification]
#[verifier::external_body]
pub struct ExUtf8Error(core::str::Utf8Error);

/// Relies on core::str::from_utf8: it succeeds exactly on valid UTF-8 input
/// and returns the string slice viewing those same bytes.
pub assume_specification[ core::str::from_utf8 ](v: &[u8]) -> (r: Result<
    &str,
    core::str::Utf8Error,
>)
    ensures
        r is Ok <==> valid_utf8(v@),
        r matches Ok(s) ==> s.spec_bytes() == v@,
;

/// Equal UTF-8 images come only from equal character sequences.
pub proof fn lemma_encode_utf8_injective(a: Seq<char>, b: Seq<char>)
    requires
        encode_utf8(a) == encode_utf8(b),
    ensures
        a == b,
{
    encode_utf8_decode_utf8(a);
    encode_utf8_decode_utf8(b);
}

/// Strict lexicographic order on character sequences, by scalar value.
pub open spec fn lex_lt_chars(a: Seq<char>, b: Seq<char>) -> bool
    decreases a.len(),
{
    if b.len() == 0 {
        false
    } else if a.len() == 0 {
        true
    } else if (a[0] as u32) < (b[0] as u32) {
        true
    } else if (a[0] as u32) > (b[0] as u32) {
        false
    } else {
        lex_lt_chars(a.drop_first(), b.drop_first())
    }
}

/// A shared prefix does not affect the byte order of what follows it.
proof fn lemma_lex_prefix(p: Seq<u8>, s: Seq<u8>, t: Seq<u8>)
    requires
        lex_lt(s, t),
    ensures
        lex_lt(p + s, p + t),
    decreases p.len(),
{
    if p.len() == 0 {
        assert(p + s =~= s);
        assert(p + t =~= t);
    } else {
        lemma_lex_prefix(p.drop_first(), s, t);
        assert((p + s).drop_first() =~= p.drop_first() + s);
        assert((p + t).drop_first() =~= p.drop_first() + t);
    }
}

/// A smaller scalar's UTF-8 bytes sort first, whatever follows either.
proof fn lemma_scalar_order(v1: u32, v2: u32, s: Seq<u8>, t: Seq<u8>)
    requires
        is_scalar(v1),
        is_scalar(v2),
        v1 < v2,
    ensures
        lex_lt(encode_scalar(v1) + s, encode_scalar(v2) + t),
{
    let a = encode_scalar(v1) + s;
    let b = encode_scalar(v2) + t;
    if v2 <= 0x7F {
        assert(((v1 & 0x7F) as u8) < ((v2 & 0x7F) as u8)) by (bit_vector)
            requires
                v1 < v2 && v2 <= 0x7F,
        ;
        lemma_lex_lt_at(a, b, 0);
    } else if v1 <= 0x7F {
        assert(((v1 & 0x7F) as u8) < (0xC0u8 | (((v2 >> 6) & 0x1F) as u8)) && ((v1
            & 0x7F) as u8) < (0xE0u8 | (((v2 >> 12) & 0x0F) as u8)) && ((v1 & 0x7F) as u8) < (
        0xF0u8 | (((v2 >> 18) & 0x7) as u8))) by (bit_vector);
        lemma_lex_lt_at(a, b, 0);
    } else if v2 <= 0x7FF {
        if v1 >> 6 == v2 >> 6 {
            assert((0xC0u8 | (((v1 >> 6) & 0x1F) as u8)) == (0xC0u8 | (((v2 >> 6)
                & 0x1F) as u8)) && ((0x80u8 | ((v1 & 0x3F) as u8)) < (0x80u8 | ((v2
                & 0x3F) as u8)))) by (bit_vector)
                requires
                    v1 < v2 && v1 >> 6 == v2 >> 6,
            ;
            lemma_lex_lt_at(a, b, 1);
        } else {
            assert((0xC0u8 | (((v1 >> 6) & 0x1F) as u8)) < (0xC0u8 | (((v2 >> 6)
                & 0x1F) as u8))) by (bit_vector)
                requires
                    v1 < v2 && v2 <= 0x7FF && v1 >> 6 != v2 >> 6,
            ;
            lemma_lex_lt_at(a, b, 0);
        }
    } else if v1 <= 0x7FF {
        assert((0xC0u8 | (((v1 >> 6) & 0x1F) as u8)) < (0xE0u8 | (((v2 >> 12)
            & 0x0F) as u8)) && (0xC0u8 | (((v1 >> 6) & 0x1F) as u8)) < (0xF0u8 | (((v2 >> 18)
            & 0x7) as u8))) by (bit_vector);
        lemma_lex_lt_at(a, b, 0);
    } else if v2 <= 0xFFFF {
        if v1 >> 12 != v2 >> 12 {
            assert((0xE0u8 | (((v1 >> 12) & 0x0F) as u8)) < (0xE0u8 | (((v2 >> 12)
                & 0x0F) as u8))) by (bit_vector)
                requires
                    v1 < v2 && v2 <= 0xFFFF && v1 >> 12 != v2 >> 12,
            ;
            lemma_lex_lt_at(a, b, 0);
        } else if v1 >> 6 != v2 >> 6 {
            assert((0xE0u8 | (((v1 >> 12) & 0x0F) as u8)) == (0xE0u8 | (((v2 >> 12)
                & 0x0F) as u8)) && ((0x80u8 | (((v1 >> 6) & 0x3F) as u8)) < (0x80u8 | (((v2 >> 6)
                & 0x3F) as u8)))) by (bit_vector)
                requires
                    v1 < v2 && v1 >> 12 == v2 >> 12 && v1 >> 6 != v2 >> 6,
            ;
            lemma_lex_lt_at(a, b, 1);
        } else {
            assert((0xE0u8 | (((v1 >> 12) & 0x0F) as u8)) == (0xE0u8 | (((v2 >> 12)
                & 0x0F) as u8)) && (0x80u8 | (((v1 >> 6) & 0x3F) as u8)) == (0x80u8 | (((v2 >> 6)
                & 0x3F) as u8)) && ((0x80u8 | ((v1 & 0x3F) as u8)) < (0x80u8 | ((v2
                & 0x3F) as u8)))) by (bit_vector)
                requires
                    v1 < v2 && v1 >> 6 == v2 >> 6,
            ;
            lemma_lex_lt_at(a, b, 2);
        }
    } else if v1 <= 0xFFFF {
        assert((0xE0u8 | (((v1 >> 12) & 0x0F) as u8)) < (0xF0u8 | (((v2 >> 18)
            & 0x7) as u8))) by (bit_vector);
        lemma_lex_lt_at(a, b, 0);
    } else {
        if v1 >> 18 != v2 >> 18 {
            assert((0xF0u8 | (((v1 >> 18) & 0x7) as u8)) < (0xF0u8 | (((v2 >> 18)
                & 0x7) as u8))) by (bit_vector)
                requires
                    v1 < v2 && v2 <= 0x10FFFF && 0x10000 <= v1 && v1 >> 18 != v2 >> 18,
            ;
            lemma_lex_lt_at(a, b, 0);
        } else if v1 >> 12 != v2 >> 12 {
            assert((0xF0u8 | (((v1 >> 18) & 0x7) as u8)) == (0xF0u8 | (((v2 >> 18)
                & 0x7) as u8)) && ((0x80u8 | (((v1 >> 12) & 0x3F) as u8)) < (0x80u8 | (((v2 >> 12)
                & 0x3F) as u8)))) by (bit_vector)
                requires
                    v1 < v2 && v1 >> 18 == v2 >> 18 && v1 >> 12 != v2 >> 12,
            ;
            lemma_lex_lt_at(a, b, 1);
        } else if v1 >> 6 != v2 >> 6 {
            assert((0xF0u8 | (((v1 >> 18) & 0x7) as u8)) == (0xF0u8 | (((v2 >> 18)
                & 0x7) as u8)) && (0x80u8 | (((v1 >> 12) & 0x3F) as u8)) == (0x80u8 | (((v2 >> 12)
                & 0x3F) as u8)) && ((0x80u8 | (((v1 >> 6) & 0x3F) as u8)) < (0x80u8 | (((v2 >> 6)
                & 0x3F) as u8)))) by (bit_vector)
                requires
                    v1 < v2 && v1 >> 12 == v2 >> 12 && v1 >> 6 != v2 >> 6,
            ;
            lemma_lex_lt_at(a, b, 2);
        } else {
            assert((0xF0u8 | (((v1 >> 18) & 0x7) as u8)) == (0xF0u8 | (((v2 >> 18)
                & 0x7) as u8)) && (0x80u8 | (((v1 >> 12) & 0x3F) as u8)) == (0x80u8 | (((v2 >> 12)
                & 0x3F) as u8)) && (0x80u8 | (((v1 >> 6) & 0x3F) as u8)) == (0x80u8 | (((v2 >> 6)
                & 0x3F) as u8)) && ((0x80u8 | ((v1 & 0x3F) as u8)) < (0x80u8 | ((v2
                & 0x3F) as u8)))) by (bit_vector)
                requires
                    v1 < v2 && v1 >> 6 == v2 >> 6,
            ;
            lemma_lex_lt_at(a, b, 3);
        }
    }
}

/// UTF-8 images sort as the character sequences do: iterating a map with
/// string keys yields them in increasing character order.
pub proof fn lemma_utf8_preserves_order(a: Seq<char>, b: Seq<char>)
    requires
        lex_lt_chars(a, b),
    ensures
        lex_lt(encode_utf8(a), encode_utf8(b)),
    decreases a.len(),
{
    char_is_scalar(b[0]);
    if a.len() == 0 {
        assert(encode_scalar(b[0] as u32).len() >= 1);
    } else {
        char_is_scalar(a[0]);
        if (a[0] as u32) < (b[0] as u32) {
            lemma_scalar_order(
                a[0] as u32,
                b[0] as u32,
                encode_utf8(a.drop_first()),
                encode_utf8(b.drop_first()),
            );
        } else {
            lemma_utf8_preserves_order(a.drop_first(), b.drop_first());
            lemma_lex_prefix(
                encode_scalar(a[0] as u32),
                encode_utf8(a.drop_first()),
                encode_utf8(b.drop_first()),
            );
        }
    }
}

impl Storable for String {
    open spec fn encode_spec(&self) -> Seq<u8> {
        encode_utf8(self@)
    }

    open spec fn accepts_spec(bytes: Seq<u8>) -> bool {
        valid_utf8(bytes)
    }

    fn to_bytes(&self) -> (r: Vec<u8>) {
        self.as_str().as_bytes_vec()
    }

    fn from_bytes(bytes: &[u8]) -> (r: Result<String, MapError>) {
        match core::str::from_utf8(bytes) {
            Ok(s) => {
                let owned: String = s.to_owned();
                Ok(owned)
            },
            Err(_) => {
                proof {
                    if exists|x: String| x.encode_spec() == bytes@ {
                        let x = choose|x: String| x.encode_spec() == bytes@;
                        encode_utf8_valid_utf8(x@);
                    }
                }
                Err(MapError::DecodeError)
            },
        }
    }
}

} // verus!
