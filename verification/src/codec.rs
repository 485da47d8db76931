//! The [`Encode`] / [`Decode`] traits and their implementations on the
//! primitive integer types.
//!
//! Lives in its own module because the format modules `i32`, `i64` and
//! `i128` are named after the primitives: at the crate root those module
//! names shadow the primitive types.

use crate::wire;
use vstd::prelude::*;

verus! {

/// Encoding half of a bijou codec, implemented directly on the integer
/// type. Mirrors the free functions of the format modules.
pub trait Encode: Copy + Sized {
    /// Stack-only encoded form, whose view is exactly the encoded bytes;
    /// every implementation here also yields them through `as_ref()`.
    type Encoded: View<V = Seq<u8>>;

    /// Maximum encoded length in bytes (e.g. 9 for `u64`).
    const MAX_BYTES: usize;

    /// The encoding of `self`.
    spec fn encoding(self) -> Seq<u8>;

    /// Number of bytes `self` encodes to (`1..=MAX_BYTES`).
    fn encoded_len(self) -> (r: usize)
        ensures
            r == self.encoding().len(),
            1 <= r <= Self::MAX_BYTES,
    ;

    /// Appends the encoding of `self` to `buf`.
    fn encode(self, buf: &mut Vec<u8>)
        ensures
            final(buf)@ == old(buf)@ + self.encoding(),
    ;

    /// Encodes `self` without allocating.
    fn encoded_bytes(self) -> (r: Self::Encoded)
        ensures
            r@ == self.encoding(),
    ;
}

/// Decoding half of a bijou codec, implemented directly on the integer
/// type.
pub trait Decode: Copy + Sized {
    /// Decode failure.
    type Error;

    /// What decoding the front of `bytes` gives. Every verified
    /// implementation defines it; the default leaves it unspecified.
    closed spec fn decoded(bytes: Seq<u8>) -> Result<(Self, usize), Self::Error> {
        vstd::pervasive::arbitrary()
    }

    /// Decodes one value from the front of `bytes`, returning it with the
    /// number of bytes consumed, which is at least one.
    fn decode(bytes: &[u8]) -> (r: Result<(Self, usize), Self::Error>)
        ensures
            r == Self::decoded(bytes@),
            r matches Ok((_, n)) ==> 1 <= n,
    ;

    /// Decodes every value in `bytes`, all-or-nothing: the first error is
    /// returned and prior values are discarded.
    ///
    /// The default body loops [`Decode::decode`], advancing past the bytes
    /// each value consumed; a count beyond the remaining input ends the
    /// input.
    fn decode_all(bytes: &[u8]) -> (r: Result<Vec<Self>, Self::Error>)
        ensures
            match r {
                Ok(values) => wire::stream(|s: Seq<u8>| Self::decoded(s), bytes@) == Ok::<
                    Seq<Self>,
                    Self::Error,
                >(values@),
                Err(e) => wire::stream(|s: Seq<u8>| Self::decoded(s), bytes@) == Err::<
                    Seq<Self>,
                    Self::Error,
                >(e),
            },
    {
        let mut values: Vec<Self> = Vec::new();
        let mut remaining = bytes;
        while !remaining.is_empty()
            invariant
                wire::stream(|s: Seq<u8>| Self::decoded(s), bytes@) == match wire::stream(
                    |s: Seq<u8>| Self::decoded(s),
                    remaining@,
                ) {
                    Ok(rest) => Ok::<Seq<Self>, Self::Error>(values@ + rest),
                    Err(e) => Err::<Seq<Self>, Self::Error>(e),
                },
            decreases remaining@.len(),
        {
            let ghost before = remaining@;
            let (value, consumed) = match Self::decode(remaining) {
                Ok(pair) => pair,
                Err(e) => {
                    return Err(e);
                },
            };
            let ghost old_values = values@;
            values.push(value);
            remaining = if consumed <= remaining.len() {
                remaining.split_at(consumed).1
            } else {
                remaining.split_at(remaining.len()).1
            };
            proof {
                if consumed < before.len() {
                    match wire::stream(|s: Seq<u8>| Self::decoded(s), remaining@) {
                        Ok(rest) => {
                            assert(old_values + (seq![value] + rest) =~= values@ + rest);
                        },
                        Err(e) => {},
                    }
                } else {
                    assert(old_values + seq![value] =~= values@ + Seq::<Self>::empty());
                }
            }
        }
        proof {
            assert(values@ + Seq::<Self>::empty() =~= values@);
        }
        Ok(values)
    }
}

impl Encode for u64 {
    type Encoded = crate::bijou64::EncodedU64;

    const MAX_BYTES: usize = crate::bijou64::MAX_BYTES;

    open spec fn encoding(self) -> Seq<u8> {
        crate::bijou64::encoding(self)
    }

    fn encoded_len(self) -> (r: usize) {
        crate::bijou64::encoded_len(self)
    }

    fn encode(self, buf: &mut Vec<u8>) {
        crate::bijou64::encode(self, buf);
    }

    fn encoded_bytes(self) -> (r: crate::bijou64::EncodedU64) {
        crate::bijou64::encoded_bytes(self)
    }
}

impl Decode for u64 {
    type Error = crate::bijou64::DecodeError;

    open spec fn decoded(bytes: Seq<u8>) -> Result<(u64, usize), crate::bijou64::DecodeError> {
        crate::bijou64::decoded(bytes)
    }

    fn decode(bytes: &[u8]) -> (r: Result<(u64, usize), crate::bijou64::DecodeError>) {
        proof {
            crate::bijou64::lemma_canonical(bytes@);
        }
        crate::bijou64::decode(bytes)
    }

    fn decode_all(bytes: &[u8]) -> (r: Result<Vec<u64>, crate::bijou64::DecodeError>) {
        let r = crate::bijou64::decode_all(bytes);
        proof {
            assert((|s: Seq<u8>| Self::decoded(s)) =~= crate::bijou64::decoder());
        }
        r
    }
}

impl Encode for u32 {
    type Encoded = crate::bijou32::EncodedU32;

    const MAX_BYTES: usize = crate::bijou32::MAX_BYTES;

    open spec fn encoding(self) -> Seq<u8> {
        crate::bijou32::encoding(self)
    }

    fn encoded_len(self) -> (r: usize) {
        crate::bijou32::encoded_len(self)
    }

    fn encode(self, buf: &mut Vec<u8>) {
        crate::bijou32::encode(self, buf);
    }

    fn encoded_bytes(self) -> (r: crate::bijou32::EncodedU32) {
        crate::bijou32::encoded_bytes(self)
    }
}

impl Decode for u32 {
    type Error = crate::bijou32::DecodeError;

    open spec fn decoded(bytes: Seq<u8>) -> Result<(u32, usize), crate::bijou32::DecodeError> {
        crate::bijou32::decoded(bytes)
    }

    fn decode(bytes: &[u8]) -> (r: Result<(u32, usize), crate::bijou32::DecodeError>) {
        proof {
            crate::bijou32::lemma_canonical(bytes@);
        }
        crate::bijou32::decode(bytes)
    }

    fn decode_all(bytes: &[u8]) -> (r: Result<Vec<u32>, crate::bijou32::DecodeError>) {
        let r = crate::bijou32::decode_all(bytes);
        proof {
            assert((|s: Seq<u8>| Self::decoded(s)) =~= crate::bijou32::decoder());
        }
        r
    }
}

impl Encode for u128 {
    type Encoded = crate::bijou128::EncodedBytes;

    const MAX_BYTES: usize = crate::bijou128::MAX_BYTES;

    open spec fn encoding(self) -> Seq<u8> {
        crate::bijou128::encoding(self)
    }

    fn encoded_len(self) -> (r: usize) {
        crate::bijou128::encoded_len(self)
    }

    fn encode(self, buf: &mut Vec<u8>) {
        crate::bijou128::encode(self, buf);
    }

    fn encoded_bytes(self) -> (r: crate::bijou128::EncodedBytes) {
        crate::bijou128::encoded_bytes(self)
    }
}

impl Decode for u128 {
    type Error = crate::bijou128::DecodeError;

    open spec fn decoded(bytes: Seq<u8>) -> Result<(u128, usize), crate::bijou128::DecodeError> {
        crate::bijou128::decoded(bytes)
    }

    fn decode(bytes: &[u8]) -> (r: Result<(u128, usize), crate::bijou128::DecodeError>) {
        proof {
            crate::bijou128::lemma_canonical(bytes@);
        }
        crate::bijou128::decode(bytes)
    }

    fn decode_all(bytes: &[u8]) -> (r: Result<Vec<u128>, crate::bijou128::DecodeError>) {
        let r = crate::bijou128::decode_all(bytes);
        proof {
            assert((|s: Seq<u8>| Self::decoded(s)) =~= crate::bijou128::decoder());
        }
        r
    }
}

impl Encode for i32 {
    type Encoded = crate::i32::EncodedI32;

    const MAX_BYTES: usize = crate::i32::MAX_BYTES;

    open spec fn encoding(self) -> Seq<u8> {
        crate::i32::encoding(self)
    }

    fn encoded_len(self) -> (r: usize) {
        crate::i32::encoded_len(self)
    }

    fn encode(self, buf: &mut Vec<u8>) {
        crate::i32::encode(self, buf);
    }

    fn encoded_bytes(self) -> (r: crate::i32::EncodedI32) {
        crate::i32::encoded_bytes(self)
    }
}

impl Decode for i32 {
    type Error = crate::i32::DecodeError;

    open spec fn decoded(bytes: Seq<u8>) -> Result<(i32, usize), crate::i32::DecodeError> {
        crate::i32::decoded(bytes)
    }

    fn decode(bytes: &[u8]) -> (r: Result<(i32, usize), crate::i32::DecodeError>) {
        proof {
            crate::i32::lemma_canonical(bytes@);
        }
        crate::i32::decode(bytes)
    }

    fn decode_all(bytes: &[u8]) -> (r: Result<Vec<i32>, crate::i32::DecodeError>) {
        let r = crate::i32::decode_all(bytes);
        proof {
            assert((|s: Seq<u8>| Self::decoded(s)) =~= crate::i32::decoder());
        }
        r
    }
}

impl Encode for i128 {
    type Encoded = crate::i128::EncodedI128;

    const MAX_BYTES: usize = crate::i128::MAX_BYTES;

    open spec fn encoding(self) -> Seq<u8> {
        crate::i128::encoding(self)
    }

    fn encoded_len(self) -> (r: usize) {
        crate::i128::encoded_len(self)
    }

    fn encode(self, buf: &mut Vec<u8>) {
        crate::i128::encode(self, buf);
    }

    fn encoded_bytes(self) -> (r: crate::i128::EncodedI128) {
        crate::i128::encoded_bytes(self)
    }
}

impl Decode for i128 {
    type Error = crate::i128::DecodeError;

    open spec fn decoded(bytes: Seq<u8>) -> Result<(i128, usize), crate::i128::DecodeError> {
        crate::i128::decoded(bytes)
    }

    fn decode(bytes: &[u8]) -> (r: Result<(i128, usize), crate::i128::DecodeError>) {
        proof {
            crate::i128::lemma_canonical(bytes@);
        }
        crate::i128::decode(bytes)
    }

    fn decode_all(bytes: &[u8]) -> (r: Result<Vec<i128>, crate::i128::DecodeError>) {
        let r = crate::i128::decode_all(bytes);
        proof {
            assert((|s: Seq<u8>| Self::decoded(s)) =~= crate::i128::decoder());
        }
        r
    }
}

impl Encode for i64 {
    type Encoded = crate::i64::EncodedI64;

    const MAX_BYTES: usize = crate::i64::MAX_BYTES;

    open spec fn encoding(self) -> Seq<u8> {
        crate::i64::encoding(self)
    }

    fn encoded_len(self) -> (r: usize) {
        crate::i64::encoded_len(self)
    }

    fn encode(self, buf: &mut Vec<u8>) {
        crate::i64::encode(self, buf);
    }

    fn encoded_bytes(self) -> (r: crate::i64::EncodedI64) {
        crate::i64::encoded_bytes(self)
    }
}

impl Decode for i64 {
    type Error = crate::i64::DecodeError;

    open spec fn decoded(bytes: Seq<u8>) -> Result<(i64, usize), crate::i64::DecodeError> {
        crate::i64::decoded(bytes)
    }

    fn decode(bytes: &[u8]) -> (r: Result<(i64, usize), crate::i64::DecodeError>) {
        proof {
            crate::i64::lemma_canonical(bytes@);
        }
        crate::i64::decode(bytes)
    }

    fn decode_all(bytes: &[u8]) -> (r: Result<Vec<i64>, crate::i64::DecodeError>) {
        let r = crate::i64::decode_all(bytes);
        proof {
            assert((|s: Seq<u8>| Self::decoded(s)) =~= crate::i64::decoder());
        }
        r
    }
}

} // verus!
