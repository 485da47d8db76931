//! Bijective variable-length encoding for signed 64-bit integers.
//!
//! bijou64s composes the standard zigzag bijection with the
//! [`bijou64`](crate::bijou64) wire format:
//!
//! ```text
//! encode(n) = bijou64_encode(zigzag(n))      zigzag(n) = (n << 1) ^ (n >> 63)
//! ```
//!
//! Zigzag interleaves the signed integers around zero (`0, -1, 1, -2, 2, …`
//! to `0, 1, 2, 3, 4, …`), so small values of either sign get short
//! encodings: one byte for `[-124, 123]`. Everything structural is inherited
//! from bijou64: the length comes from the first byte, and each `i64` has
//! exactly one encoding and vice versa.
//!
//! Byte-lexicographic order of encodings is **zigzag order, not numeric
//! order** (`0, -1, 1, -2, 2, …`).

use crate::bijou64;
use crate::wire;
use vstd::prelude::*;

pub use crate::bijou64::{DecodeError, MAX_BYTES};

verus! {

/// Stack-only encoded form of a bijou64s value: a bijou64s encoding *is* a
/// bijou64 encoding of the zigzag-mapped value, so this is the same type.
/// Its byte order is zigzag order, not numeric order.
pub type EncodedI64 = crate::bijou64::EncodedU64;

/// The encoding of `value`: the bijou64 encoding of its zigzag image.
pub open spec fn encoding(value: i64) -> Seq<u8> {
    bijou64::encoding(wire::zigzag_spec(value as int) as u64)
}

/// What decoding the front of `bytes` gives.
pub open spec fn decoded(bytes: Seq<u8>) -> Result<(i64, usize), DecodeError> {
    match bijou64::decoded(bytes) {
        Ok((u, n)) => Ok((wire::unzigzag_spec(u as nat) as i64, n)),
        Err(e) => Err(e),
    }
}

/// The decoder of this format, as a spec function.
pub open spec fn decoder() -> spec_fn(Seq<u8>) -> Result<(i64, usize), DecodeError> {
    |s: Seq<u8>| decoded(s)
}

/// What decoding every value of `bytes`, front to back, gives.
pub open spec fn decoded_all(bytes: Seq<u8>) -> Result<Seq<i64>, DecodeError> {
    wire::stream(decoder(), bytes)
}

/// Maps an `i64` onto a `u64` by interleaving around zero:
/// `0, -1, 1, -2, 2, …` to `0, 1, 2, 3, 4, …`.
pub fn zigzag(n: i64) -> (r: u64)
    ensures
        r == wire::zigzag_spec(n as int),
        n >= 0 ==> r == 2 * n,
        n < 0 ==> r == -2 * n - 1,
{
    let r = ((n << 1) ^ (n >> 63)) as u64;
    assert(r == if n >= 0 { (2 * n) as u64 } else { (-2 * n - 1) as u64 }) by (bit_vector)
        requires
            r == ((n << 1) ^ (n >> 63)) as u64,
    ;
    r
}

/// Inverse of [`zigzag`].
pub fn unzigzag(u: u64) -> (r: i64)
    ensures
        r == wire::unzigzag_spec(u as nat),
        u % 2 == 0 ==> r == u / 2,
        u % 2 == 1 ==> r == -((u + 1) / 2),
{
    assert(u & 1 <= 1) by (bit_vector);
    let low = (u & 1) as i64;
    let mask = -low;
    let r = ((u >> 1) as i64) ^ mask;
    assert(r == if u % 2 == 0 { (u / 2) as i64 } else { (-(((u + 1) / 2) as int)) as i64 })
        by (bit_vector)
        requires
            low == (u & 1) as i64,
            mask == -low,
            r == ((u >> 1) as i64) ^ mask,
    ;
    r
}

/// Returns the number of bytes needed to encode `value` (1..=9).
pub fn encoded_len(value: i64) -> (r: usize)
    ensures
        r == encoding(value).len(),
        1 <= r <= MAX_BYTES,
{
    bijou64::encoded_len(zigzag(value))
}

/// Encodes `value`, appending its bytes to `buf`.
pub fn encode(value: i64, buf: &mut Vec<u8>)
    ensures
        final(buf)@ == old(buf)@ + encoding(value),
{
    bijou64::encode(zigzag(value), buf);
}

/// Encodes `value` without allocating.
pub fn encoded_bytes(value: i64) -> (r: EncodedI64)
    ensures
        r@ == encoding(value),
{
    bijou64::encoded_bytes(zigzag(value))
}

/// Decodes one value from the front of `buf`, returning it with the number
/// of bytes consumed.
///
/// Fails with [`DecodeError::BufferTooShort`] on truncated input, and with
/// [`DecodeError::Overflow`] if a 9-byte payload exceeds the `u64` (zigzag)
/// range.
pub fn decode(buf: &[u8]) -> (r: Result<(i64, usize), DecodeError>)
    ensures
        r == decoded(buf@),
{
    match bijou64::decode(buf) {
        Ok((value, consumed)) => Ok((unzigzag(value), consumed)),
        Err(err) => Err(err),
    }
}

/// Lazy decoder returned by [`decode_iter`]: wraps the bijou64 decoder and
/// un-zigzags each value; it yields `None` for good after an error.
#[derive(Debug)]
#[must_use]
pub struct DecodeIter<'a> {
    inner: bijou64::DecodeIter<'a>,
}

/// Returns a lazy decoder over the values encoded in `buf`.
pub fn decode_iter(buf: &[u8]) -> (r: DecodeIter<'_>)
    ensures
        r.remaining() == buf@,
        !r.is_fused(),
{
    DecodeIter { inner: bijou64::decode_iter(buf) }
}

impl<'a> DecodeIter<'a> {
    /// The bytes not yet decoded.
    pub closed spec fn remaining(&self) -> Seq<u8> {
        self.inner.remaining()
    }

    /// Whether an error has been yielded.
    pub closed spec fn is_fused(&self) -> bool {
        self.inner.is_fused()
    }

    /// Whether one call of [`Self::next`] takes `self` to `after` and
    /// yields `r` (see [`wire::cursor_step`]): nothing once stopped or used
    /// up; else the next value and the cursor past it, or the error and a
    /// stop.
    pub open spec fn steps_to(self, after: Self, r: Option<Result<i64, DecodeError>>) -> bool {
        wire::cursor_step(
            decoder(),
            (self.remaining(), self.is_fused()),
            (after.remaining(), after.is_fused()),
            r,
        )
    }

    /// Decodes the next value, or returns `None` once the input is used up
    /// or after an error.
    pub fn next(&mut self) -> (r: Option<Result<i64, DecodeError>>)
        ensures
            old(self).steps_to(*final(self), r),
    {
        match self.inner.next() {
            Some(Ok(value)) => Some(Ok(unzigzag(value))),
            Some(Err(err)) => Some(Err(err)),
            None => None,
        }
    }

    /// Bounds on how many more items [`Self::next`] yields.
    pub fn size_hint(&self) -> (r: (usize, Option<usize>))
        ensures
            self.is_fused() || self.remaining().len() == 0 ==> r == (0usize, Some(0usize)),
            !self.is_fused() && self.remaining().len() > 0 ==> r == (
                1usize,
                Some(self.remaining().len() as usize),
            ),
    {
        self.inner.size_hint()
    }
}

/// Decodes every value encoded in `buf`, in order (all-or-nothing: the
/// first error is returned and earlier values are discarded).
pub fn decode_all(buf: &[u8]) -> (r: Result<Vec<i64>, DecodeError>)
    ensures
        match r {
            Ok(values) => decoded_all(buf@) == Ok::<Seq<i64>, DecodeError>(values@),
            Err(e) => decoded_all(buf@) == Err::<Seq<i64>, DecodeError>(e),
        },
{
    let mut iter = decode_iter(buf);
    let mut values: Vec<i64> = Vec::new();
    loop
        invariant
            !iter.is_fused(),
            decoded_all(buf@) == match decoded_all(iter.remaining()) {
                Ok(rest) => Ok::<Seq<i64>, DecodeError>(values@ + rest),
                Err(e) => Err::<Seq<i64>, DecodeError>(e),
            },
        decreases iter.remaining().len(),
    {
        let ghost before = iter.remaining();
        proof {
            bijou64::lemma_canonical(before);
        }
        match iter.next() {
            None => {
                proof {
                    assert(values@ + Seq::<i64>::empty() =~= values@);
                }
                return Ok(values);
            },
            Some(Ok(value)) => {
                let ghost old_values = values@;
                values.push(value);
                proof {
                    let n = decoded(before)->Ok_0.1;
                    if n < before.len() {
                        match decoded_all(iter.remaining()) {
                            Ok(rest) => {
                                assert(old_values + (seq![value] + rest) =~= values@ + rest);
                            },
                            Err(e) => {},
                        }
                    } else {
                        assert(iter.remaining().len() == 0);
                        assert(old_values + seq![value] =~= values@ + Seq::<i64>::empty());
                    }
                }
            },
            Some(Err(err)) => {
                return Err(err);
            },
        }
    }
}

/// Zigzag is a bijection between `i64` and `u64`.
pub proof fn lemma_zigzag_bijection(n: i64, u: u64)
    ensures
        wire::zigzag_spec(n as int) <= u64::MAX,
        wire::unzigzag_spec(wire::zigzag_spec(n as int)) == n,
        i64::MIN <= wire::unzigzag_spec(u as nat) <= i64::MAX,
        wire::zigzag_spec(wire::unzigzag_spec(u as nat)) == u,
{
    wire::lemma_zigzag(n as int, u as nat, 0x8000_0000_0000_0000);
}

/// Every value round-trips, whatever bytes follow its encoding.
pub proof fn lemma_round_trip(value: i64, rest: Seq<u8>)
    ensures
        decoded(encoding(value) + rest) == Ok::<(i64, usize), DecodeError>(
            (value, encoding(value).len() as usize),
        ),
        1 <= encoding(value).len() <= MAX_BYTES,
{
    lemma_zigzag_bijection(value, 0);
    bijou64::lemma_round_trip(wire::zigzag_spec(value as int) as u64, rest);
}

/// Canonicality: whatever decodes is exactly the encoding of the value it
/// decodes to.
pub proof fn lemma_canonical(bytes: Seq<u8>)
    ensures
        decoded(bytes) matches Ok((v, n)) ==> {
            &&& encoding(v) == bytes.subrange(0, n as int)
            &&& 1 <= n <= bytes.len()
            &&& n <= MAX_BYTES
        },
{
    bijou64::lemma_canonical(bytes);
    if let Ok((u, n)) = bijou64::decoded(bytes) {
        lemma_zigzag_bijection(0, u);
    }
}

/// The only errors are those of the unsigned decoder underneath: a buffer
/// that is empty or shorter than its first byte announces is too short,
/// and overflow happens only under the top tag `0xFF`.
pub proof fn lemma_errors(bytes: Seq<u8>)
    ensures
        decoded(bytes) == Err::<(i64, usize), DecodeError>(DecodeError::BufferTooShort) <==> (
        bytes.len() == 0 || bytes.len() < wire::len_from_tag(248, bytes[0])),
        decoded(bytes) == Err::<(i64, usize), DecodeError>(DecodeError::Overflow) ==> bytes[0]
            == 0xFF,
{
    bijou64::lemma_errors(bytes);
}

/// Every tier is split evenly around zero: `n` and `!n` (that is,
/// `-n - 1`) encode to the same number of bytes.
pub proof fn lemma_even_split(n: i64)
    ensures
        encoding(n).len() == encoding(!n).len(),
{
    assert(!n == -n - 1) by (bit_vector);
    lemma_zigzag_bijection(n, 0);
    lemma_zigzag_bijection(!n, 0);
    bijou64::lemma_tables();
    if n >= 0 {
        wire::lemma_encoding_len_pair(248, 8, n as nat);
    } else {
        wire::lemma_encoding_len_pair(248, 8, (-n - 1) as nat);
    }
}

/// A signed value is written as the bijou64 encoding of its sign-interleaved
/// image: `n >= 0` as that of `2n`, `n < 0` as that of `-2n - 1`; and a
/// bijou64 value `u` decodes back as `u / 2` when even, `-(u + 1) / 2` when
/// odd, with the same byte count.
pub proof fn lemma_sign_pairing(n: i64, bytes: Seq<u8>)
    ensures
        n >= 0 ==> encoding(n) == bijou64::encoding((2 * n) as u64),
        n < 0 ==> encoding(n) == bijou64::encoding((-2 * n - 1) as u64),
        bijou64::decoded(bytes) matches Ok((u, c)) ==> decoded(bytes) == Ok::<(i64, usize), DecodeError>(
            (
                if u % 2 == 0 {
                    (u / 2) as i64
                } else {
                    (-((u + 1) / 2)) as i64
                },
                c,
            ),
        ),
{
    wire::lemma_zigzag_interleaves(n as int);
    if let Ok((u, c)) = bijou64::decoded(bytes) {
        wire::lemma_unzigzag_by_parity((u / 2) as nat);
    }
}

/// Byte-lexicographic order of encodings is zigzag order: `a` sorts before
/// `b` exactly when `zigzag(a) < zigzag(b)`.
pub proof fn lemma_zigzag_order(a: i64, b: i64)
    ensures
        wire::zigzag_spec(a as int) < wire::zigzag_spec(b as int) <==> wire::lex_lt(
            encoding(a),
            encoding(b),
        ),
{
    lemma_zigzag_bijection(a, 0);
    lemma_zigzag_bijection(b, 0);
    bijou64::lemma_order(wire::zigzag_spec(a as int) as u64, wire::zigzag_spec(b as int) as u64);
}

/// A stream of back-to-back encodings decodes to exactly the values
/// encoded, in order.
pub proof fn lemma_stream(values: Seq<i64>)
    ensures
        decoded_all(wire::concat_encodings(|v: i64| encoding(v), values)) == Ok::<
            Seq<i64>,
            DecodeError,
        >(values),
{
    assert forall|x: i64, rest: Seq<u8>|
        #![trigger decoded(encoding(x) + rest)]
        1 <= encoding(x).len() <= usize::MAX && decoded(encoding(x) + rest) == Ok::<
            (i64, usize),
            DecodeError,
        >((x, encoding(x).len() as usize)) by {
        lemma_round_trip(x, rest);
    }
    wire::lemma_stream_of_encodings(decoder(), |v: i64| encoding(v), values);
}

/// Running the lazy decoder from a fresh cursor over `buf` and calling
/// [`DecodeIter::next`] until it first yields nothing yields exactly what
/// the manual cursor loop emits: each value in turn, advancing past the
/// bytes it took, and the first error as the last item.
pub proof fn lemma_iteration<'a>(
    buf: Seq<u8>,
    states: Seq<DecodeIter<'a>>,
    outs: Seq<Option<Result<i64, DecodeError>>>,
)
    requires
        outs.len() >= 1,
        states.len() == outs.len() + 1,
        states[0].remaining() == buf,
        !states[0].is_fused(),
        forall|i: int| 0 <= i < outs.len() ==> states[i].steps_to(states[i + 1], #[trigger] outs[i]),
        outs.last() is None,
        forall|i: int| 0 <= i < outs.len() - 1 ==> #[trigger] outs[i] is Some,
    ensures
        outs.drop_last().map_values(|o: Option<Result<i64, DecodeError>>| o->Some_0)
            == wire::emitted(decoder(), buf),
{
    let pairs = states.map_values(|it: DecodeIter<'a>| (it.remaining(), it.is_fused()));
    assert forall|s: Seq<u8>| #[trigger]
        decoder()(s) matches Ok((_, n)) ==> 1 <= n <= s.len() by {
        lemma_canonical(s);
    }
    assert forall|i: int| 0 <= i < outs.len() implies wire::cursor_step(
        decoder(),
        pairs[i],
        pairs[i + 1],
        #[trigger] outs[i],
    ) by {
        assert(states[i].steps_to(states[i + 1], outs[i]));
    }
    wire::lemma_cursor_run(decoder(), pairs, outs);
}

/// Decoding a whole buffer is collecting what the lazy decoder yields: all
/// values in order, or the first error with the earlier values discarded.
pub proof fn lemma_decode_all_collects(buf: Seq<u8>)
    ensures
        decoded_all(buf) == wire::collect_results(wire::emitted(decoder(), buf)),
{
    wire::lemma_collect_emitted(decoder(), buf);
}

} // verus!
