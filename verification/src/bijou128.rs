//! Bijective variable-length encoding for unsigned 128-bit integers.
//!
//! bijou128 encodes `u128` values into 1–17 bytes. The first byte decides
//! the length:
//!
//! - `0x00..=0xEF` (0–239): the byte _is_ the value. One byte total.
//! - `0xF0..=0xFF`: length tag of tier `t = tag - 239`, followed by
//!   the `t`-byte big-endian payload `value - OFFSETS[t]`.
//!
//! Each tier starts at the first value that the previous one cannot hold,
//! so every value has exactly one encoding and every encoding decodes to
//! exactly one value. Byte-lexicographic order of encodings is the numeric
//! order of the values. The only decode errors are a short buffer and an
//! overflowing payload in the top tier.

use crate::wire;
use vstd::prelude::*;

pub use crate::wire::DecodeError;

verus! {

/// Maximum number of bytes an encoding can occupy.
pub const MAX_BYTES: usize = 17;

/// Tag byte threshold: values below this are encoded as a single byte.
pub const TAG_THRESHOLD: u8 = 240;

/// Number of multi-byte tiers.
pub const NUM_TIERS: usize = 16;

/// Per-tier offsets, held as `u128` (the width the shared encoder works in).
///
/// `OFFSETS[t]` is the first value that requires tier `t`; tier 0 starts
/// at 0.
pub const OFFSETS: [u128; 17] = [0, 240, 496, 66032, 16843248, 4311810544, 1103823438320, 282578800148976, 72340172838076912, 18519084246547628528, 4740885567116192842224, 1213666705181745367548400, 310698676526526814092329456, 79538861190790864407636279792, 20361948464842461288354887565808, 5212658806999670089818851216785904, 1334440654591915542993625911497130480];

/// Per-tier upper bounds (exclusive): a value is in tier `t` when
/// `OFFSETS[t] <= value < BOUNDS[t]`. The top tier extends to `u128::MAX`.
pub const BOUNDS: [u128; 17] = [240, 496, 66032, 16843248, 4311810544, 1103823438320, 282578800148976, 72340172838076912, 18519084246547628528, 4740885567116192842224, 1213666705181745367548400, 310698676526526814092329456, 79538861190790864407636279792, 20361948464842461288354887565808, 5212658806999670089818851216785904, 1334440654591915542993625911497130480, u128::MAX];

/// The encoding of `value`.
pub open spec fn encoding(value: u128) -> Seq<u8> {
    wire::encoding(240, 16, value as nat)
}

/// What decoding the front of `bytes` gives: the value and the number of
/// bytes consumed, or the error.
pub open spec fn decoded(bytes: Seq<u8>) -> Result<(u128, usize), DecodeError> {
    match wire::decoding(240, 16, bytes) {
        Ok((v, n)) => Ok((v as u128, n as usize)),
        Err(e) => Err(e),
    }
}

/// The decoder of this format, as a spec function.
pub open spec fn decoder() -> spec_fn(Seq<u8>) -> Result<(u128, usize), DecodeError> {
    |s: Seq<u8>| decoded(s)
}

/// What decoding every value of `bytes`, front to back, gives.
pub open spec fn decoded_all(bytes: Seq<u8>) -> Result<Seq<u128>, DecodeError> {
    wire::stream(decoder(), bytes)
}

/// The tables hold the tier recurrence: `OFFSETS[0] = 0`,
/// `OFFSETS[1] = 240`, `OFFSETS[n] = OFFSETS[n - 1] + 256^(n - 1)`, and
/// `BOUNDS[t] = OFFSETS[t + 1]` below the top tier, whose bound is
/// `u128::MAX`.
pub proof fn lemma_tables()
    ensures
        wire::valid_format(240, 16),
        OFFSETS@ == wire::offset_table(240, 16),
        wire::pow256(16) == u128::MAX + 1,
        forall|t: int| 0 <= t < 16 ==> #[trigger] BOUNDS@[t] == OFFSETS@[t + 1],
        BOUNDS@[16] == u128::MAX,
{
    wire::lemma_pow256_widths();
    reveal_with_fuel(wire::pow256, 2);
    reveal_with_fuel(wire::tier_base, 2);
    assert(wire::pow256(2) == 65536nat);
    assert(wire::pow256(3) == 16777216nat);
    assert(wire::pow256(4) == 4294967296nat);
    assert(wire::pow256(5) == 1099511627776nat);
    assert(wire::pow256(6) == 281474976710656nat);
    assert(wire::pow256(7) == 72057594037927936nat);
    assert(wire::pow256(8) == 18446744073709551616nat);
    assert(wire::pow256(9) == 4722366482869645213696nat);
    assert(wire::pow256(10) == 1208925819614629174706176nat);
    assert(wire::pow256(11) == 309485009821345068724781056nat);
    assert(wire::pow256(12) == 79228162514264337593543950336nat);
    assert(wire::pow256(13) == 20282409603651670423947251286016nat);
    assert(wire::pow256(14) == 5192296858534827628530496329220096nat);
    assert(wire::pow256(15) == 1329227995784915872903807060280344576nat);
    assert(wire::pow256(16) == 340282366920938463463374607431768211456nat);
    assert(wire::tier_base(240, 2) == 496nat);
    assert(wire::tier_base(240, 3) == 66032nat);
    assert(wire::tier_base(240, 4) == 16843248nat);
    assert(wire::tier_base(240, 5) == 4311810544nat);
    assert(wire::tier_base(240, 6) == 1103823438320nat);
    assert(wire::tier_base(240, 7) == 282578800148976nat);
    assert(wire::tier_base(240, 8) == 72340172838076912nat);
    assert(wire::tier_base(240, 9) == 18519084246547628528nat);
    assert(wire::tier_base(240, 10) == 4740885567116192842224nat);
    assert(wire::tier_base(240, 11) == 1213666705181745367548400nat);
    assert(wire::tier_base(240, 12) == 310698676526526814092329456nat);
    assert(wire::tier_base(240, 13) == 79538861190790864407636279792nat);
    assert(wire::tier_base(240, 14) == 20361948464842461288354887565808nat);
    assert(wire::tier_base(240, 15) == 5212658806999670089818851216785904nat);
    assert(wire::tier_base(240, 16) == 1334440654591915542993625911497130480nat);
    assert(OFFSETS@ =~= wire::offset_table(240, 16)) by {
        // One branch per index, so that each entry is compared concretely.
        assert forall|i: int| 0 <= i < 17 implies OFFSETS@[i] == wire::offset_table(240, 16)[i] by {
            if i == 0 {
            } else if i == 1 {
            } else if i == 2 {
            } else if i == 3 {
            } else if i == 4 {
            } else if i == 5 {
            } else if i == 6 {
            } else if i == 7 {
            } else if i == 8 {
            } else if i == 9 {
            } else if i == 10 {
            } else if i == 11 {
            } else if i == 12 {
            } else if i == 13 {
            } else if i == 14 {
            } else if i == 15 {
            } else if i == 16 {
            }
        }
    }
}

/// `OFFSETS[t]`, computed from the recurrence `OFFSETS[1] = 240`,
/// `OFFSETS[n] = OFFSETS[n - 1] + 256^(n - 1)`, saturating at `u128::MAX`.
pub fn tier_offset(n: usize) -> (r: u128)
    requires
        n < usize::MAX,
    ensures
        r == (if wire::tier_base(240, n as nat) <= u128::MAX {
            wire::tier_base(240, n as nat)
        } else {
            u128::MAX as nat
        }),
{
    if n == 0 {
        return 0;
    }
    if n == 1 {
        return TAG_THRESHOLD as u128;
    }
    let mut result: u128 = TAG_THRESHOLD as u128;
    let mut power: u128 = 1;
    let mut i: usize = 2;
    while i <= n
        invariant
            2 <= i <= n + 1,
            n < usize::MAX,
            power == (if wire::pow256((i - 2) as nat) <= u128::MAX {
                wire::pow256((i - 2) as nat)
            } else {
                u128::MAX as nat
            }),
            result == (if wire::tier_base(240, (i - 1) as nat) <= u128::MAX {
                wire::tier_base(240, (i - 1) as nat)
            } else {
                u128::MAX as nat
            }),
        decreases n + 1 - i,
    {
        proof {
            wire::lemma_tier_base_step(240, (i - 1) as nat);
            wire::lemma_pow256_pos((i - 2) as nat);
        }
        power = match power.checked_mul(256) {
            Some(p) => p,
            None => u128::MAX,
        };
        result = result.saturating_add(power);
        i += 1;
    }
    result
}

/// Returns the number of bytes needed to encode `value` (1..=17).
pub fn encoded_len(value: u128) -> (r: usize)
    ensures
        r == encoding(value).len(),
        1 <= r <= MAX_BYTES,
{
    proof {
        lemma_tables();
        wire::lemma_encoding_shape(240, 16, value as nat);
    }
    if value < BOUNDS[0] {
        return 1;
    }
    wire::tier_for(TAG_THRESHOLD, NUM_TIERS, OFFSETS.as_slice(), value as u128) + 1
}

/// Encodes `value`, appending its bytes to `buf`.
pub fn encode(value: u128, buf: &mut Vec<u8>)
    ensures
        final(buf)@ == old(buf)@ + encoding(value),
{
    proof {
        lemma_tables();
    }
    wire::encode_into(TAG_THRESHOLD, NUM_TIERS, OFFSETS.as_slice(), value as u128, buf);
}

/// Another name for [`EncodedBytes`], matching `EncodedU32` and `EncodedU64`
/// of the narrower widths.
pub type EncodedU128 = EncodedBytes;

/// A stack-allocated encoding, carrying its own length.
///
/// Returned by [`encoded_bytes`]; [`Self::as_slice`] gives exactly the
/// encoded bytes.
#[derive(Debug, Clone, Copy, PartialEq, Eq, PartialOrd, Ord)]
pub struct EncodedBytes {
    buf: [u8; 17],
    len: u8,
}

impl View for EncodedBytes {
    type V = Seq<u8>;

    closed spec fn view(&self) -> Seq<u8> {
        self.buf@.subrange(0, self.len as int)
    }
}

impl EncodedBytes {
    /// The live bytes are a non-empty prefix of the buffer; the rest is zero.
    #[verifier::type_invariant]
    spec fn well_formed(self) -> bool {
        &&& 1 <= self.len <= 17
        &&& forall|i: int| self.len <= i < 17 ==> self.buf@[i] == 0
    }

    /// Length of the encoding in bytes (always in `1..=MAX_BYTES`).
    pub fn len(&self) -> (r: usize)
        ensures
            r == self@.len(),
            1 <= r <= MAX_BYTES,
    {
        proof {
            use_type_invariant(self);
        }
        self.len as usize
    }

    /// Always `false`: encodings are never empty.
    pub fn is_empty(&self) -> (r: bool)
        ensures
            r == (self@.len() == 0),
            !r,
    {
        proof {
            use_type_invariant(self);
        }
        false
    }

    /// The encoded bytes, of the correct length.
    pub fn as_slice(&self) -> (r: &[u8])
        ensures
            r@ == self@,
    {
        proof {
            use_type_invariant(self);
        }
        self.buf.as_slice().split_at(self.len as usize).0
    }
}

impl core::hash::Hash for EncodedBytes {
    fn hash<H: core::hash::Hasher>(&self, state: &mut H) {
        wire::hash_bytes(self.as_slice(), state);
    }
}

impl core::ops::Deref for EncodedBytes {
    type Target = [u8];

    fn deref(&self) -> (r: &[u8])
        ensures
            r@ == self@,
    {
        self.as_slice()
    }
}

impl AsRef<[u8]> for EncodedBytes {
    fn as_ref(&self) -> (r: &[u8])
        ensures
            r@ == self@,
    {
        self.as_slice()
    }
}

impl core::borrow::Borrow<[u8]> for EncodedBytes {
    fn borrow(&self) -> (r: &[u8])
        ensures
            wire::bytes_view(r) == self@,
    {
        self.as_slice()
    }
}

impl IntoIterator for EncodedBytes {
    type Item = u8;
    type IntoIter = std::vec::IntoIter<u8>;

    fn into_iter(self) -> (r: std::vec::IntoIter<u8>)
        ensures
            vstd::std_specs::iter::IteratorSpec::remaining(&r) == self@,
    {
        broadcast use vstd::std_specs::vec::axiom_spec_into_iter;
        vstd::slice::slice_to_vec(self.as_slice()).into_iter()
    }
}

impl<'a> IntoIterator for &'a EncodedBytes {
    type Item = &'a u8;
    type IntoIter = core::slice::Iter<'a, u8>;

    fn into_iter(self) -> (r: core::slice::Iter<'a, u8>)
        ensures
            vstd::std_specs::iter::IteratorSpec::remaining(&r) == self@.as_ref(),
    {
        broadcast use vstd::std_specs::slice::axiom_spec_slice_iter;
        self.as_slice().iter()
    }
}

/// Encodes `value` without allocating, returning an [`EncodedBytes`]: the tag
/// byte, then the payload's big-endian bytes written from the last one
/// back.
pub fn encoded_bytes(value: u128) -> (r: EncodedBytes)
    ensures
        r@ == encoding(value),
{
    proof {
        lemma_tables();
        wire::lemma_encoding_shape(240, 16, value as nat);
    }
    let mut buf = [0u8; 17];
    if value < BOUNDS[0] {
        buf[0] = value as u8;
        let enc = EncodedBytes { buf, len: 1 };
        proof {
            wire::lemma_tier_search_unique(240, 16, value as nat, 0);
            assert(enc@ =~= encoding(value));
        }
        return enc;
    }
    let tier = wire::tier_for(TAG_THRESHOLD, NUM_TIERS, OFFSETS.as_slice(), value as u128);
    proof {
        wire::lemma_offset_table(240, 16, tier as nat);
    }
    buf[0] = (TAG_THRESHOLD as usize + tier - 1) as u8;
    let payload: u128 = value as u128 - OFFSETS[tier];
    let mut rest: u128 = payload;
    let mut i: usize = tier;
    proof {
        wire::lemma_pow256_widths();
        assert(buf@.subrange(i as int + 1, tier as int + 1) =~= wire::be_bytes(payload as nat, 0));
    }
    while i > 0
        invariant
            i <= tier,
            1 <= tier <= 16,
            buf@[0] == (240 + tier - 1) as u8,
            buf@.subrange(i as int + 1, tier as int + 1) == wire::be_bytes(
                payload as nat,
                (tier - i) as nat,
            ),
            rest == payload as nat / wire::pow256((tier - i) as nat),
            forall|j: int| tier < j < 17 ==> buf@[j] == 0,
        decreases i,
    {
        let ghost k = (tier - i) as nat;
        let ghost prev = buf@;
        buf[i] = (rest % 256) as u8;
        proof {
            wire::lemma_be_bytes_front(payload as nat, k);
            wire::lemma_pow256_pos(k);
            vstd::arithmetic::div_mod::lemma_div_denominator(
                payload as int,
                wire::pow256(k) as int,
                256,
            );
            assert(buf@.subrange(i as int, tier as int + 1) =~= seq![(rest % 256) as u8]
                + prev.subrange(i as int + 1, tier as int + 1));
        }
        rest = rest / 256;
        i -= 1;
    }
    let enc = EncodedBytes { buf, len: (tier + 1) as u8 };
    proof {
        let e = encoding(value);
        assert(e =~= seq![e[0]] + e.drop_first());
        assert(enc@ =~= encoding(value));
    }
    enc
}

/// Decodes one value from the front of `buf`, returning it with the number
/// of bytes consumed. Trailing bytes are left alone.
///
/// Fails with [`DecodeError::BufferTooShort`] if `buf` is shorter than the
/// encoding its first byte announces, and with [`DecodeError::Overflow`] if
/// a top-tier payload, added to its offset, exceeds `u128::MAX`.
pub fn decode(buf: &[u8]) -> (r: Result<(u128, usize), DecodeError>)
    ensures
        r == decoded(buf@),
{
    proof {
        lemma_tables();
        wire::lemma_decoding_ok(240, 16, buf@);
    }
    match wire::decode_from(TAG_THRESHOLD, NUM_TIERS, u128::MAX as u128, OFFSETS.as_slice(), buf) {
        Ok((value, consumed)) => Ok((value as u128, consumed)),
        Err(err) => Err(err),
    }
}

/// Lazy decoder over the encoded values of a buffer, returned by
/// [`decode_iter`].
///
/// Each [`Self::next`] decodes one value at the cursor and advances past
/// it. A decode error is yielded once; after it, and once the input is
/// used up, `next` yields `None` for good.
#[derive(Debug)]
#[must_use]
pub struct DecodeIter<'a> {
    cursor: &'a [u8],
    fused_err: bool,
}

/// Returns a lazy decoder over the values encoded in `buf`.
pub fn decode_iter(buf: &[u8]) -> (r: DecodeIter<'_>)
    ensures
        r.remaining() == buf@,
        !r.is_fused(),
{
    DecodeIter { cursor: buf, fused_err: false }
}

impl<'a> DecodeIter<'a> {
    /// The bytes not yet decoded.
    pub closed spec fn remaining(&self) -> Seq<u8> {
        self.cursor@
    }

    /// Whether an error has been yielded.
    pub closed spec fn is_fused(&self) -> bool {
        self.fused_err
    }

    /// Whether one call of [`Self::next`] takes `self` to `after` and
    /// yields `r` (see [`wire::cursor_step`]): nothing once stopped or used
    /// up; else the next value and the cursor past it, or the error and a
    /// stop.
    pub open spec fn steps_to(self, after: Self, r: Option<Result<u128, DecodeError>>) -> bool {
        wire::cursor_step(
            decoder(),
            (self.remaining(), self.is_fused()),
            (after.remaining(), after.is_fused()),
            r,
        )
    }

    /// Decodes the next value, or returns `None` once the input is used up
    /// or after an error.
    pub fn next(&mut self) -> (r: Option<Result<u128, DecodeError>>)
        ensures
            old(self).steps_to(*final(self), r),
    {
        if self.fused_err || self.cursor.is_empty() {
            return None;
        }
        match decode(self.cursor) {
            Ok((value, consumed)) => {
                proof {
                    wire::lemma_decoding_ok(240, 16, self.cursor@);
                }
                self.cursor = self.cursor.split_at(consumed).1;
                Some(Ok(value))
            },
            Err(err) => {
                self.fused_err = true;
                Some(Err(err))
            },
        }
    }

    /// Bounds on how many more items [`Self::next`] yields: none when fused
    /// or used up, else at least one and at most one per remaining byte.
    pub fn size_hint(&self) -> (r: (usize, Option<usize>))
        ensures
            self.is_fused() || self.remaining().len() == 0 ==> r == (0usize, Some(0usize)),
            !self.is_fused() && self.remaining().len() > 0 ==> r == (
                1usize,
                Some(self.remaining().len() as usize),
            ),
    {
        if self.fused_err || self.cursor.is_empty() {
            return (0, Some(0));
        }
        (1, Some(self.cursor.len()))
    }
}

/// Decodes every value encoded in `buf`, in order.
///
/// All-or-nothing: the first error is returned and the values decoded
/// before it are discarded.
pub fn decode_all(buf: &[u8]) -> (r: Result<Vec<u128>, DecodeError>)
    ensures
        match r {
            Ok(values) => decoded_all(buf@) == Ok::<Seq<u128>, DecodeError>(values@),
            Err(e) => decoded_all(buf@) == Err::<Seq<u128>, DecodeError>(e),
        },
{
    let mut iter = decode_iter(buf);
    let mut values: Vec<u128> = Vec::new();
    loop
        invariant
            !iter.is_fused(),
            decoded_all(buf@) == match decoded_all(iter.remaining()) {
                Ok(rest) => Ok::<Seq<u128>, DecodeError>(values@ + rest),
                Err(e) => Err::<Seq<u128>, DecodeError>(e),
            },
        decreases iter.remaining().len(),
    {
        let ghost before = iter.remaining();
        proof {
            wire::lemma_decoding_ok(240, 16, before);
        }
        match iter.next() {
            None => {
                proof {
                    assert(values@ + Seq::<u128>::empty() =~= values@);
                }
                return Ok(values);
            },
            Some(Ok(value)) => {
                let ghost old_values = values@;
                values.push(value);
                proof {
                    let n = decoded(before)->Ok_0.1;
                    if n < before.len() {
                        match decoded_all(iter.remaining()) {
                            Ok(rest) => {
                                assert(old_values + (seq![value] + rest) =~= values@ + rest);
                            },
                            Err(e) => {},
                        }
                    } else {
                        assert(iter.remaining().len() == 0);
                        assert(old_values + seq![value] =~= values@ + Seq::<u128>::empty());
                    }
                }
            },
            Some(Err(err)) => {
                return Err(err);
            },
        }
    }
}

/// Every value round-trips: decoding its encoding, whatever bytes follow,
/// gives the value back and consumes exactly the encoding, which is 1 to
/// `MAX_BYTES` bytes long.
pub proof fn lemma_round_trip(value: u128, rest: Seq<u8>)
    ensures
        decoded(encoding(value) + rest) == Ok::<(u128, usize), DecodeError>(
            (value, encoding(value).len() as usize),
        ),
        1 <= encoding(value).len() <= MAX_BYTES,
{
    lemma_tables();
    wire::lemma_decode_encoding(240, 16, value as nat, rest);
    wire::lemma_encoding_shape(240, 16, value as nat);
}

/// Canonicality: whatever decodes is exactly the encoding of the value it
/// decodes to, and its length (1 to `MAX_BYTES`, never more than the
/// buffer) is fixed by its first byte alone.
pub proof fn lemma_canonical(bytes: Seq<u8>)
    ensures
        decoded(bytes) matches Ok((v, n)) ==> {
            &&& encoding(v) == bytes.subrange(0, n as int)
            &&& 1 <= n <= bytes.len()
            &&& n <= MAX_BYTES
            &&& n == wire::len_from_tag(240, bytes[0])
        },
{
    lemma_tables();
    wire::lemma_decoding_ok(240, 16, bytes);
    wire::lemma_encoding_of_decoded(240, 16, bytes);
}

/// The only errors: a buffer that is empty or shorter than its first byte
/// announces is too short, and overflow happens only under the top tag
/// `0xFF`.
pub proof fn lemma_errors(bytes: Seq<u8>)
    ensures
        decoded(bytes) == Err::<(u128, usize), DecodeError>(DecodeError::BufferTooShort) <==> (
        bytes.len() == 0 || bytes.len() < wire::len_from_tag(240, bytes[0])),
        decoded(bytes) == Err::<(u128, usize), DecodeError>(DecodeError::Overflow) ==> bytes[0]
            == 0xFF,
{
    lemma_tables();
    wire::lemma_decoding_err(240, 16, bytes);
}

/// Byte-lexicographic order of encodings is numeric order, and distinct
/// values have distinct encodings.
pub proof fn lemma_order(a: u128, b: u128)
    ensures
        a < b <==> wire::lex_lt(encoding(a), encoding(b)),
        a == b <==> encoding(a) == encoding(b),
{
    lemma_tables();
    if a < b {
        wire::lemma_encoding_order(240, 16, a as nat, b as nat);
    } else if b < a {
        wire::lemma_encoding_order(240, 16, b as nat, a as nat);
        wire::lemma_lex_asymmetric(encoding(b), encoding(a));
        wire::lemma_lex_irreflexive(encoding(b));
    } else {
        wire::lemma_lex_irreflexive(encoding(a));
    }
    if a != b && encoding(a) == encoding(b) {
        lemma_round_trip(a, Seq::empty());
        lemma_round_trip(b, Seq::empty());
    }
}

/// A stream of back-to-back encodings decodes to exactly the values
/// encoded, in order.
pub proof fn lemma_stream(values: Seq<u128>)
    ensures
        decoded_all(wire::concat_encodings(|v: u128| encoding(v), values)) == Ok::<
            Seq<u128>,
            DecodeError,
        >(values),
{
    assert forall|x: u128, rest: Seq<u8>|
        #![trigger decoded(encoding(x) + rest)]
        1 <= encoding(x).len() <= usize::MAX && decoded(encoding(x) + rest) == Ok::<
            (u128, usize),
            DecodeError,
        >((x, encoding(x).len() as usize)) by {
        lemma_round_trip(x, rest);
    }
    wire::lemma_stream_of_encodings(
        decoder(),
        |v: u128| encoding(v),
        values,
    );
}

/// Running the lazy decoder from a fresh cursor over `buf` and calling
/// [`DecodeIter::next`] until it first yields nothing yields exactly what
/// the manual cursor loop emits: each value in turn, advancing past the
/// bytes it took, and the first error as the last item.
pub proof fn lemma_iteration<'a>(
    buf: Seq<u8>,
    states: Seq<DecodeIter<'a>>,
    outs: Seq<Option<Result<u128, DecodeError>>>,
)
    requires
        outs.len() >= 1,
        states.len() == outs.len() + 1,
        states[0].remaining() == buf,
        !states[0].is_fused(),
        forall|i: int| 0 <= i < outs.len() ==> states[i].steps_to(states[i + 1], #[trigger] outs[i]),
        outs.last() is None,
        forall|i: int| 0 <= i < outs.len() - 1 ==> #[trigger] outs[i] is Some,
    ensures
        outs.drop_last().map_values(|o: Option<Result<u128, DecodeError>>| o->Some_0)
            == wire::emitted(decoder(), buf),
{
    let pairs = states.map_values(|it: DecodeIter<'a>| (it.remaining(), it.is_fused()));
    assert forall|s: Seq<u8>| #[trigger]
        decoder()(s) matches Ok((_, n)) ==> 1 <= n <= s.len() by {
        lemma_canonical(s);
    }
    assert forall|i: int| 0 <= i < outs.len() implies wire::cursor_step(
        decoder(),
        pairs[i],
        pairs[i + 1],
        #[trigger] outs[i],
    ) by {
        assert(states[i].steps_to(states[i + 1], outs[i]));
    }
    wire::lemma_cursor_run(decoder(), pairs, outs);
}

/// Decoding a whole buffer is collecting what the lazy decoder yields: all
/// values in order, or the first error with the earlier values discarded.
pub proof fn lemma_decode_all_collects(buf: Seq<u8>)
    ensures
        decoded_all(buf) == wire::collect_results(wire::emitted(decoder(), buf)),
{
    wire::lemma_collect_emitted(decoder(), buf);
}

} // verus!
