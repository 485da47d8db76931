//! The bijou wire format, stated once for every width.
//!
//! A bijou format is fixed by two numbers: the tag threshold `th` and the
//! number of multi-byte tiers `tiers`, with `th + tiers == 256` (bijou32:
//! 252 and 4, bijou64: 248 and 8, bijou128: 240 and 16). Values below `th`
//! are their own single byte; a larger value `v` in tier `t` is the tag byte
//! `th + t - 1` followed by the `t`-byte big-endian payload
//! `v - tier_base(th, t)`.
//!
//! The executable helpers here work on `u128` payloads and are shared by the
//! width modules, which pass their own threshold and offset table.

use vstd::prelude::*;

verus! {

/// The two ways a bijou decode can fail.
#[derive(Debug, Clone, Copy, PartialEq, Eq, Structural)]
pub enum DecodeError {
    /// The input buffer is shorter than the encoding its first byte announces.
    BufferTooShort,
    /// The decoded value exceeds the integer type (top tier only).
    Overflow,
}

/// The bytes a byte slice holds.
pub open spec fn bytes_view(s: &[u8]) -> Seq<u8> {
    s@
}

/// `256^n`.
pub open spec fn pow256(n: nat) -> nat
    decreases n,
{
    if n == 0 {
        1
    } else {
        256 * pow256((n - 1) as nat)
    }
}

/// The parameterisations that make a bijou format: every tag byte at or
/// above the threshold names a tier, and there is at least one tier.
pub open spec fn valid_format(th: nat, tiers: nat) -> bool {
    &&& 1 <= tiers <= 16
    &&& th + tiers == 256
}

/// First value of tier `t`: `0`, then `th`, then each tier starts where the
/// previous one (holding `256^(t-1)` values) ends.
pub open spec fn tier_base(th: nat, t: nat) -> nat
    decreases t,
{
    if t == 0 {
        0
    } else if t == 1 {
        th
    } else {
        tier_base(th, (t - 1) as nat) + pow256((t - 1) as nat)
    }
}

/// The offsets `tier_base(th, 0..=tiers)` as a sequence.
pub open spec fn offset_table(th: nat, tiers: nat) -> Seq<u128> {
    Seq::new(tiers + 1, |i: int| tier_base(th, i as nat) as u128)
}

/// The largest tier `t <= top` whose base is at most `v` (0 when none is).
pub open spec fn tier_search(th: nat, top: nat, v: nat) -> nat
    decreases top,
{
    if top == 0 {
        0
    } else if tier_base(th, top) <= v {
        top
    } else {
        tier_search(th, (top - 1) as nat, v)
    }
}

/// The tier that holds `v`.
pub open spec fn tier_of(th: nat, tiers: nat, v: nat) -> nat {
    tier_search(th, tiers, v)
}

/// `x mod 256^n` as `n` big-endian bytes.
pub open spec fn be_bytes(x: nat, n: nat) -> Seq<u8>
    decreases n,
{
    if n == 0 {
        Seq::empty()
    } else {
        be_bytes(x / 256, (n - 1) as nat).push((x % 256) as u8)
    }
}

/// The number that the bytes `s` spell in big-endian order.
pub open spec fn be_value(s: Seq<u8>) -> nat
    decreases s.len(),
{
    if s.len() == 0 {
        0
    } else {
        be_value(s.drop_last()) * 256 + s.last() as nat
    }
}

/// The encoding of `v`.
pub open spec fn encoding(th: nat, tiers: nat, v: nat) -> Seq<u8> {
    let t = tier_of(th, tiers, v);
    if t == 0 {
        seq![v as u8]
    } else {
        seq![(th + t - 1) as u8] + be_bytes((v - tier_base(th, t)) as nat, t)
    }
}

/// The total length of an encoding, read from its first byte alone.
pub open spec fn len_from_tag(th: nat, tag: u8) -> nat {
    if tag < th {
        1
    } else {
        (tag - th + 2) as nat
    }
}

/// What decoding the front of `s` gives: the value and the number of bytes
/// it occupies, or the error.
pub open spec fn decoding(th: nat, tiers: nat, s: Seq<u8>) -> Result<(nat, nat), DecodeError> {
    if s.len() == 0 {
        Err(DecodeError::BufferTooShort)
    } else if s[0] < th {
        Ok((s[0] as nat, 1))
    } else {
        let t = (s[0] - th + 1) as nat;
        if s.len() < t + 1 {
            Err(DecodeError::BufferTooShort)
        } else {
            let v = tier_base(th, t) + be_value(s.subrange(1, t as int + 1));
            if v < pow256(tiers) {
                Ok((v, t + 1))
            } else {
                Err(DecodeError::Overflow)
            }
        }
    }
}

/// `decoding` with the value as a `u128` and the length as a `usize`.
pub open spec fn decoding_u128(th: nat, tiers: nat, s: Seq<u8>) -> Result<(u128, usize), DecodeError> {
    match decoding(th, tiers, s) {
        Ok((v, n)) => Ok((v as u128, n as usize)),
        Err(e) => Err(e),
    }
}

/// Decoding a whole buffer, front to back, with the decoder `dec`: every
/// value in order, or the first error. A step that consumes the rest of the
/// buffer (or more) ends the stream.
pub open spec fn stream<T, E>(dec: spec_fn(Seq<u8>) -> Result<(T, usize), E>, s: Seq<u8>) -> Result<
    Seq<T>,
    E,
>
    decreases s.len(),
{
    if s.len() == 0 {
        Ok(Seq::empty())
    } else {
        match dec(s) {
            Err(e) => Err(e),
            Ok((v, n)) => {
                if 0 < n && n < s.len() {
                    match stream(dec, s.skip(n as int)) {
                        Ok(vs) => Ok(seq![v] + vs),
                        Err(e) => Err(e),
                    }
                } else {
                    Ok(seq![v])
                }
            },
        }
    }
}

/// The concatenation of the encodings of `xs`, in order.
pub open spec fn concat_encodings<T>(enc: spec_fn(T) -> Seq<u8>, xs: Seq<T>) -> Seq<u8>
    decreases xs.len(),
{
    if xs.len() == 0 {
        Seq::empty()
    } else {
        enc(xs[0]) + concat_encodings(enc, xs.drop_first())
    }
}

/// Byte-lexicographic order on byte strings (a proper prefix sorts first).
pub open spec fn lex_lt(a: Seq<u8>, b: Seq<u8>) -> bool
    decreases a.len(),
{
    if a.len() == 0 {
        b.len() > 0
    } else if b.len() == 0 {
        false
    } else if a[0] < b[0] {
        true
    } else if a[0] > b[0] {
        false
    } else {
        lex_lt(a.drop_first(), b.drop_first())
    }
}

// ---------------------------------------------------------------------------
// Arithmetic facts
// ---------------------------------------------------------------------------

pub proof fn lemma_pow256_pos(n: nat)
    ensures
        pow256(n) >= 1,
    decreases n,
{
    if n > 0 {
        lemma_pow256_pos((n - 1) as nat);
    }
}

pub proof fn lemma_pow256_monotonic(a: nat, b: nat)
    requires
        a <= b,
    ensures
        pow256(a) <= pow256(b),
    decreases b,
{
    if a < b {
        lemma_pow256_monotonic(a, (b - 1) as nat);
        lemma_pow256_pos((b - 1) as nat);
    }
}

/// The powers that bound the three integer widths.
pub proof fn lemma_pow256_widths()
    ensures
        pow256(4) == 0x1_0000_0000,
        pow256(8) == 0x1_0000_0000_0000_0000,
        pow256(16) == 0x1_0000_0000_0000_0000_0000_0000_0000_0000,
        pow256(1) == 256,
{
    reveal_with_fuel(pow256, 17);
}

/// Closed form of the tier bases: `255 * tier_base(t) == 255 * th + 256^t - 256`.
pub proof fn lemma_tier_base_closed(th: nat, t: nat)
    requires
        t >= 1,
    ensures
        255 * tier_base(th, t) == 255 * th + pow256(t) - 256,
    decreases t,
{
    if t > 1 {
        lemma_tier_base_closed(th, (t - 1) as nat);
    } else {
        reveal_with_fuel(pow256, 2);
    }
}

/// Each tier is `256^t` values wide.
pub proof fn lemma_tier_base_step(th: nat, t: nat)
    requires
        t >= 1,
    ensures
        tier_base(th, t + 1) == tier_base(th, t) + pow256(t),
{
}

pub proof fn lemma_tier_base_monotonic(th: nat, a: nat, b: nat)
    requires
        th >= 1,
        a <= b,
    ensures
        tier_base(th, a) <= tier_base(th, b),
        a < b ==> tier_base(th, a) < tier_base(th, b),
    decreases b,
{
    if a < b {
        lemma_tier_base_monotonic(th, a, (b - 1) as nat);
        if b >= 2 {
            lemma_pow256_pos((b - 1) as nat);
        }
    }
}

/// The top tier starts below the end of the value range.
pub proof fn lemma_top_base_in_range(th: nat, tiers: nat)
    requires
        valid_format(th, tiers),
    ensures
        tier_base(th, tiers) < pow256(tiers),
{
    lemma_tier_base_closed(th, tiers);
    lemma_pow256_monotonic(1, tiers);
    reveal_with_fuel(pow256, 2);
}

/// For `t < tiers`, tier `t + 1` still starts inside the value range.
pub proof fn lemma_base_in_range(th: nat, tiers: nat, t: nat)
    requires
        valid_format(th, tiers),
        t <= tiers,
    ensures
        tier_base(th, t) < pow256(tiers),
{
    lemma_top_base_in_range(th, tiers);
    lemma_tier_base_monotonic(th, t, tiers);
}

// ---------------------------------------------------------------------------
// Big-endian payloads
// ---------------------------------------------------------------------------

pub proof fn lemma_be_bytes_len(x: nat, n: nat)
    ensures
        be_bytes(x, n).len() == n,
    decreases n,
{
    if n > 0 {
        lemma_be_bytes_len(x / 256, (n - 1) as nat);
    }
}

/// Reading back `n` big-endian bytes of `x < 256^n` gives `x`.
pub proof fn lemma_be_value_of_bytes(x: nat, n: nat)
    requires
        x < pow256(n),
    ensures
        be_value(be_bytes(x, n)) == x,
    decreases n,
{
    if n > 0 {
        let s = be_bytes(x, n);
        lemma_be_value_of_bytes(x / 256, (n - 1) as nat);
        assert(s.drop_last() =~= be_bytes(x / 256, (n - 1) as nat));
    }
}

/// `n` bytes spell a number below `256^n`.
pub proof fn lemma_be_value_bound(s: Seq<u8>)
    ensures
        be_value(s) < pow256(s.len()),
    decreases s.len(),
{
    if s.len() > 0 {
        lemma_be_value_bound(s.drop_last());
    }
}

/// Writing out the value of `s` in `s.len()` bytes gives `s` back.
pub proof fn lemma_be_bytes_of_value(s: Seq<u8>)
    ensures
        be_bytes(be_value(s), s.len()) == s,
    decreases s.len(),
{
    if s.len() > 0 {
        let p = s.drop_last();
        lemma_be_bytes_of_value(p);
        let v = be_value(s);
        assert(v / 256 == be_value(p));
        assert(v % 256 == s.last());
        assert(be_bytes(v, s.len()) =~= p.push(s.last()));
        assert(p.push(s.last()) =~= s);
    }
}

/// The first of `k + 1` big-endian bytes is the digit of `x` above the
/// last `k`.
pub proof fn lemma_be_bytes_front(x: nat, k: nat)
    ensures
        be_bytes(x, k + 1) == seq![((x / pow256(k)) % 256) as u8] + be_bytes(x, k),
    decreases k,
{
    if k == 0 {
        assert(pow256(0) == 1);
        assert(x / 1 == x);
        assert(be_bytes(x / 256, 0) =~= Seq::<u8>::empty());
        assert(be_bytes(x, 1) =~= seq![(x % 256) as u8]);
        assert(be_bytes(x, 1) =~= seq![((x / pow256(0)) % 256) as u8] + be_bytes(x, 0));
    } else {
        let k1 = (k - 1) as nat;
        lemma_be_bytes_front(x / 256, k1);
        lemma_pow256_pos(k1);
        vstd::arithmetic::div_mod::lemma_div_denominator(x as int, 256, pow256(k1) as int);
        assert(be_bytes(x, k + 1) =~= seq![((x / pow256(k)) % 256) as u8] + be_bytes(x, k));
    }
}

/// Appending a byte shifts the value by one digit.
pub proof fn lemma_be_value_push(s: Seq<u8>, b: u8)
    ensures
        be_value(s.push(b)) == be_value(s) * 256 + b,
{
    assert(s.push(b).drop_last() =~= s);
}

// ---------------------------------------------------------------------------
// Tiers
// ---------------------------------------------------------------------------

/// What `tier_search` finds: a tier whose base is at most `v`, and `v` lies
/// below the next tier whenever a higher one exists.
pub proof fn lemma_tier_search(th: nat, top: nat, v: nat)
    requires
        th >= 1,
    ensures
        tier_search(th, top, v) <= top,
        tier_search(th, top, v) >= 1 ==> tier_base(th, tier_search(th, top, v)) <= v,
        tier_search(th, top, v) < top ==> v < tier_base(th, tier_search(th, top, v) + 1),
    decreases top,
{
    if top > 0 && tier_base(th, top) > v {
        lemma_tier_search(th, (top - 1) as nat, v);
    }
}

/// A tier whose range holds `v` is the one `tier_search` finds.
pub proof fn lemma_tier_search_unique(th: nat, top: nat, v: nat, t: nat)
    requires
        th >= 1,
        t <= top,
        t >= 1 ==> tier_base(th, t) <= v,
        t < top ==> v < tier_base(th, t + 1),
    ensures
        tier_search(th, top, v) == t,
    decreases top,
{
    if top > t {
        lemma_tier_base_monotonic(th, t + 1, top);
        lemma_tier_search_unique(th, (top - 1) as nat, v, t);
    }
}

/// With an even threshold every tier base is even.
pub proof fn lemma_tier_base_even(th: nat, t: nat)
    requires
        th % 2 == 0,
    ensures
        tier_base(th, t) % 2 == 0,
    decreases t,
{
    if t >= 2 {
        lemma_tier_base_even(th, (t - 1) as nat);
        assert(pow256((t - 1) as nat) == 256 * pow256((t - 2) as nat));
    }
}

/// With an even threshold, `2k` and `2k + 1` always share a tier.
pub proof fn lemma_tier_search_pair(th: nat, top: nat, k: nat)
    requires
        th % 2 == 0,
    ensures
        tier_search(th, top, 2 * k) == tier_search(th, top, 2 * k + 1),
    decreases top,
{
    if top > 0 {
        lemma_tier_base_even(th, top);
        lemma_tier_search_pair(th, (top - 1) as nat, k);
    }
}

/// With an even threshold, `2k` and `2k + 1` encode to the same length.
pub proof fn lemma_encoding_len_pair(th: nat, tiers: nat, k: nat)
    requires
        valid_format(th, tiers),
        th % 2 == 0,
        2 * k + 1 < pow256(tiers),
    ensures
        encoding(th, tiers, 2 * k).len() == encoding(th, tiers, 2 * k + 1).len(),
{
    lemma_tier_search_pair(th, tiers, k);
    lemma_encoding_shape(th, tiers, 2 * k);
    lemma_encoding_shape(th, tiers, 2 * k + 1);
}

/// Larger values never sit in lower tiers.
pub proof fn lemma_tier_monotonic(th: nat, tiers: nat, a: nat, b: nat)
    requires
        th >= 1,
        a <= b,
    ensures
        tier_of(th, tiers, a) <= tier_of(th, tiers, b),
{
    let ta = tier_of(th, tiers, a);
    let tb = tier_of(th, tiers, b);
    lemma_tier_search(th, tiers, a);
    lemma_tier_search(th, tiers, b);
    if ta > tb {
        lemma_tier_base_monotonic(th, tb + 1, ta);
    }
}

/// The shape of an encoding: its length, its first byte, and its payload.
pub proof fn lemma_encoding_shape(th: nat, tiers: nat, v: nat)
    requires
        valid_format(th, tiers),
        v < pow256(tiers),
    ensures
        ({
            let t = tier_of(th, tiers, v);
            let e = encoding(th, tiers, v);
            &&& t <= tiers
            &&& e.len() == t + 1
            &&& t == 0 ==> v < th && e[0] == v
            &&& t >= 1 ==> tier_base(th, t) <= v && v - tier_base(th, t) < pow256(t) && e[0] == th + t - 1
                && e.drop_first() == be_bytes((v - tier_base(th, t)) as nat, t)
            &&& e.len() == len_from_tag(th, e[0])
            &&& 1 <= e.len() <= tiers + 1
        }),
{
    let t = tier_of(th, tiers, v);
    let e = encoding(th, tiers, v);
    lemma_tier_search(th, tiers, v);
    if t >= 1 {
        let p = (v - tier_base(th, t)) as nat;
        lemma_be_bytes_len(p, t);
        if t < tiers {
            lemma_tier_base_step(th, t);
        }
        assert(e.drop_first() =~= be_bytes(p, t));
    }
}

// ---------------------------------------------------------------------------
// Decoding facts
// ---------------------------------------------------------------------------

/// A successful decode consumes the length that the first byte announces,
/// which is between 1 and the buffer's length, and gives a value in range.
pub proof fn lemma_decoding_ok(th: nat, tiers: nat, s: Seq<u8>)
    requires
        valid_format(th, tiers),
    ensures
        decoding(th, tiers, s) matches Ok((v, n)) ==> {
            &&& 1 <= n <= s.len()
            &&& n <= tiers + 1
            &&& n == len_from_tag(th, s[0])
            &&& v < pow256(tiers)
        },
{
    lemma_pow256_monotonic(1, tiers);
    reveal_with_fuel(pow256, 2);
}

/// The errors, exactly: a short buffer is one that is empty or shorter than
/// its first byte announces; overflow needs the top tag `0xFF`.
pub proof fn lemma_decoding_err(th: nat, tiers: nat, s: Seq<u8>)
    requires
        valid_format(th, tiers),
    ensures
        decoding(th, tiers, s) == Err::<(nat, nat), DecodeError>(DecodeError::BufferTooShort) <==> (
        s.len() == 0 || s.len() < len_from_tag(th, s[0])),
        decoding(th, tiers, s) == Err::<(nat, nat), DecodeError>(DecodeError::Overflow) ==> s[0] == 255,
{
    if s.len() > 0 && s[0] >= th && s.len() >= s[0] - th + 2 {
        let t = (s[0] - th + 1) as nat;
        let pay = s.subrange(1, t as int + 1);
        if s[0] < 255 {
            lemma_be_value_bound(pay);
            lemma_tier_base_step(th, t);
            lemma_base_in_range(th, tiers, t + 1);
        }
    }
}

/// Decoding an encoding, whatever follows it, gives the value back and
/// consumes exactly the encoding.
pub proof fn lemma_decode_encoding(th: nat, tiers: nat, v: nat, rest: Seq<u8>)
    requires
        valid_format(th, tiers),
        v < pow256(tiers),
    ensures
        decoding(th, tiers, encoding(th, tiers, v) + rest) == Ok::<(nat, nat), DecodeError>(
            (v, encoding(th, tiers, v).len()),
        ),
{
    let t = tier_of(th, tiers, v);
    let e = encoding(th, tiers, v);
    let s = e + rest;
    lemma_encoding_shape(th, tiers, v);
    if t >= 1 {
        let p = (v - tier_base(th, t)) as nat;
        assert(s.subrange(1, t as int + 1) =~= be_bytes(p, t));
        lemma_be_value_of_bytes(p, t);
    }
}

/// Whatever decodes is the encoding of what it decodes to: there are no
/// overlong or otherwise non-canonical encodings.
pub proof fn lemma_encoding_of_decoded(th: nat, tiers: nat, s: Seq<u8>)
    requires
        valid_format(th, tiers),
    ensures
        decoding(th, tiers, s) matches Ok((v, n)) ==> encoding(th, tiers, v) == s.subrange(0, n as int),
{
    if let Ok((v, n)) = decoding(th, tiers, s) {
        if s[0] < th {
            lemma_tier_search_unique(th, tiers, v, 0);
            assert(encoding(th, tiers, v) =~= s.subrange(0, 1));
        } else {
            let t = (s[0] - th + 1) as nat;
            let pay = s.subrange(1, t as int + 1);
            lemma_be_value_bound(pay);
            if t < tiers {
                lemma_tier_base_step(th, t);
            }
            lemma_tier_search_unique(th, tiers, v, t);
            lemma_be_bytes_of_value(pay);
            assert(encoding(th, tiers, v) =~= s.subrange(0, n as int));
        }
    }
}

// ---------------------------------------------------------------------------
// Byte order
// ---------------------------------------------------------------------------

pub proof fn lemma_lex_irreflexive(a: Seq<u8>)
    ensures
        !lex_lt(a, a),
    decreases a.len(),
{
    if a.len() > 0 {
        lemma_lex_irreflexive(a.drop_first());
    }
}

pub proof fn lemma_lex_asymmetric(a: Seq<u8>, b: Seq<u8>)
    ensures
        lex_lt(a, b) ==> !lex_lt(b, a),
    decreases a.len(),
{
    if a.len() > 0 && b.len() > 0 {
        lemma_lex_asymmetric(a.drop_first(), b.drop_first());
    }
}

/// Comparing after a common first byte compares the rests.
pub proof fn lemma_lex_cons(x: u8, a: Seq<u8>, y: u8, b: Seq<u8>)
    ensures
        lex_lt(seq![x] + a, seq![y] + b) <==> (x < y || (x == y && lex_lt(a, b))),
{
    assert((seq![x] + a).drop_first() =~= a);
    assert((seq![y] + b).drop_first() =~= b);
}

/// For equal lengths, the last bytes decide only when everything before
/// them is equal.
pub proof fn lemma_lex_push(a: Seq<u8>, b: Seq<u8>, x: u8, y: u8)
    requires
        a.len() == b.len(),
    ensures
        lex_lt(a.push(x), b.push(y)) <==> (lex_lt(a, b) || (a =~= b && x < y)),
    decreases a.len(),
{
    if a.len() > 0 {
        let a1 = a.drop_first();
        let b1 = b.drop_first();
        lemma_lex_push(a1, b1, x, y);
        assert(a.push(x).drop_first() =~= a1.push(x));
        assert(b.push(y).drop_first() =~= b1.push(y));
        assert(a.push(x)[0] == a[0] && b.push(y)[0] == b[0]);
        assert((a =~= b) <==> (a[0] == b[0] && a1 =~= b1)) by {
            if a[0] == b[0] && a1 =~= b1 {
                assert forall|i: int| 0 <= i < a.len() implies a[i] == b[i] by {
                    if i > 0 {
                        assert(a[i] == a1[i - 1]);
                        assert(b[i] == b1[i - 1]);
                    }
                }
            }
            if a =~= b {
                assert(a1 =~= b1);
            }
        }
    } else {
        assert(a =~= b);
        assert(a.push(x).drop_first() =~= a);
        assert(b.push(y).drop_first() =~= b);
        assert(a.push(x)[0] == x && b.push(y)[0] == y);
    }
}

/// Big-endian payloads of one width sort like the numbers they spell.
pub proof fn lemma_be_bytes_order(x: nat, y: nat, n: nat)
    requires
        x < y < pow256(n),
    ensures
        lex_lt(be_bytes(x, n), be_bytes(y, n)),
    decreases n,
{
    if n > 0 {
        lemma_be_bytes_len(x / 256, (n - 1) as nat);
        lemma_be_bytes_len(y / 256, (n - 1) as nat);
        lemma_lex_push(be_bytes(x / 256, (n - 1) as nat), be_bytes(y / 256, (n - 1) as nat), (x % 256) as u8, (y % 256) as u8);
        if x / 256 < y / 256 {
            lemma_be_bytes_order(x / 256, y / 256, (n - 1) as nat);
        }
    }
}

/// Smaller values have byte-lexicographically smaller encodings.
pub proof fn lemma_encoding_order(th: nat, tiers: nat, a: nat, b: nat)
    requires
        valid_format(th, tiers),
        a < b < pow256(tiers),
    ensures
        lex_lt(encoding(th, tiers, a), encoding(th, tiers, b)),
{
    let ta = tier_of(th, tiers, a);
    let tb = tier_of(th, tiers, b);
    let ea = encoding(th, tiers, a);
    let eb = encoding(th, tiers, b);
    lemma_encoding_shape(th, tiers, a);
    lemma_encoding_shape(th, tiers, b);
    lemma_tier_monotonic(th, tiers, a, b);
    assert(ea =~= seq![ea[0]] + ea.drop_first());
    assert(eb =~= seq![eb[0]] + eb.drop_first());
    lemma_lex_cons(ea[0], ea.drop_first(), eb[0], eb.drop_first());
    if ta == tb && ta >= 1 {
        lemma_be_bytes_order((a - tier_base(th, ta)) as nat, (b - tier_base(th, tb)) as nat, ta);
    }
}

// ---------------------------------------------------------------------------
// Streams
// ---------------------------------------------------------------------------

/// A decoder that reads back every encoding, whatever follows it, decodes
/// a concatenation of encodings to exactly the values encoded.
pub proof fn lemma_stream_of_encodings<T, E>(
    dec: spec_fn(Seq<u8>) -> Result<(T, usize), E>,
    enc: spec_fn(T) -> Seq<u8>,
    xs: Seq<T>,
)
    requires
        forall|x: T, rest: Seq<u8>|
            #![trigger dec(enc(x) + rest)]
            1 <= enc(x).len() <= usize::MAX && dec(enc(x) + rest) == Ok::<(T, usize), E>(
                (x, enc(x).len() as usize),
            ),
    ensures
        stream(dec, concat_encodings(enc, xs)) == Ok::<Seq<T>, E>(xs),
    decreases xs.len(),
{
    if xs.len() > 0 {
        let x = xs[0];
        let tail = xs.drop_first();
        let rest = concat_encodings(enc, tail);
        let s = concat_encodings(enc, xs);
        assert(s == enc(x) + rest);
        assert(dec(enc(x) + rest) == Ok::<(T, usize), E>((x, enc(x).len() as usize)));
        lemma_stream_of_encodings(dec, enc, tail);
        assert(seq![x] + tail =~= xs);
        if rest.len() > 0 {
            assert(s.skip(enc(x).len() as int) =~= rest);
        } else if tail.len() > 0 {
            // A non-empty tail has a non-empty encoding.
            let y = tail[0];
            let more = concat_encodings(enc, tail.drop_first());
            assert(dec(enc(y) + more) == Ok::<(T, usize), E>((y, enc(y).len() as usize)));
            assert(rest == enc(y) + more);
        } else {
            assert(seq![x] =~= xs);
        }
    } else {
        assert(xs =~= Seq::<T>::empty());
    }
}

/// One step of a lazy decoder over the cursor `before` (the bytes left and
/// whether an error was yielded), ending at `after` and yielding `r`: nothing
/// once stopped or used up; else the next value and the cursor past it, or
/// the error and a stop.
pub open spec fn cursor_step<T, E>(
    dec: spec_fn(Seq<u8>) -> Result<(T, usize), E>,
    before: (Seq<u8>, bool),
    after: (Seq<u8>, bool),
    r: Option<Result<T, E>>,
) -> bool {
    if before.1 || before.0.len() == 0 {
        r is None && after == before
    } else {
        match dec(before.0) {
            Ok((v, n)) => r == Some(Ok::<T, E>(v)) && after == (before.0.skip(n as int), false),
            Err(e) => r == Some(Err::<T, E>(e)) && after == (before.0, true),
        }
    }
}

/// What the manual cursor loop over `s` emits: each decoded value in turn,
/// and the first error as the last item. A step that consumes the rest of
/// the input (or more) ends it.
pub open spec fn emitted<T, E>(dec: spec_fn(Seq<u8>) -> Result<(T, usize), E>, s: Seq<u8>) -> Seq<
    Result<T, E>,
>
    decreases s.len(),
{
    if s.len() == 0 {
        Seq::empty()
    } else {
        match dec(s) {
            Err(e) => seq![Err(e)],
            Ok((v, n)) => {
                if 0 < n && n < s.len() {
                    seq![Ok(v)] + emitted(dec, s.skip(n as int))
                } else {
                    seq![Ok(v)]
                }
            },
        }
    }
}

/// Collecting results: every value in order, or the first error.
pub open spec fn collect_results<T, E>(items: Seq<Result<T, E>>) -> Result<Seq<T>, E>
    decreases items.len(),
{
    if items.len() == 0 {
        Ok(Seq::empty())
    } else {
        match items[0] {
            Err(e) => Err(e),
            Ok(v) => match collect_results(items.drop_first()) {
                Ok(vs) => Ok(seq![v] + vs),
                Err(e) => Err(e),
            },
        }
    }
}

/// A run of a lazy decoder from a fresh cursor over `states[0].0`, called
/// until it first yields nothing, yields exactly what the manual cursor loop
/// emits, provided each decode consumes between one byte and the input.
pub proof fn lemma_cursor_run<T, E>(
    dec: spec_fn(Seq<u8>) -> Result<(T, usize), E>,
    states: Seq<(Seq<u8>, bool)>,
    outs: Seq<Option<Result<T, E>>>,
)
    requires
        forall|s: Seq<u8>| #[trigger]
            dec(s) matches Ok((_, n)) ==> 1 <= n <= s.len(),
        outs.len() >= 1,
        states.len() == outs.len() + 1,
        !states[0].1,
        forall|i: int| 0 <= i < outs.len() ==> cursor_step(dec, states[i], states[i + 1], #[trigger] outs[i]),
        outs.last() is None,
        forall|i: int| 0 <= i < outs.len() - 1 ==> #[trigger] outs[i] is Some,
    ensures
        outs.drop_last().map_values(|o: Option<Result<T, E>>| o->Some_0) == emitted(dec, states[0].0),
    decreases outs.len(),
{
    let s = states[0].0;
    assert(cursor_step(dec, states[0], states[1], outs[0]));
    if outs.len() == 1 {
        assert(outs.drop_last().map_values(|o: Option<Result<T, E>>| o->Some_0) =~= Seq::empty());
    } else {
        assert(outs[0] is Some);
        match dec(s) {
            Ok((v, n)) => {
                assert(states.drop_first()[0] == states[1]);
                assert forall|i: int| 0 <= i < outs.drop_first().len() implies cursor_step(
                    dec,
                    states.drop_first()[i],
                    states.drop_first()[i + 1],
                    #[trigger] outs.drop_first()[i],
                ) by {
                    assert(cursor_step(dec, states[i + 1], states[i + 2], outs[i + 1]));
                }
                assert forall|i: int| 0 <= i < outs.drop_first().len() - 1 implies #[trigger] outs.drop_first()[i] is Some by {
                    assert(outs[i + 1] is Some);
                }
                lemma_cursor_run(dec, states.drop_first(), outs.drop_first());
                let rest = outs.drop_first().drop_last().map_values(|o: Option<Result<T, E>>| o->Some_0);
                assert(outs.drop_last().map_values(|o: Option<Result<T, E>>| o->Some_0) =~= seq![Ok::<T, E>(v)] + rest);
                if n as int == s.len() {
                    assert(rest =~= Seq::<Result<T, E>>::empty());
                }
            },
            Err(e) => {
                // After an error the cursor is stopped, so the next call
                // yields nothing: that is the last call.
                assert(cursor_step(dec, states[1], states[2], outs[1]));
                if outs.len() > 2 {
                    assert(outs[1] is Some);
                }
                assert(outs.drop_last().map_values(|o: Option<Result<T, E>>| o->Some_0) =~= seq![Err::<T, E>(e)]);
            },
        }
    }
}

/// Collecting what the manual cursor loop emits is decoding the stream:
/// all values in order, or the first error with no partial values.
pub proof fn lemma_collect_emitted<T, E>(dec: spec_fn(Seq<u8>) -> Result<(T, usize), E>, s: Seq<u8>)
    ensures
        collect_results(emitted(dec, s)) == stream(dec, s),
    decreases s.len(),
{
    if s.len() > 0 {
        match dec(s) {
            Err(e) => {
                let items = seq![Err::<T, E>(e)];
                assert(items[0] == Err::<T, E>(e));
                assert(emitted(dec, s) == items);
                assert(collect_results(items) == Err::<Seq<T>, E>(e));
            },
            Ok((v, n)) => {
                if 0 < n && n < s.len() {
                    lemma_collect_emitted(dec, s.skip(n as int));
                    let items = seq![Ok::<T, E>(v)] + emitted(dec, s.skip(n as int));
                    assert(items[0] == Ok::<T, E>(v));
                    assert(items.drop_first() =~= emitted(dec, s.skip(n as int)));
                    assert(emitted(dec, s) == items);
                } else {
                    let items = seq![Ok::<T, E>(v)];
                    assert(items[0] == Ok::<T, E>(v));
                    assert(items.drop_first() =~= Seq::<Result<T, E>>::empty());
                    assert(seq![v] + Seq::<T>::empty() =~= seq![v]);
                    assert(emitted(dec, s) == items);
                    assert(collect_results(items.drop_first()) == Ok::<Seq<T>, E>(Seq::empty()));
                    assert(collect_results(items) == Ok::<Seq<T>, E>(seq![v]));
                }
            },
        }
    }
}

// ---------------------------------------------------------------------------
// Zigzag
// ---------------------------------------------------------------------------

/// Interleaves the integers around zero: `0, -1, 1, -2, 2, …` to
/// `0, 1, 2, 3, 4, …`.
pub open spec fn zigzag_spec(n: int) -> nat {
    if n >= 0 {
        (2 * n) as nat
    } else {
        (-2 * n - 1) as nat
    }
}

/// Inverse of [`zigzag_spec`].
pub open spec fn unzigzag_spec(u: nat) -> int {
    if u % 2 == 0 {
        (u / 2) as int
    } else {
        -((u + 1) / 2)
    }
}

/// Zigzag interleaves by sign: a non-negative `n` goes to the even `2n`, a
/// negative `n` to the odd `-2n - 1`. So `0` goes to `0`, each next
/// non-negative value two further on, and each `-n - 1` right after `n`.
pub proof fn lemma_zigzag_interleaves(n: int)
    ensures
        n >= 0 ==> zigzag_spec(n) == 2 * n,
        n < 0 ==> zigzag_spec(n) == -2 * n - 1,
        zigzag_spec(n) % 2 == 0 <==> n >= 0,
        zigzag_spec(0) == 0,
        n >= 0 ==> zigzag_spec(n + 1) == zigzag_spec(n) + 2,
        n >= 0 ==> zigzag_spec(-n - 1) == zigzag_spec(n) + 1,
{
}

/// Unzigzag reads the sign from the parity: an even `2k` comes back as
/// `k`, an odd `2k + 1` as `-k - 1`.
pub proof fn lemma_unzigzag_by_parity(k: nat)
    ensures
        unzigzag_spec(2 * k) == k,
        unzigzag_spec(2 * k + 1) == -(k as int) - 1,
{
}

/// Zigzag is a bijection between the integers and the naturals, and it maps
/// the `k`-bit signed range onto the `k`-bit unsigned range.
pub proof fn lemma_zigzag(n: int, u: nat, half: nat)
    ensures
        unzigzag_spec(zigzag_spec(n)) == n,
        zigzag_spec(unzigzag_spec(u)) == u,
        -half <= n < half <==> zigzag_spec(n) < 2 * half,
        -half <= unzigzag_spec(u) < half <==> u < 2 * half,
{
}

// ---------------------------------------------------------------------------
// Executable core, shared by the widths
// ---------------------------------------------------------------------------

/// The offset table entries are the tier bases.
pub proof fn lemma_offset_table(th: nat, tiers: nat, t: nat)
    requires
        valid_format(th, tiers),
        t <= tiers,
    ensures
        offset_table(th, tiers)[t as int] as nat == tier_base(th, t),
{
    lemma_base_in_range(th, tiers, t);
    lemma_pow256_monotonic(tiers, 16);
    lemma_pow256_widths();
}

/// Feeds `bytes` to `state` as `<[u8] as Hash>::hash` does, so that an
/// encoding hashes like the byte slice it borrows as. Nothing is stated of
/// the hasher's state afterwards.
#[verifier::external_body]
pub(crate) fn hash_bytes<H: core::hash::Hasher>(bytes: &[u8], state: &mut H) {
    core::hash::Hash::hash(bytes, state);
}

/// Appends the `n` big-endian bytes of `x mod 256^n` to `buf`.
pub(crate) fn push_be(buf: &mut Vec<u8>, x: u128, n: usize)
    ensures
        final(buf)@ == old(buf)@ + be_bytes(x as nat, n as nat),
    decreases n,
{
    if n > 0 {
        push_be(buf, x / 256, n - 1);
        buf.push((x % 256) as u8);
        proof {
            assert(final(buf)@ =~= old(buf)@ + be_bytes(x as nat, n as nat));
        }
    }
}

/// The big-endian number in `buf[start..start + n]`.
pub(crate) fn read_be(buf: &[u8], start: usize, n: usize) -> (r: u128)
    requires
        start + n <= buf.len(),
        n <= 16,
    ensures
        r == be_value(buf@.subrange(start as int, start + n)),
{
    let mut acc: u128 = 0;
    let mut i: usize = 0;
    while i < n
        invariant
            i <= n,
            n <= 16,
            start + n <= buf.len(),
            acc == be_value(buf@.subrange(start as int, start + i)),
        decreases n - i,
    {
        proof {
            let pre = buf@.subrange(start as int, start + i);
            lemma_be_value_bound(pre);
            lemma_pow256_monotonic(i as nat, 15);
            lemma_pow256_widths();
            reveal_with_fuel(pow256, 2);
            assert(pow256(15) * 256 == pow256(16));
            lemma_be_value_push(pre, buf@[start + i]);
            assert(buf@.subrange(start as int, start + i + 1) =~= pre.push(buf@[start + i]));
        }
        acc = acc * 256 + buf[start + i] as u128;
        i += 1;
    }
    acc
}

/// `2^e`.
pub open spec fn two_pow(e: nat) -> nat
    decreases e,
{
    if e == 0 {
        1
    } else {
        2 * two_pow((e - 1) as nat)
    }
}

/// The number of bits needed to write `v`: zero for zero, otherwise the
/// position of its highest set bit plus one.
pub open spec fn bit_width(v: nat) -> nat
    decreases v,
{
    if v == 0 {
        0
    } else {
        1 + bit_width(v / 2)
    }
}

/// Powers of two grow with the exponent.
pub proof fn lemma_two_pow_mono(a: nat, b: nat)
    requires
        a <= b,
    ensures
        1 <= two_pow(a) <= two_pow(b),
    decreases b,
{
    if b > a {
        lemma_two_pow_mono(a, (b - 1) as nat);
    } else if a > 0 {
        lemma_two_pow_mono(0, (a - 1) as nat);
    }
}

/// A byte is eight bits: `256^n == 2^(8n)`.
pub proof fn lemma_pow256_two_pow(n: nat)
    ensures
        pow256(n) == two_pow(8 * n),
    decreases n,
{
    if n > 0 {
        lemma_pow256_two_pow((n - 1) as nat);
        reveal_with_fuel(two_pow, 9);
        assert(two_pow(8 * n) == 256 * two_pow(8 * (n - 1) as nat));
    }
}

/// A nonzero `v` lies in `[2^(w-1), 2^w)` for `w` its bit width.
pub proof fn lemma_bit_width_bounds(v: nat)
    ensures
        v < two_pow(bit_width(v)),
        v > 0 ==> bit_width(v) >= 1 && two_pow((bit_width(v) - 1) as nat) <= v,
    decreases v,
{
    if v > 0 {
        lemma_bit_width_bounds(v / 2);
        if v / 2 == 0 {
            assert(bit_width(v / 2) == 0);
        }
    }
}

/// Splitting off the low `k` bits of a value of at least `2^k` removes
/// exactly `k` from its width.
pub proof fn lemma_bit_width_split(v: nat, k: nat)
    requires
        v >= two_pow(k),
    ensures
        bit_width(v) == k + bit_width(v / two_pow(k)),
    decreases k,
{
    if k > 0 {
        let k1 = (k - 1) as nat;
        lemma_two_pow_mono(0, k1);
        lemma_bit_width_split(v / 2, k1);
        vstd::arithmetic::div_mod::lemma_div_denominator(v as int, 2, two_pow(k1) as int);
        assert(two_pow(k) == 2 * two_pow(k1));
        assert(v / 2 >= two_pow(k1));
        assert(bit_width(v) == 1 + bit_width(v / 2));
    } else {
        assert(v / 1 == v);
    }
}

/// What `u64::leading_zeros` gives, in terms of the bit width.
pub proof fn lemma_u64_leading_zeros(v: u64)
    ensures
        vstd::std_specs::bits::u64_leading_zeros(v) == 64 - bit_width(v as nat),
        bit_width(v as nat) <= 64,
    decreases v,
{
    reveal(vstd::std_specs::bits::u64_leading_zeros);
    vstd::std_specs::bits::axiom_u64_leading_zeros(v);
    if v > 0 {
        lemma_u64_leading_zeros(v / 2);
    }
}

/// The bit width of `v`, from the count of its leading zeros.
fn bit_width_u64(v: u64) -> (w: u32)
    ensures
        w == bit_width(v as nat),
        w <= 64,
{
    let lz = v.leading_zeros();
    proof {
        lemma_u64_leading_zeros(v);
    }
    64 - lz
}

/// The bit width of `v`, from the leading zeros of its high or its low
/// half.
pub(crate) fn bit_width_u128(v: u128) -> (w: u32)
    ensures
        w == bit_width(v as nat),
        w <= 128,
{
    let hi = (v / 0x1_0000_0000_0000_0000u128) as u64;
    if hi != 0 {
        proof {
            lemma_pow256_two_pow(8);
            assert(pow256(8) == 0x1_0000_0000_0000_0000nat) by {
                reveal_with_fuel(pow256, 9);
            }
            lemma_bit_width_split(v as nat, 64);
        }
        64 + bit_width_u64(hi)
    } else {
        bit_width_u64(v as u64)
    }
}

/// With at most 256 single-byte values, no tier starts above `256^t`.
pub proof fn lemma_tier_base_le_pow256(th: nat, t: nat)
    requires
        th <= 256,
        t >= 1,
    ensures
        tier_base(th, t) <= pow256(t),
    decreases t,
{
    if t >= 2 {
        lemma_tier_base_le_pow256(th, (t - 1) as nat);
        assert(pow256(t) == 256 * pow256((t - 1) as nat));
    } else {
        assert(pow256(1) == 256 * pow256(0));
    }
}

/// The tier of `value`, in constant time: the bit width of `value` names a
/// candidate tier, which one comparison against the offset table corrects,
/// since each tier starts a little past a power of 256.
pub(crate) fn tier_for(th: u8, tiers: usize, offsets: &[u128], value: u128) -> (t: usize)
    requires
        valid_format(th as nat, tiers as nat),
        offsets@ == offset_table(th as nat, tiers as nat),
        value < pow256(tiers as nat),
    ensures
        t == tier_of(th as nat, tiers as nat, value as nat),
        t <= tiers,
{
    proof {
        lemma_offset_table(th as nat, tiers as nat, 1);
    }
    if value < offsets[1] {
        proof {
            lemma_tier_search_unique(th as nat, tiers as nat, value as nat, 0);
        }
        return 0;
    }
    let bw = bit_width_u128(value);
    let ghost v = value as nat;
    proof {
        lemma_bit_width_bounds(v);
        lemma_pow256_two_pow(tiers as nat);
        if bw > 8 * tiers {
            lemma_two_pow_mono(8 * tiers as nat, (bw - 1) as nat);
        }
    }
    let c: usize = ((bw - 1) / 8 + 1) as usize;
    proof {
        lemma_offset_table(th as nat, tiers as nat, c as nat);
    }
    if value < offsets[c] {
        proof {
            let p = (c - 1) as nat;
            lemma_tier_base_le_pow256(th as nat, p);
            lemma_pow256_two_pow(p);
            lemma_two_pow_mono(8 * p, (bw - 1) as nat);
            lemma_tier_search_unique(th as nat, tiers as nat, v, p);
        }
        c - 1
    } else {
        proof {
            if c < tiers {
                lemma_offset_table(th as nat, tiers as nat, (c + 1) as nat);
                lemma_pow256_two_pow(c as nat);
                lemma_two_pow_mono(bw as nat, 8 * c as nat);
                assert(tier_base(th as nat, (c + 1) as nat) == tier_base(th as nat, c as nat)
                    + pow256(c as nat));
            }
            lemma_tier_search_unique(th as nat, tiers as nat, v, c as nat);
        }
        c
    }
}

/// Appends the encoding of `value` to `buf`.
pub(crate) fn encode_into(th: u8, tiers: usize, offsets: &[u128], value: u128, buf: &mut Vec<u8>)
    requires
        valid_format(th as nat, tiers as nat),
        offsets@ == offset_table(th as nat, tiers as nat),
        value < pow256(tiers as nat),
    ensures
        final(buf)@ == old(buf)@ + encoding(th as nat, tiers as nat, value as nat),
{
    let t = tier_for(th, tiers, offsets, value);
    proof {
        lemma_encoding_shape(th as nat, tiers as nat, value as nat);
        lemma_offset_table(th as nat, tiers as nat, t as nat);
    }
    if t == 0 {
        buf.push(value as u8);
        proof {
            assert(final(buf)@ =~= old(buf)@ + encoding(th as nat, tiers as nat, value as nat));
        }
    } else {
        buf.push((th as usize + t - 1) as u8);
        push_be(buf, value - offsets[t], t);
        proof {
            assert(final(buf)@ =~= old(buf)@ + encoding(th as nat, tiers as nat, value as nat));
        }
    }
}

/// Decodes one value from the front of `buf`.
pub(crate) fn decode_from(th: u8, tiers: usize, max: u128, offsets: &[u128], buf: &[u8]) -> (r: Result<
    (u128, usize),
    DecodeError,
>)
    requires
        valid_format(th as nat, tiers as nat),
        offsets@ == offset_table(th as nat, tiers as nat),
        max + 1 == pow256(tiers as nat),
    ensures
        r == decoding_u128(th as nat, tiers as nat, buf@),
{
    if buf.len() == 0 {
        return Err(DecodeError::BufferTooShort);
    }
    let tag = buf[0];
    if tag < th {
        return Ok((tag as u128, 1));
    }
    let t = (tag - th) as usize + 1;
    if buf.len() < t + 1 {
        return Err(DecodeError::BufferTooShort);
    }
    let payload = read_be(buf, 1, t);
    proof {
        lemma_offset_table(th as nat, tiers as nat, t as nat);
        lemma_pow256_widths();
    }
    match offsets[t].checked_add(payload) {
        Some(value) => {
            if value > max {
                Err(DecodeError::Overflow)
            } else {
                Ok((value, t + 1))
            }
        },
        None => Err(DecodeError::Overflow),
    }
}

} // verus!
