use std::collections::{BTreeMap, HashMap};
use bijoux::bijou128::{
    decode, decode_all, decode_iter, encode, encoded_bytes, encoded_len, tier_offset, DecodeError,
    DecodeIter, EncodedBytes, BOUNDS, MAX_BYTES, NUM_TIERS, OFFSETS, TAG_THRESHOLD,
};

type TestResult = Result<(), DecodeError>;

fn collect(mut iter: DecodeIter<'_>) -> Vec<Result<u128, DecodeError>> {
    let mut out = Vec::new();
    while let Some(item) = iter.next() {
        out.push(item);
    }
    out
}

fn collect_ok(iter: DecodeIter<'_>) -> Result<Vec<u128>, DecodeError> {
    collect(iter).into_iter().collect()
}

#[test]
fn recurrence() {
    assert_eq!(OFFSETS[0], 0);
    assert_eq!(OFFSETS[1], u128::from(TAG_THRESHOLD));

    let mut power = 1u128; // 256^0
    for i in 2..=NUM_TIERS {
        power *= 256;
        assert_eq!(
            OFFSETS[i],
            OFFSETS[i - 1] + power,
            "OFFSETS[{i}] does not satisfy recurrence"
        );
    }
}

#[test]
fn known_values() {
    assert_eq!(OFFSETS[0], 0);
    for tier in 1..=NUM_TIERS {
        let mut expected = u128::from(TAG_THRESHOLD);
        let mut power = 1u128; // 256^0
        for _ in 1..tier {
            power *= 256;
            expected += power;
        }
        assert_eq!(
            OFFSETS[tier], expected,
            "OFFSETS[{tier}] should be {expected}"
        );
    }

    assert_eq!(OFFSETS[1], 240);
    assert_eq!(OFFSETS[2], 240 + 256);
    assert_eq!(OFFSETS[3], 240 + 256 + 65536);
}

#[test]
fn tier_offset_agrees_with_table_and_saturates() {
    for tier in 0..=NUM_TIERS {
        assert_eq!(tier_offset(tier), OFFSETS[tier]);
    }
    assert_eq!(tier_offset(17), u128::MAX);
    assert_eq!(tier_offset(40), u128::MAX);
}

#[test]
fn bounds_are_consistent() {
    assert_eq!(BOUNDS[0], OFFSETS[1]);
    for i in 1..NUM_TIERS {
        assert_eq!(
            BOUNDS[i],
            OFFSETS[i + 1],
            "BOUNDS[{i}] should equal OFFSETS[{}]",
            i + 1
        );
    }
    assert_eq!(BOUNDS[NUM_TIERS], u128::MAX);
}

#[test]
fn all_tier_boundaries() -> TestResult {
    for tier in 1..=NUM_TIERS {
        let min_val = OFFSETS[tier];
        let max_val = if tier < NUM_TIERS {
            OFFSETS[tier + 1] - 1
        } else {
            u128::MAX
        };
        let expected_len = 1 + tier;

        for &value in &[min_val, max_val] {
            let mut buf = Vec::new();
            encode(value, &mut buf);
            assert_eq!(
                buf.len(),
                expected_len,
                "tier {tier} value {value}: expected {expected_len} bytes, got {}",
                buf.len()
            );

            let (decoded, consumed) = decode(&buf)?;
            assert_eq!(decoded, value, "tier {tier} round-trip failed for {value}");
            assert_eq!(consumed, expected_len);
        }
    }
    Ok(())
}

#[test]
fn lib_empty_buffer() -> TestResult {
    assert_eq!(decode(&[]), Err(DecodeError::BufferTooShort));
    assert!(collect(decode_iter(&[])).is_empty());
    assert_eq!(decode_all(&[])?, Vec::<u128>::new());
    Ok(())
}

#[test]
fn truncated_at_every_tier() {
    for tier in 1..=NUM_TIERS {
        let tag = u8::try_from(usize::from(TAG_THRESHOLD) + tier - 1).unwrap_or(0xFF);
        let mut buf = vec![tag];
        buf.extend(core::iter::repeat_n(0x00u8, tier - 1));

        assert_eq!(
            decode(&buf),
            Err(DecodeError::BufferTooShort),
            "tier {tier} (tag 0x{tag:02X}) with {}-byte payload should be BufferTooShort",
            tier - 1
        );
    }
}

#[test]
fn tier16_overflow() {
    let mut buf = vec![0xFF];
    buf.extend(core::iter::repeat_n(0xFFu8, 16));
    assert_eq!(decode(&buf), Err(DecodeError::Overflow));
}

#[test]
fn tier16_overflow_exact_boundary() -> TestResult {
    let max_payload = u128::MAX - OFFSETS[16];
    let overflow_payload = max_payload + 1;
    let be = overflow_payload.to_be_bytes();
    let mut buf = vec![0xFFu8];
    buf.extend_from_slice(&be);
    assert_eq!(decode(&buf), Err(DecodeError::Overflow));

    let be_max = max_payload.to_be_bytes();
    let mut buf_max = vec![0xFFu8];
    buf_max.extend_from_slice(&be_max);
    let (value, consumed) = decode(&buf_max)?;
    assert_eq!(value, u128::MAX);
    assert_eq!(consumed, 17);
    Ok(())
}

#[test]
fn trailing_bytes_not_consumed() -> TestResult {
    let (v, n) = decode(&[0x2A, 0xDE, 0xAD])?;
    assert_eq!((v, n), (42, 1));

    let (v, n) = decode(&[0xF0, 0x34, 0xBE, 0xEF])?;
    assert_eq!((v, n), (240 + 0x34, 2));
    Ok(())
}

#[test]
fn lib_decode_always_advances() -> TestResult {
    let pad = [0u8; MAX_BYTES + 7];
    for first in 0u8..=255u8 {
        let mut buf = Vec::with_capacity(1 + pad.len());
        buf.push(first);
        buf.extend_from_slice(&pad);
        let (_, n) = decode(&buf)?;
        assert!(n >= 1, "decode returned consumed = 0 on first byte {first:#04X}");
    }
    Ok(())
}

#[test]
fn tier0() -> TestResult {
    for value in 0..240u128 {
        let mut buf = Vec::new();
        encode(value, &mut buf);
        assert_eq!(buf.len(), 1);
        assert_eq!(buf[0], u8::try_from(value).unwrap_or(0));

        let (decoded, consumed) = decode(&buf)?;
        assert_eq!(decoded, value);
        assert_eq!(consumed, 1);
    }
    Ok(())
}

#[test]
fn tier1() -> TestResult {
    for value in 240..496u128 {
        let mut buf = Vec::new();
        encode(value, &mut buf);
        assert_eq!(buf.len(), 2, "value {value} should encode in 2 bytes");
        assert_eq!(buf[0], 0xF0);

        let (decoded, consumed) = decode(&buf)?;
        assert_eq!(decoded, value, "round-trip failed for {value}");
        assert_eq!(consumed, 2);
    }
    Ok(())
}

#[test]
fn tier2() -> TestResult {
    for value in 496..66_032u128 {
        let mut buf = Vec::new();
        encode(value, &mut buf);
        assert_eq!(buf.len(), 3, "value {value} should encode in 3 bytes");
        assert_eq!(buf[0], 0xF1);

        let (decoded, consumed) = decode(&buf)?;
        assert_eq!(decoded, value, "round-trip failed for {value}");
        assert_eq!(consumed, 3);
    }
    Ok(())
}

#[test]
fn tier3_exhaustive() -> TestResult {
    for value in 66_032u128..=16_843_247u128 {
        let mut buf = Vec::new();
        encode(value, &mut buf);
        assert_eq!(buf.len(), 4, "value {value} should encode in 4 bytes");
        assert_eq!(buf[0], 0xF2);

        let (decoded, consumed) = decode(&buf)?;
        assert_eq!(decoded, value, "round-trip failed for {value}");
        assert_eq!(consumed, 4);
    }
    Ok(())
}

#[test]
fn canonicality_byte_sequence_exhaustive() -> TestResult {
    let check = |buf: &[u8]| -> TestResult {
        if let Ok((value, consumed)) = decode(buf) {
            let mut re = Vec::with_capacity(MAX_BYTES);
            encode(value, &mut re);
            assert_eq!(
                re.as_slice(),
                &buf[..consumed],
                "non-canonical: decode({:02X?}) = {value}, re-encode = {:02X?}",
                &buf[..consumed],
                re
            );
        }
        Ok(())
    };

    for b in 0u8..=255u8 {
        check(&[b])?;
    }
    for p in 0u8..=255u8 {
        check(&[0xF0, p])?;
    }
    for p1 in 0u8..=255u8 {
        for p2 in 0u8..=255u8 {
            check(&[0xF1, p1, p2])?;
        }
    }
    for p in 0u32..(1u32 << 24) {
        let bytes = p.to_be_bytes();
        check(&[0xF2, bytes[1], bytes[2], bytes[3]])?;
    }
    Ok(())
}

#[test]
fn offset_triples() -> TestResult {
    for tier in 1..=NUM_TIERS {
        let offset = OFFSETS[tier];
        let tier_len = 1 + tier;
        let prev_len = if tier == 1 { 1 } else { 1 + (tier - 1) };

        let below = offset - 1;
        let mut buf = Vec::new();
        encode(below, &mut buf);
        assert_eq!(
            buf.len(),
            prev_len,
            "OFFSETS[{tier}] - 1 = {below}: expected {prev_len} bytes, got {}",
            buf.len()
        );
        let (v, n) = decode(&buf)?;
        assert_eq!(v, below);
        assert_eq!(n, prev_len);

        buf.clear();
        encode(offset, &mut buf);
        assert_eq!(
            buf.len(),
            tier_len,
            "OFFSETS[{tier}] = {offset}: expected {tier_len} bytes, got {}",
            buf.len()
        );
        let (v, n) = decode(&buf)?;
        assert_eq!(v, offset);
        assert_eq!(n, tier_len);

        if offset < u128::MAX {
            buf.clear();
            encode(offset + 1, &mut buf);
            assert_eq!(
                buf.len(),
                tier_len,
                "OFFSETS[{tier}] + 1 = {}: expected {tier_len} bytes, got {}",
                offset + 1,
                buf.len()
            );
            let (v, n) = decode(&buf)?;
            assert_eq!(v, offset + 1);
            assert_eq!(n, tier_len);
        }
    }
    Ok(())
}

#[test]
fn all_zero_payloads() -> TestResult {
    for tier in 1..=NUM_TIERS {
        let tag = u8::try_from(usize::from(TAG_THRESHOLD) + tier - 1).unwrap_or(0xFF);
        let mut buf = vec![tag];
        buf.extend(core::iter::repeat_n(0x00u8, tier));

        let (value, consumed) = decode(&buf)?;
        assert_eq!(
            value, OFFSETS[tier],
            "tier {tier} all-zeros payload: expected OFFSETS[{tier}] = {}, got {value}",
            OFFSETS[tier]
        );
        assert_eq!(consumed, 1 + tier);

        let mut re = Vec::new();
        encode(value, &mut re);
        assert_eq!(re, buf, "tier {tier} all-zeros round-trip mismatch");
    }
    Ok(())
}

#[test]
fn all_ones_payloads() -> TestResult {
    for tier in 1..=NUM_TIERS {
        let tag = u8::try_from(usize::from(TAG_THRESHOLD) + tier - 1).unwrap_or(0xFF);
        let mut buf = vec![tag];
        buf.extend(core::iter::repeat_n(0xFFu8, tier));

        let result = decode(&buf);

        if tier < NUM_TIERS {
            let (value, consumed) = result?;
            let expected = OFFSETS[tier + 1] - 1;
            assert_eq!(
                value, expected,
                "tier {tier} all-ones payload: expected {expected}, got {value}"
            );
            assert_eq!(consumed, 1 + tier);

            let mut re = Vec::new();
            encode(value, &mut re);
            assert_eq!(re, buf, "tier {tier} all-ones round-trip mismatch");
        } else {
            assert_eq!(
                result,
                Err(DecodeError::Overflow),
                "tier 16 all-ones should overflow"
            );
        }
    }
    Ok(())
}

#[test]
fn overlong_encoding_decodes_to_different_value() -> TestResult {
    for tier in 1..NUM_TIERS {
        let value = OFFSETS[tier];
        let payload = value - OFFSETS[tier];

        let wider_tier = tier + 1;
        let tag = u8::try_from(usize::from(TAG_THRESHOLD) + wider_tier - 1).unwrap_or(0xFF);
        let mut forged = vec![tag];
        let be = payload.to_be_bytes();
        forged.extend_from_slice(be.get(16 - wider_tier..).unwrap_or(&[]));

        let (decoded, _) = decode(&forged)?;

        assert_ne!(decoded, value, "tier {tier}: overlong encoding decoded back");
        assert_eq!(decoded, OFFSETS[wider_tier]);
    }
    Ok(())
}

#[test]
fn consecutive_decode() -> TestResult {
    let values: &[(u128, u128)] = &[
        (0, 0),
        (42, 500),
        (240, 496),
        (1u128 << 64, u128::MAX),
        (u128::MAX, 0),
    ];

    for &(a, b) in values {
        let mut buf = Vec::new();
        encode(a, &mut buf);
        encode(b, &mut buf);

        let (decoded_a, consumed_a) = decode(&buf)?;
        assert_eq!(decoded_a, a, "first value mismatch for ({a}, {b})");

        let (decoded_b, consumed_b) = decode(&buf[consumed_a..])?;
        assert_eq!(decoded_b, b, "second value mismatch for ({a}, {b})");
        assert_eq!(
            consumed_a + consumed_b,
            buf.len(),
            "total consumed mismatch for ({a}, {b})"
        );
    }
    Ok(())
}

#[test]
fn agrees_with_encode() {
    let probes: &[u128] = &[
        0,
        1,
        239,
        240,
        495,
        496,
        65_535,
        66_031,
        66_032,
        1u128 << 32,
        1u128 << 64,
        1u128 << 96,
        u128::MAX,
    ];
    for &v in probes {
        let enc = encoded_bytes(v);
        let mut via_encode = Vec::new();
        encode(v, &mut via_encode);
        assert_eq!(enc.len(), via_encode.len(), "len mismatch for {v}");
        assert_eq!(&*enc, via_encode.as_slice(), "bytes mismatch for {v}");
    }
}

#[test]
fn deref_asref_as_slice_consistent() {
    let enc = encoded_bytes(240);
    let via_deref: &[u8] = &enc;
    let via_asref: &[u8] = enc.as_ref();
    let via_as_slice: &[u8] = enc.as_slice();
    assert_eq!(via_deref, &[0xF0, 0x00]);
    assert_eq!(via_asref, &[0xF0, 0x00]);
    assert_eq!(via_as_slice, &[0xF0, 0x00]);
}

#[test]
fn into_iter_walks_only_encoded_bytes() {
    let enc = encoded_bytes(240);
    let collected: Vec<u8> = enc.into_iter().collect();
    assert_eq!(collected, [0xF0, 0x00]);
}

#[test]
fn ref_into_iter_yields_encoded_bytes() {
    let enc = encoded_bytes(240);
    let collected: Vec<u8> = (&enc).into_iter().copied().collect();
    assert_eq!(collected, [0xF0, 0x00]);
}

#[test]
fn copy_semantics() {
    let enc = encoded_bytes(42);
    let dup = enc;
    assert_eq!(&*enc, &[0x2A]);
    assert_eq!(&*dup, &[0x2A]);
}

#[test]
fn is_empty_is_always_false() {
    for v in [0u128, 1, 239, 240, u128::MAX] {
        assert!(!encoded_bytes(v).is_empty(), "is_empty true for {v}");
    }
}

#[test]
fn borrow_impl() {

    let mut map: BTreeMap<EncodedBytes, &'static str> = BTreeMap::new();
    map.insert(encoded_bytes(42), "the answer");
    assert_eq!(map.get(&[0x2A][..]), Some(&"the answer"));
}

#[test]
fn hash_agrees_with_borrowed_slice() {

    let mut map: HashMap<EncodedBytes, &'static str> = HashMap::new();
    map.insert(encoded_bytes(500), "five hundred");
    assert_eq!(map.get(&[0xF1, 0x00, 0x04][..]), Some(&"five hundred"));
}

#[test]
fn eq_partial_eq() {
    let a = encoded_bytes(500);
    let b = encoded_bytes(500);
    let c = encoded_bytes(501);
    assert_eq!(a, b);
    assert_ne!(a, c);
}

#[test]
fn round_trip_via_decode() -> TestResult {
    for v in [0u128, 239, 240, 65_535, 1u128 << 64, u128::MAX] {
        let enc = encoded_bytes(v);
        let (decoded, n) = decode(&enc)?;
        assert_eq!(decoded, v);
        assert_eq!(n, enc.len());
    }
    Ok(())
}

#[test]
fn lib_round_trip() -> TestResult {
    let values: &[u128] = &[
        0,
        1,
        42,
        239,
        240,
        495,
        496,
        65_535,
        1u128 << 64,
        1u128 << 96,
        u128::MAX,
    ];
    let mut buf = Vec::new();
    for &v in values {
        encode(v, &mut buf);
    }
    assert_eq!(collect_ok(decode_iter(&buf))?, values);

    let values: &[u128] = &[0, 42, 500, 65_535, 1u128 << 64, 1u128 << 96, u128::MAX];
    let mut buf = Vec::new();
    for &v in values {
        encode(v, &mut buf);
    }
    assert_eq!(decode_all(&buf)?, values);
    Ok(())
}

#[test]
fn fuses_after_error() {
    let mut iter = decode_iter(&[0xF0]);
    assert_eq!(iter.next(), Some(Err(DecodeError::BufferTooShort)));
    assert_eq!(iter.next(), None, "iter must fuse after error");
    assert_eq!(iter.next(), None, "iter must remain fused");
}

#[test]
fn overflow_error_then_fused() {
    let buf = [0xFFu8; 17];
    let mut iter = decode_iter(&buf);
    assert_eq!(iter.next(), Some(Err(DecodeError::Overflow)));
    assert_eq!(iter.next(), None);
}

#[test]
fn partial_success_then_error() {
    let mut iter = decode_iter(&[0x42, 0xF0]);
    assert_eq!(iter.next(), Some(Ok(0x42)));
    assert_eq!(iter.next(), Some(Err(DecodeError::BufferTooShort)));
    assert_eq!(iter.next(), None);
}

#[test]
fn size_hint() {
    let empty = decode_iter(&[]);
    assert_eq!(empty.size_hint(), (0, Some(0)));

    let with_data = decode_iter(&[0x42, 0x99]);
    assert_eq!(with_data.size_hint(), (1, Some(2)));

    let mut errored = decode_iter(&[0xF0]);
    let _ = errored.next();
    assert_eq!(errored.size_hint(), (0, Some(0)));
}

#[test]
fn composable_with_combinators() {
    let mut buf = Vec::new();
    for v in [10u128, 20, 30, 40, 50] {
        encode(v, &mut buf);
    }
    let sum: u128 = collect(decode_iter(&buf))
        .into_iter()
        .filter_map(Result::ok)
        .sum();
    assert_eq!(sum, 150);

    let first_two: Vec<_> = collect(decode_iter(&buf))
        .into_iter()
        .take(2)
        .filter_map(Result::ok)
        .collect();
    assert_eq!(first_two, [10, 20]);
}

#[test]
fn short_circuits_on_first_error() {
    assert_eq!(decode_all(&[0x42, 0xF0]), Err(DecodeError::BufferTooShort));
}

#[test]
fn overflow_propagates() {
    assert_eq!(decode_all(&[0xFF; 17]), Err(DecodeError::Overflow));
}

#[test]
fn agrees_with_decode_iter_collect() {
    let inputs: &[&[u8]] = &[&[], &[0x00], &[0x42, 0xF0, 0x34], &[0xF0]];
    for &input in inputs {
        let via_iter: Result<Vec<u128>, _> = collect_ok(decode_iter(input));
        let via_all = decode_all(input);
        assert_eq!(via_iter, via_all, "disagreement on {input:02X?}");
    }
}

#[test]
fn appends_to_non_empty_buffer() -> TestResult {
    let mut buf = vec![0xDE, 0xAD];
    encode(500, &mut buf);

    assert_eq!(&buf[..2], &[0xDE, 0xAD]);

    let (value, consumed) = decode(&buf[2..])?;
    assert_eq!(value, 500);
    assert_eq!(consumed, 3);
    assert_eq!(buf.len(), 5);
    Ok(())
}

#[test]
fn max_bytes_equals_encoded_len_of_max() {
    let mut buf = Vec::new();
    encode(u128::MAX, &mut buf);
    assert_eq!(
        buf.len(),
        MAX_BYTES,
        "MAX_BYTES disagrees with encode(u128::MAX).len()"
    );
    assert_eq!(encoded_len(u128::MAX), MAX_BYTES);
    assert_eq!(encoded_bytes(u128::MAX).len(), MAX_BYTES);
}

const VECTORS: &[(u128, &[u8])] = &[
    (0, &[0x00]),
    (1, &[0x01]),
    (42, &[0x2A]),
    (239, &[0xEF]),
    (240, &[0xF0, 0x00]),
    (241, &[0xF0, 0x01]),
    (495, &[0xF0, 0xFF]),
    (496, &[0xF1, 0x00, 0x00]),
    (65_535, &[0xF1, 0xFE, 0x0F]),
    (66_031, &[0xF1, 0xFF, 0xFF]),
    (66_032, &[0xF2, 0x00, 0x00, 0x00]),
    (67_000, &[0xF2, 0x00, 0x03, 0xC8]),
    (16_843_247, &[0xF2, 0xFF, 0xFF, 0xFF]),
    (16_843_248, &[0xF3, 0x00, 0x00, 0x00, 0x00]),
    ((1u128 << 32) - 1, &[0xF3, 0xFE, 0xFE, 0xFE, 0x0F]),
    (
        (1u128 << 64) - 1,
        &[0xF7, 0xFE, 0xFE, 0xFE, 0xFE, 0xFE, 0xFE, 0xFE, 0x0F],
    ),
    (
        u128::MAX,
        &[
            0xFF, 0xFE, 0xFE, 0xFE, 0xFE, 0xFE, 0xFE, 0xFE, 0xFE, 0xFE, 0xFE, 0xFE, 0xFE, 0xFE,
            0xFE, 0xFE, 0x0F,
        ],
    ),
];

#[test]
fn encode_vectors() {
    for &(value, expected) in VECTORS {
        let mut buf = Vec::new();
        encode(value, &mut buf);
        assert_eq!(
            buf.as_slice(),
            expected,
            "encode({value}) mismatch: got {buf:02X?}, expected {expected:02X?}"
        );
        assert_eq!(encoded_len(value), expected.len());
    }
}

#[test]
fn decode_vectors() -> TestResult {
    for &(expected_value, bytes) in VECTORS {
        let (value, consumed) = decode(bytes)?;
        assert_eq!(
            value, expected_value,
            "decode({bytes:02X?}): got {value}, expected {expected_value}"
        );
        assert_eq!(consumed, bytes.len());
    }
    Ok(())
}

#[test]
fn lexicographic_order_on_samples() {
    let samples: &[u128] = &[
        0,
        1,
        239,
        240,
        241,
        495,
        496,
        66_031,
        66_032,
        1u128 << 64,
        (1u128 << 64) + 1,
        u128::MAX - 1,
        u128::MAX,
    ];
    for &a in samples {
        for &b in samples {
            let ea = encoded_bytes(a);
            let eb = encoded_bytes(b);
            assert_eq!(a.cmp(&b), ea.as_slice().cmp(eb.as_slice()), "{a} vs {b}");
        }
    }
}

#[test]
fn decode_all_of_concatenated_stream() -> TestResult {
    let values: Vec<u128> = vec![7, 240, 239, 1u128 << 100, 0, u128::MAX, 496];
    let mut buf = Vec::new();
    for &v in &values {
        encode(v, &mut buf);
    }
    assert_eq!(decode_all(&buf)?, values);
    Ok(())
}
