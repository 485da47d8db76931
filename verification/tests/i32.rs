use bijoux::bijou32;
use bijoux::i32::{
    decode, decode_all, decode_iter, encode, encoded_bytes, encoded_len, unzigzag, zigzag,
    DecodeError, MAX_BYTES,
};

type TestResult = core::result::Result<(), DecodeError>;

const VECTORS: &[(i32, &[u8])] = &[
    (0, &[0x00]),
    (-1, &[0x01]),
    (1, &[0x02]),
    (125, &[0xFA]),
    (-126, &[0xFB]),
    (126, &[0xFC, 0x00]),
    (-127, &[0xFC, 0x01]),
    (253, &[0xFC, 0xFE]),
    (-254, &[0xFC, 0xFF]),
    (254, &[0xFD, 0x00, 0x00]),
    (i32::MAX, &[0xFF, 0xFE, 0xFE, 0xFE, 0x02]),
    (i32::MIN, &[0xFF, 0xFE, 0xFE, 0xFE, 0x03]),
];

#[test]
fn spec_vectors_round_trip() -> TestResult {
    for &(value, expected) in VECTORS {
        let mut buf = Vec::new();
        encode(value, &mut buf);
        assert_eq!(buf, expected, "encode({value})");
        assert_eq!(encoded_len(value), expected.len());
        assert_eq!(decode(expected)?, (value, expected.len()));
    }

    Ok(())
}

#[test]
fn definitional_equivalence_and_extremes() -> TestResult {
    for value in [
        0i32,
        -1,
        1,
        -126,
        125,
        -127,
        126,
        -33_022,
        33_021,
        i32::MIN,
        i32::MAX,
        i32::MIN + 1,
        i32::MAX - 1,
    ] {
        let z = zigzag(value);
        assert_eq!(unzigzag(z), value);
        assert_eq!(
            encoded_bytes(value).as_slice(),
            bijou32::encoded_bytes(z).as_slice()
        );
        let (decoded, consumed) = decode(encoded_bytes(value).as_slice())?;
        assert_eq!(decoded, value);
        assert_eq!(consumed, encoded_len(value));
    }
    assert_eq!(zigzag(i32::MIN), u32::MAX);
    assert_eq!(encoded_len(i32::MIN), MAX_BYTES);
    assert_eq!(encoded_len(i32::MAX), MAX_BYTES);

    Ok(())
}

#[test]
fn tier_edges_both_signs() -> TestResult {
    const THRESHOLD: u32 = 252;
    const TIERS: u32 = 4;

    let mut offset: u32 = THRESHOLD;
    for n in 1..=TIERS {
        let below = n as usize;
        let at = n as usize + 1;
        for (z, expected_len) in [
            (offset - 2, below),
            (offset - 1, below),
            (offset, at),
            (offset + 1, at),
        ] {
            let value = unzigzag(z);
            assert_eq!(encoded_len(value), expected_len, "z={z} value={value}");
            let mut buf = Vec::new();
            encode(value, &mut buf);
            assert_eq!(buf.len(), expected_len);
            assert_eq!(decode(&buf)?, (value, expected_len));
        }
        if n < TIERS {
            offset += 1u32 << (8 * n);
        }
    }

    assert_eq!(encoded_len(unzigzag(u32::MAX)), MAX_BYTES);
    assert_eq!(encoded_len(unzigzag(u32::MAX - 1)), MAX_BYTES);

    Ok(())
}

#[test]
fn i32_errors_propagate() {
    assert_eq!(decode(&[]), Err(DecodeError::BufferTooShort));
    assert_eq!(decode(&[0xFC]), Err(DecodeError::BufferTooShort));
    assert_eq!(
        decode(&[0xFF, 0xFF, 0xFF, 0xFF, 0xFF]),
        Err(DecodeError::Overflow)
    );
}

#[test]
fn decode_iter_and_all() -> TestResult {
    let mut buf = Vec::new();
    for v in [-2i32, -1, 0, 1, 2, i32::MIN, i32::MAX] {
        encode(v, &mut buf);
    }
    assert_eq!(decode_all(&buf)?, [-2, -1, 0, 1, 2, i32::MIN, i32::MAX]);

    let mut iter = decode_iter(&buf);
    let mut seen = Vec::new();
    while let Some(item) = iter.next() {
        seen.push(item?);
    }
    assert_eq!(seen, [-2, -1, 0, 1, 2, i32::MIN, i32::MAX]);

    Ok(())
}

#[test]
fn i32_encoded_form_views() {
    let enc = encoded_bytes(-127);
    assert_eq!(enc.len(), 2);
    assert!(!enc.is_empty());
    assert_eq!(&*enc, &[0xFC, 0x01]);
    assert_eq!(enc.as_ref(), &[0xFC, 0x01][..]);
    let collected: Vec<u8> = enc.into_iter().collect();
    assert_eq!(collected, [0xFC, 0x01]);
    let by_ref: Vec<u8> = (&enc).into_iter().copied().collect();
    assert_eq!(by_ref, [0xFC, 0x01]);
}
