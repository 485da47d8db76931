use bijoux::bijou32::{
    decode, decode_all, decode_iter, encode, encoded_bytes, encoded_len, tier_offset, DecodeError,
    BOUNDS, MAX_BYTES, NUM_TIERS, OFFSETS,
};

const VECTORS: &[(u32, &[u8])] = &[
    (0, &[0x00]),
    (1, &[0x01]),
    (42, &[0x2A]),
    (247, &[0xF7]),
    (251, &[0xFB]),
    (252, &[0xFC, 0x00]),
    (300, &[0xFC, 0x30]),
    (507, &[0xFC, 0xFF]),
    (508, &[0xFD, 0x00, 0x00]),
    (1_000, &[0xFD, 0x01, 0xEC]),
    (65_535, &[0xFD, 0xFE, 0x03]),
    (66_043, &[0xFD, 0xFF, 0xFF]),
    (66_044, &[0xFE, 0x00, 0x00, 0x00]),
    (67_000, &[0xFE, 0x00, 0x03, 0xBC]),
    (16_843_259, &[0xFE, 0xFF, 0xFF, 0xFF]),
    (16_843_260, &[0xFF, 0x00, 0x00, 0x00, 0x00]),
    (4_294_967_295, &[0xFF, 0xFE, 0xFE, 0xFE, 0x03]),
];

#[test]
fn bijou32_spec_vectors() {
    for &(value, expected) in VECTORS {
        let mut buf = Vec::new();
        encode(value, &mut buf);
        assert_eq!(buf, expected, "encode({value})");
        assert_eq!(encoded_len(value), expected.len());
        assert_eq!(encoded_bytes(value).as_slice(), expected);
        assert_eq!(decode(expected), Ok((value, expected.len())));
    }
}

#[test]
fn bijou32_error_vectors() {
    assert_eq!(decode(&[]), Err(DecodeError::BufferTooShort));
    assert_eq!(decode(&[0xFD, 0x00]), Err(DecodeError::BufferTooShort));
    assert_eq!(
        decode(&[0xFF, 0xFF, 0xFF, 0xFF, 0xFF]),
        Err(DecodeError::Overflow)
    );
}

#[test]
fn bijou32_tables() {
    assert_eq!(OFFSETS, [0, 252, 508, 66_044, 16_843_260]);
    for t in 0..NUM_TIERS {
        assert_eq!(u128::from(BOUNDS[t]), OFFSETS[t + 1]);
        assert_eq!(u128::from(tier_offset(t)), OFFSETS[t]);
    }
    assert_eq!(BOUNDS[NUM_TIERS], u32::MAX);
    assert_eq!(tier_offset(5), u32::MAX);
    assert_eq!(encoded_len(u32::MAX), MAX_BYTES);
}

#[test]
fn bijou32_stream_and_iter() {
    let values = [0u32, 251, 252, 66_044, u32::MAX];
    let mut buf = Vec::new();
    for v in values {
        encode(v, &mut buf);
    }
    assert_eq!(decode_all(&buf), Ok(values.to_vec()));

    buf.push(0xFE);
    let mut iter = decode_iter(&buf);
    for v in values {
        assert_eq!(iter.next(), Some(Ok(v)));
    }
    assert_eq!(iter.next(), Some(Err(DecodeError::BufferTooShort)));
    assert_eq!(iter.next(), None);
    assert_eq!(decode_all(&buf), Err(DecodeError::BufferTooShort));
}

#[test]
fn bijou32_order_matches_bytes() {
    let samples = [0u32, 250, 251, 252, 507, 508, 66_043, 66_044, u32::MAX - 1, u32::MAX];
    for a in samples {
        for b in samples {
            let ea = encoded_bytes(a);
            let eb = encoded_bytes(b);
            assert_eq!(a.cmp(&b), ea.as_slice().cmp(eb.as_slice()), "{a} vs {b}");
        }
    }
}
