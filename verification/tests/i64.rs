use bijoux::bijou64;
use bijoux::i64::{
    decode, decode_all, decode_iter, encode, encoded_bytes, encoded_len, unzigzag, zigzag,
    DecodeError, EncodedI64,
};

const VECTORS: &[(i64, &[u8])] = &[
    (0, &[0x00]),
    (-1, &[0x01]),
    (1, &[0x02]),
    (-2, &[0x03]),
    (2, &[0x04]),
    (-124, &[0xF7]),
    (123, &[0xF6]),
    (124, &[0xF8, 0x00]),
    (-125, &[0xF8, 0x01]),
    (251, &[0xF8, 0xFE]),
    (-252, &[0xF8, 0xFF]),
    (252, &[0xF9, 0x00, 0x00]),
    (
        i64::MAX,
        &[0xFF, 0xFE, 0xFE, 0xFE, 0xFE, 0xFE, 0xFE, 0xFE, 0x06],
    ),
    (
        i64::MIN,
        &[0xFF, 0xFE, 0xFE, 0xFE, 0xFE, 0xFE, 0xFE, 0xFE, 0x07],
    ),
];

#[test]
fn spec_vectors_encode() {
    for &(value, expected) in VECTORS {
        let mut buf = Vec::new();
        encode(value, &mut buf);
        assert_eq!(buf, expected, "encode({value})");
        assert_eq!(encoded_bytes(value).as_slice(), expected);
        assert_eq!(encoded_len(value), expected.len());
    }
}

#[test]
fn spec_vectors_decode() {
    for &(expected, bytes) in VECTORS {
        let (value, consumed) = decode(bytes).unwrap();
        assert_eq!(value, expected, "decode({bytes:02X?})");
        assert_eq!(consumed, bytes.len());
    }
}

#[test]
fn zigzag_bijection_at_extremes() {
    for value in [0i64, -1, 1, i64::MIN, i64::MAX, i64::MIN + 1, i64::MAX - 1] {
        assert_eq!(unzigzag(zigzag(value)), value);
    }
    assert_eq!(zigzag(i64::MIN), u64::MAX);
    assert_eq!(zigzag(i64::MAX), u64::MAX - 1);
}

#[test]
fn tier_boundaries_round_trip() {
    let unsigned_boundaries: &[u64] = &[
        0,
        247,
        248,
        503,
        504,
        66_039,
        66_040,
        16_843_255,
        16_843_256,
        4_311_810_551,
        4_311_810_552,
        1_103_823_438_327,
        1_103_823_438_328,
        282_578_800_148_983,
        282_578_800_148_984,
        72_340_172_838_076_919,
        72_340_172_838_076_920,
        u64::MAX,
    ];
    for &u in unsigned_boundaries {
        let value = unzigzag(u);
        let mut buf = Vec::new();
        encode(value, &mut buf);
        assert_eq!(buf.len(), bijou64::encoded_len(u));
        let (decoded, consumed) = decode(&buf).unwrap();
        assert_eq!(decoded, value);
        assert_eq!(consumed, buf.len());
    }
}

#[test]
fn i64_errors_propagate() {
    assert_eq!(decode(&[]), Err(DecodeError::BufferTooShort));
    assert_eq!(decode(&[0xF8]), Err(DecodeError::BufferTooShort));
    assert_eq!(
        decode(&[0xFF, 0xFF, 0xFF, 0xFF, 0xFF, 0xFF, 0xFF, 0xFF, 0xFF]),
        Err(DecodeError::Overflow)
    );
}

#[test]
fn decode_iter_fuses_and_decode_all_short_circuits() {
    let mut buf = Vec::new();
    encode(-42, &mut buf);
    buf.push(0xF8);

    let mut iter = decode_iter(&buf);
    assert_eq!(iter.next(), Some(Ok(-42)));
    assert_eq!(iter.next(), Some(Err(DecodeError::BufferTooShort)));
    assert_eq!(iter.next(), None);

    assert_eq!(decode_all(&buf), Err(DecodeError::BufferTooShort));
}

#[test]
fn byte_order_is_zigzag_order() {
    let order = [0i64, -1, 1, -2, 2, -124, 124];
    let encoded: Vec<EncodedI64> = order.iter().map(|&v| encoded_bytes(v)).collect();
    for pair in encoded.windows(2) {
        assert!(pair[0] < pair[1], "zigzag order violated");
    }
}

#[test]
fn i64_doc_examples() {
    let mut buf = Vec::new();
    encode(-1, &mut buf);
    assert_eq!(buf, [0x01]);
    assert_eq!(decode(&buf), Ok((-1, 1)));
    assert_eq!(decode(&[0x02, 0xFF]), Ok((1, 1)));

    let mut buf = Vec::new();
    for v in [0i64, -42, 300, i64::MIN, i64::MAX] {
        encode(v, &mut buf);
    }
    assert_eq!(decode_all(&buf).unwrap(), vec![0, -42, 300, i64::MIN, i64::MAX]);
    assert_eq!(encoded_len(-125), 2);
    assert_eq!(encoded_len(i64::MIN), 9);
}
