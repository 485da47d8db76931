use bijoux::i128::{
    decode, decode_all, encode, encoded_bytes, encoded_len, unzigzag, zigzag, DecodeError,
    MAX_BYTES,
};

#[test]
fn i128_window_and_extremes() {
    assert_eq!(encoded_len(-120), 1);
    assert_eq!(encoded_len(119), 1);
    assert_eq!(encoded_len(-121), 2);
    assert_eq!(encoded_len(120), 2);
    assert_eq!(encoded_len(i128::MIN), MAX_BYTES);
    assert_eq!(encoded_len(i128::MAX), MAX_BYTES);
    assert_eq!(zigzag(i128::MIN), u128::MAX);
    assert_eq!(zigzag(i128::MAX), u128::MAX - 1);
    for v in [0i128, -1, 1, i128::MIN, i128::MAX, -120, 119, -121, 120] {
        assert_eq!(unzigzag(zigzag(v)), v);
        let mut buf = Vec::new();
        encode(v, &mut buf);
        assert_eq!(encoded_bytes(v).as_slice(), buf.as_slice());
        assert_eq!(decode(&buf), Ok((v, buf.len())));
    }
}

#[test]
fn i128_errors_and_stream() {
    assert_eq!(decode(&[]), Err(DecodeError::BufferTooShort));
    assert_eq!(decode(&[0xFF; 17]), Err(DecodeError::Overflow));
    let mut buf = Vec::new();
    encode(-1, &mut buf);
    assert_eq!(buf, [0x01]);
    encode(i128::MIN, &mut buf);
    assert_eq!(decode_all(&buf), Ok(vec![-1, i128::MIN]));
}
