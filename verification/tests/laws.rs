use bijoux::{bijou128, bijou32, bijou64};

#[test]
fn encoded_bytes_matches_encode_at_every_tier_edge() {
    for (tier, &offset) in bijou64::OFFSETS.iter().enumerate().skip(1) {
        for value in [offset - 1, offset, offset + 1] {
            let value = value as u64;
            let mut buf = Vec::new();
            bijou64::encode(value, &mut buf);
            assert_eq!(bijou64::encoded_bytes(value).as_slice(), buf.as_slice());
            assert_eq!(bijou64::encoded_len(value), buf.len());
            if value == offset as u64 {
                assert_eq!(buf.len(), tier + 1);
            }
        }
    }
    for (tier, &offset) in bijou32::OFFSETS.iter().enumerate().skip(1) {
        for value in [offset - 1, offset, offset + 1] {
            let value = value as u32;
            let mut buf = Vec::new();
            bijou32::encode(value, &mut buf);
            assert_eq!(bijou32::encoded_bytes(value).as_slice(), buf.as_slice());
            assert_eq!(bijou32::encoded_len(value), buf.len());
            if value == offset as u32 {
                assert_eq!(buf.len(), tier + 1);
            }
        }
    }
    for (tier, &offset) in bijou128::OFFSETS.iter().enumerate().skip(1) {
        for value in [offset - 1, offset, offset + 1] {
            let mut buf = Vec::new();
            bijou128::encode(value, &mut buf);
            assert_eq!(bijou128::encoded_bytes(value).as_slice(), buf.as_slice());
            assert_eq!(bijou128::encoded_len(value), buf.len());
            if value == offset {
                assert_eq!(buf.len(), tier + 1);
            }
        }
    }
    assert_eq!(bijou64::encoded_bytes(u64::MAX).as_slice().len(), 9);
    assert_eq!(bijou32::encoded_bytes(u32::MAX).as_slice().len(), 5);
    assert_eq!(bijou128::encoded_bytes(u128::MAX).as_slice().len(), 17);
    assert_eq!(bijou64::encoded_bytes(300).as_slice(), &[0xF8, 0x34]);
    assert_eq!(bijou128::encoded_bytes(500).as_slice(), &[0xF1, 0x00, 0x04]);
}

#[test]
fn signed_tiers_split_evenly_around_zero() {
    for n in [0i64, 123, 124, 251, 252, 33_019, 33_020, i64::MAX, -1, -124, -125] {
        assert_eq!(bijoux::i64::encoded_len(n), bijoux::i64::encoded_len(!n));
    }
    assert_eq!(bijoux::i64::encoded_len(123), 1);
    assert_eq!(bijoux::i64::encoded_len(-124), 1);
    assert_eq!(bijoux::i64::encoded_len(124), 2);
    assert_eq!(bijoux::i64::encoded_len(-125), 2);
    for n in [0i32, 125, 126, i32::MAX, i32::MIN, -126, -127] {
        assert_eq!(bijoux::i32::encoded_len(n), bijoux::i32::encoded_len(!n));
    }
    for n in [0i128, 119, 120, i128::MAX, i128::MIN, -120, -121] {
        assert_eq!(bijoux::i128::encoded_len(n), bijoux::i128::encoded_len(!n));
    }
}

#[test]
fn signed_errors_are_the_unsigned_errors() {
    assert_eq!(bijoux::i64::decode(&[]), Err(bijoux::i64::DecodeError::BufferTooShort));
    assert_eq!(bijoux::i64::decode(&[0xF9, 0x00]), Err(bijoux::i64::DecodeError::BufferTooShort));
    assert_eq!(bijoux::i64::decode(&[0xFF; 9]), Err(bijoux::i64::DecodeError::Overflow));
    assert_eq!(bijoux::i32::decode(&[0xFD, 0x00]), Err(bijoux::i32::DecodeError::BufferTooShort));
    assert_eq!(bijoux::i32::decode(&[0xFF; 5]), Err(bijoux::i32::DecodeError::Overflow));
    assert_eq!(bijoux::i128::decode(&[0xF0]), Err(bijoux::i128::DecodeError::BufferTooShort));
    assert_eq!(bijoux::i128::decode(&[0xFF; 17]), Err(bijoux::i128::DecodeError::Overflow));
}
