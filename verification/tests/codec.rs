use bijoux::{Decode, Encode};

fn check_u32(values: &[u32]) {
    for &value in values {
        assert_eq!(value.encoded_len(), bijoux::bijou32::encoded_len(value));
        assert_eq!(
            value.encoded_bytes().as_slice(),
            bijoux::bijou32::encoded_bytes(value).as_slice()
        );
        let mut via_trait = Vec::new();
        value.encode(&mut via_trait);
        let mut via_free = Vec::new();
        bijoux::bijou32::encode(value, &mut via_free);
        assert_eq!(via_trait, via_free);
        assert_eq!(<u32 as Decode>::decode(&via_trait), bijoux::bijou32::decode(&via_free));
    }
}

#[test]
fn trait_surface_matches_free_functions() {
    check_u32(&[0u32, 1, 251, 252, 507, 508, u32::MAX]);
    for value in [0u64, 1, 247, 248, 503, 504, 66_040, u64::MAX] {
        let mut via_trait = Vec::new();
        value.encode(&mut via_trait);
        assert_eq!(value.encoded_len(), bijoux::bijou64::encoded_len(value));
        assert_eq!(&*value.encoded_bytes(), via_trait.as_slice());
        assert_eq!(<u64 as Decode>::decode(&via_trait), bijoux::bijou64::decode(&via_trait));
    }
    for value in [0u128, 1, 239, 240, 495, 496, u128::MAX] {
        let mut via_trait = Vec::new();
        value.encode(&mut via_trait);
        assert_eq!(value.encoded_len(), bijoux::bijou128::encoded_len(value));
        assert_eq!(<u128 as Decode>::decode(&via_trait), bijoux::bijou128::decode(&via_trait));
    }
    for value in [0i32, -1, 1, -126, 125, -127, 126, i32::MIN, i32::MAX] {
        let mut via_trait = Vec::new();
        value.encode(&mut via_trait);
        assert_eq!(value.encoded_len(), bijoux::i32::encoded_len(value));
        assert_eq!(<i32 as Decode>::decode(&via_trait), bijoux::i32::decode(&via_trait));
    }
    for value in [0i64, -1, 1, -124, 123, -125, 124, i64::MIN, i64::MAX] {
        let mut via_trait = Vec::new();
        value.encode(&mut via_trait);
        assert_eq!(value.encoded_len(), bijoux::i64::encoded_len(value));
        assert_eq!(<i64 as Decode>::decode(&via_trait), bijoux::i64::decode(&via_trait));
    }
    for value in [0i128, -1, 1, -120, 119, -121, 120, i128::MIN, i128::MAX] {
        let mut via_trait = Vec::new();
        value.encode(&mut via_trait);
        assert_eq!(value.encoded_len(), bijoux::i128::encoded_len(value));
        assert_eq!(<i128 as Decode>::decode(&via_trait), bijoux::i128::decode(&via_trait));
    }
}

#[test]
fn u64_decode_all_roundtrip() {
    let values = vec![0u64, 42, 300, u64::MAX];
    let mut buf = Vec::new();
    for &value in &values {
        value.encode(&mut buf);
    }

    assert_eq!(u64::decode_all(&buf).expect("valid buffer"), values);
}

#[test]
fn max_bytes_literals() {
    assert_eq!(<u32 as Encode>::MAX_BYTES, 5);
    assert_eq!(<u64 as Encode>::MAX_BYTES, 9);
    assert_eq!(<u128 as Encode>::MAX_BYTES, 17);
    assert_eq!(<i32 as Encode>::MAX_BYTES, 5);
    assert_eq!(<i64 as Encode>::MAX_BYTES, 9);
    assert_eq!(<i128 as Encode>::MAX_BYTES, 17);
}

#[derive(Debug, Clone, Copy, PartialEq)]
struct Byte(u8);

impl Decode for Byte {
    type Error = ();

    fn decode(bytes: &[u8]) -> Result<(Self, usize), ()> {
        match bytes.first() {
            Some(&0xFF) | None => Err(()),
            Some(&b) => Ok((Byte(b), 1)),
        }
    }
}

#[test]
fn decode_all_default_body() {
    assert_eq!(
        Byte::decode_all(&[1, 2, 3]),
        Ok(vec![Byte(1), Byte(2), Byte(3)])
    );
    assert_eq!(Byte::decode_all(&[]), Ok(vec![]));
    assert_eq!(Byte::decode_all(&[1, 0xFF, 2]), Err(()));
}

#[test]
fn generic_frame_over_encode() {
    fn frame<T: Encode>(values: &[T], buf: &mut Vec<u8>) {
        for &value in values {
            value.encode(buf);
        }
    }

    let mut buf = Vec::new();
    frame(&[0u64, 247, 248], &mut buf);
    assert_eq!(buf.len(), 1 + 1 + 2);

    let mut buf = Vec::new();
    300u64.encode(&mut buf);
    assert_eq!(buf, [0xF8, 0x34]);
    assert_eq!(u64::decode(&buf), Ok((300, 2)));

    let mut buf = Vec::new();
    300u32.encode(&mut buf);
    assert_eq!(buf, [0xFC, 0x30]);

    let mut buf = Vec::new();
    500u128.encode(&mut buf);
    assert_eq!(buf, [0xF1, 0x00, 0x04]);
}

/// Reports consuming more bytes than it was given.
#[derive(Debug, Clone, Copy, PartialEq)]
struct Greedy(u8);

impl Decode for Greedy {
    type Error = ();

    fn decode(bytes: &[u8]) -> Result<(Self, usize), ()> {
        match bytes.first() {
            None => Err(()),
            Some(&b) => Ok((Greedy(b), usize::from(b).max(1))),
        }
    }
}

#[test]
fn decode_all_default_ends_on_an_overlong_count() {
    assert_eq!(Greedy::decode_all(&[1, 5, 9]), Ok(vec![Greedy(1), Greedy(5)]));
    assert_eq!(Greedy::decode_all(&[1, 2, 7, 7]), Ok(vec![Greedy(1), Greedy(2), Greedy(7)]));
    assert_eq!(Greedy::decode_all(&[3, 0, 0]), Ok(vec![Greedy(3)]));
}

#[test]
fn width_named_module_paths() {
    let mut buf = Vec::new();
    bijoux::u64::encode(300, &mut buf);
    assert_eq!(buf, [0xF8, 0x34]);
    assert_eq!(bijoux::u32::decode(&[0xFC, 0x30]), Ok((300, 2)));
    let enc: bijoux::u128::EncodedU128 = bijoux::u128::encoded_bytes(500);
    assert_eq!(enc.as_slice(), &[0xF1, 0x00, 0x04]);
}
