use husky::serial::{deserialize_option, deserialize_tuple, serialize_option, CodecError, Serial};

#[test]
fn serial() {
    let value = "hello".to_string();
    let serial = Serial::serialize(&value).unwrap();
    let deserial: String = Serial::deserialize(serial).unwrap();
    assert_eq!(value, deserial);
}

#[test]
fn integers_round_trip() {
    for x in [0u32, 1, 250, 251, 65535, 65536, u32::MAX] {
        let bytes = x.serialize().unwrap();
        assert_eq!(u32::deserialize(bytes).unwrap(), x);
    }
    for x in [i32::MIN, -1, 0, 1, i32::MAX] {
        let bytes = x.serialize().unwrap();
        assert_eq!(i32::deserialize(bytes).unwrap(), x);
    }
    for x in [0u64, 7, u64::MAX] {
        let bytes = x.serialize().unwrap();
        assert_eq!(u64::deserialize(bytes).unwrap(), x);
    }
}

#[test]
fn encoding_is_not_the_identity() {
    let bytes = "hello".to_string().serialize().unwrap();
    assert_ne!(bytes, b"hello".to_vec());
    assert!(bytes.len() > 5);
}

#[test]
fn integer_encoding_keeps_numeric_order_for_small_values() {
    let a = 3u32.serialize().unwrap();
    let b = 7u32.serialize().unwrap();
    assert!(a < b);
}

#[test]
fn malformed_bytes_are_rejected() {
    let r = String::deserialize(vec![0xff, 0xff, 0xff]);
    assert_eq!(r, Err(CodecError::Malformed));
}

#[test]
fn malformed_bytes_are_an_error_not_absence() {
    assert_eq!(deserialize_option::<String>(Some(vec![0xff, 0xff, 0xff])), Err(CodecError::Malformed));
    let r: Result<Option<(String, u32)>, CodecError> = deserialize_tuple(Some((vec![0xff], vec![1])));
    assert_eq!(r, Err(CodecError::Malformed));
}

#[test]
fn option_helpers() {
    assert_eq!(serialize_option::<u32>(None), Ok(None));
    let bytes = serialize_option(Some(&5u32)).unwrap().unwrap();
    assert_eq!(deserialize_option::<u32>(Some(bytes.clone())), Ok(Some(5)));
    assert_eq!(deserialize_option::<u32>(None), Ok(None));
    let key = "k".to_string().serialize().unwrap();
    let pair: Option<(String, u32)> = deserialize_tuple(Some((key, bytes))).unwrap();
    assert_eq!(pair, Some(("k".to_string(), 5)));
    let none: Option<(String, u32)> = deserialize_tuple(None).unwrap();
    assert_eq!(none, None);
}

#[test]
fn integers_use_big_endian_varints() {
    assert_eq!(5u32.serialize().unwrap(), vec![5]);
    assert_eq!(250u32.serialize().unwrap(), vec![250]);
    assert_eq!(300u32.serialize().unwrap(), vec![251, 1, 44]);
    assert_eq!(70000u32.serialize().unwrap(), vec![252, 0, 1, 17, 112]);
    assert_eq!(u64::MAX.serialize().unwrap(), vec![253, 255, 255, 255, 255, 255, 255, 255, 255]);
    assert_eq!((-1i32).serialize().unwrap(), vec![1]);
    assert_eq!(3i32.serialize().unwrap(), vec![6]);
    assert_eq!(i32::MIN.serialize().unwrap(), vec![252, 255, 255, 255, 255]);
}

#[test]
fn unsigned_encodings_sort_as_numbers() {
    let values = [0u64, 7, 250, 251, 300, 65535, 65536, 70000, 4294967295, 4294967296, u64::MAX];
    for w in values.windows(2) {
        assert!(w[0].serialize().unwrap() < w[1].serialize().unwrap());
    }
}
