use torrent_core::bencode::{BencodeValue, BencodeCause};

fn decode_ok(input: &[u8]) -> BencodeValue {
    BencodeValue::decode(input).expect("input should decode")
}

#[test]
fn decode_simple_dict() {
    let input = b"d3:cow3:moo4:spam4:eggse";
    let value = decode_ok(input);
    match &value {
        BencodeValue::Dictionary(pairs) => {
            assert_eq!(pairs.len(), 2);
            assert_eq!(pairs[0].0, b"cow".to_vec());
            assert!(matches!(&pairs[0].1, BencodeValue::Bytes(v) if v == &b"moo".to_vec()));
            assert_eq!(pairs[1].0, b"spam".to_vec());
            assert!(matches!(&pairs[1].1, BencodeValue::Bytes(v) if v == &b"eggs".to_vec()));
        }
        other => panic!("expected dictionary, got {:?}", other),
    }
    // Re-encoded bytes equal the input.
    assert_eq!(value.encode(), input.to_vec());
}

#[test]
fn decode_integer() {
    let value = decode_ok(b"i42e");
    assert!(matches!(value, BencodeValue::Integer(42)));
}

#[test]
fn decode_negative_zero_is_syntax_error() {
    let err = BencodeValue::decode(b"i-0e").unwrap_err();
    assert_eq!(err.cause, BencodeCause::InvalidInteger);
}

#[test]
fn decode_negative_integer_round_trips() {
    let input = b"i-7e";
    let value = decode_ok(input);
    assert!(matches!(value, BencodeValue::Integer(-7)));
    assert_eq!(value.encode(), input.to_vec());
}

#[test]
fn decode_rejects_leading_zeros() {
    assert!(BencodeValue::decode(b"i042e").is_err());
    assert!(BencodeValue::decode(b"i00e").is_err());
}

#[test]
fn decode_zero() {
    let value = decode_ok(b"i0e");
    assert!(matches!(value, BencodeValue::Integer(0)));
    assert_eq!(value.encode(), b"i0e".to_vec());
}

#[test]
fn decode_rejects_trailing_data() {
    let err = BencodeValue::decode(b"i42eXYZ").unwrap_err();
    assert_eq!(err.cause, BencodeCause::TrailingData);
    assert_eq!(err.position, 4);
}

#[test]
fn decode_rejects_truncation() {
    assert!(BencodeValue::decode(b"i42").is_err());
    assert!(BencodeValue::decode(b"4:abc").is_err());
    assert!(BencodeValue::decode(b"l i1e").is_err());
    assert!(BencodeValue::decode(b"li1e").is_err());
    assert!(BencodeValue::decode(b"d3:cow3:moo").is_err());
}

#[test]
fn decode_rejects_bad_leading_byte() {
    let err = BencodeValue::decode(b"x42e").unwrap_err();
    assert_eq!(err.cause, BencodeCause::InvalidLeadingByte);
    assert_eq!(err.position, 0);
}

#[test]
fn decode_integer_overflow() {
    // One past i64::MAX.
    let err = BencodeValue::decode(b"i9223372036854775808e").unwrap_err();
    assert_eq!(err.cause, BencodeCause::IntegerOverflow);
    // i64::MIN itself decodes.
    let value = decode_ok(b"i-9223372036854775808e");
    assert!(matches!(value, BencodeValue::Integer(i64::MIN)));
    assert_eq!(value.encode(), b"i-9223372036854775808e".to_vec());
    // One below i64::MIN does not.
    assert!(BencodeValue::decode(b"i-9223372036854775809e").is_err());
}

#[test]
fn decode_nested_list_round_trips() {
    let input = b"ll4:spami42eei-1ee";
    let value = decode_ok(input);
    assert_eq!(value.encode(), input.to_vec());
}

#[test]
fn decode_empty_string_and_list() {
    let value = decode_ok(b"0:");
    assert!(matches!(&value, BencodeValue::Bytes(v) if v.is_empty()));
    let value = decode_ok(b"le");
    assert!(matches!(&value, BencodeValue::List(v) if v.is_empty()));
    let value = decode_ok(b"de");
    assert!(matches!(&value, BencodeValue::Dictionary(v) if v.is_empty()));
}

#[test]
fn decode_preserves_duplicate_keys() {
    let input = b"d1:ai1e1:ai2ee";
    let value = decode_ok(input);
    match &value {
        BencodeValue::Dictionary(pairs) => {
            assert_eq!(pairs.len(), 2);
            assert_eq!(pairs[0].0, b"a".to_vec());
            assert_eq!(pairs[1].0, b"a".to_vec());
        }
        other => panic!("expected dictionary, got {:?}", other),
    }
    assert_eq!(value.encode(), input.to_vec());
}

#[test]
fn decode_rejects_non_string_key() {
    let err = BencodeValue::decode(b"di1ei2ee").unwrap_err();
    assert_eq!(err.cause, BencodeCause::NonStringKey);
}

#[test]
fn encode_builds_canonical_bytes() {
    let value = BencodeValue::Dictionary(vec![
        (b"a".to_vec(), BencodeValue::Integer(-3)),
        (b"b".to_vec(), BencodeValue::List(vec![
            BencodeValue::Bytes(b"hi".to_vec()),
        ])),
    ]);
    assert_eq!(value.encode(), b"d1:ai-3e1:bl2:hiee".to_vec());
}

#[test]
fn round_trip_torrent_like_input() {
    let input =
        b"d8:announce16:http://t.example4:infod6:lengthi5e4:name1:f12:piece lengthi5e6:pieces0:ee";
    let value = decode_ok(input);
    assert_eq!(value.encode(), input.to_vec());
}

#[test]
fn decode_rejects_length_prefix_with_leading_zero() {
    assert!(BencodeValue::decode(b"02:ab").is_err());
}
