use bittorrent_starter_rust::{decode_bencoded_value, encode_bencoded_value, Error, Value};

fn decode_all(text: &[u8]) -> Value {
    let (v, rest) = decode_bencoded_value(text).expect("decodes");
    assert!(rest.is_empty());
    v
}

#[test]
fn decodes_byte_string() {
    match decode_all(b"5:hello") {
        Value::ByteString(b) => assert_eq!(b, b"hello".to_vec()),
        other => panic!("unexpected {:?}", other),
    }
}

#[test]
fn decodes_positive_integer() {
    assert!(matches!(decode_all(b"i52e"), Value::Integer(52)));
}

#[test]
fn decodes_negative_integer() {
    assert!(matches!(decode_all(b"i-4e"), Value::Integer(-4)));
}

#[test]
fn decodes_list() {
    match decode_all(b"l5:helloi52ee") {
        Value::List(items) => {
            assert_eq!(items.len(), 2);
            assert!(matches!(&items[0], Value::ByteString(b) if b.as_slice() == b"hello"));
            assert!(matches!(&items[1], Value::Integer(52)));
        }
        other => panic!("unexpected {:?}", other),
    }
}

#[test]
fn decodes_dictionary() {
    match decode_all(b"d3:foo3:bar5:helloi52ee") {
        Value::Dictionary(es) => {
            assert_eq!(es.len(), 2);
            assert_eq!(es[0].0, b"foo".to_vec());
            assert!(matches!(&es[0].1, Value::ByteString(b) if b.as_slice() == b"bar"));
            assert_eq!(es[1].0, b"hello".to_vec());
            assert!(matches!(&es[1].1, Value::Integer(52)));
        }
        other => panic!("unexpected {:?}", other),
    }
}

#[test]
fn keeps_the_remainder() {
    let (v, rest) = decode_bencoded_value(b"i7exyz").unwrap();
    assert!(matches!(v, Value::Integer(7)));
    assert_eq!(rest, b"xyz");
}

#[test]
fn rejects_truncated_byte_string() {
    assert_eq!(decode_bencoded_value(b"5:hel").unwrap_err(), Error::Format);
}

#[test]
fn rejects_non_string_key() {
    assert_eq!(decode_bencoded_value(b"di5ee").unwrap_err(), Error::Format);
}

#[test]
fn accepts_dictionary_ending_at_its_boundary() {
    let (v, rest) = decode_bencoded_value(b"d3:foo3:bare").unwrap();
    assert!(rest.is_empty());
    assert!(matches!(v, Value::Dictionary(es) if es.len() == 1));
}

#[test]
fn rejects_malformed_input() {
    for bad in [
        &b""[..],
        b"x",
        b"ie",
        b"i-e",
        b"i12",
        b"i1x2e",
        b"l",
        b"li1e",
        b"d3:foo",
        b"d3:fooe",
        b"3hello",
        b"i9223372036854775808e",
        b"i-9223372036854775809e",
    ] {
        assert_eq!(decode_bencoded_value(bad).unwrap_err(), Error::Format, "{:?}", bad);
    }
}

#[test]
fn decodes_integer_limits() {
    assert!(matches!(decode_all(b"i9223372036854775807e"), Value::Integer(i64::MAX)));
    assert!(matches!(decode_all(b"i-9223372036854775808e"), Value::Integer(i64::MIN)));
}

#[test]
fn canonical_input_round_trips() {
    for text in [
        &b"5:hello"[..],
        b"0:",
        b"i52e",
        b"i-4e",
        b"i0e",
        b"le",
        b"de",
        b"l5:helloi52ee",
        b"d3:foo3:bar5:helloi52ee",
        b"d4:listl1:a1:bi3ee4:subdd1:xi1eee",
    ] {
        let v = decode_all(text);
        assert_eq!(encode_bencoded_value(&v), text.to_vec());
    }
}

#[test]
fn encoding_sorts_keys_and_normalises_numbers() {
    let v = decode_all(b"d5:helloi052e3:foo3:bare");
    assert_eq!(encode_bencoded_value(&v), b"d3:foo3:bar5:helloi52ee".to_vec());
    let v = decode_all(b"i+7e");
    assert_eq!(encode_bencoded_value(&v), b"i7e".to_vec());
}

#[test]
fn later_duplicate_key_wins() {
    let v = decode_all(b"d1:ai1e1:ai2ee");
    assert_eq!(encode_bencoded_value(&v), b"d1:ai2ee".to_vec());
}

#[test]
fn encodes_constructed_value_and_decodes_it_back() {
    let v = Value::List(vec![
        Value::Integer(-120),
        Value::ByteString(vec![0, 255, 58]),
        Value::Dictionary(vec![(b"k".to_vec(), Value::List(vec![]))]),
    ]);
    let bytes = encode_bencoded_value(&v);
    assert_eq!(bytes, b"li-120e3:\x00\xff:d1:kleee".to_vec());
    let back = decode_all(&bytes);
    assert_eq!(encode_bencoded_value(&back), bytes);
}
