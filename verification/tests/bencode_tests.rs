//! Bencode codec behaviour: the four value kinds, nesting, errors, and the
//! encoder round trip.

use seedcore::bencode::BencodeValue;

#[test]
fn test_parse_integer() {
    let value = BencodeValue::parse(b"i42e").unwrap();
    assert_eq!(value.as_integer(), Some(42));

    let value = BencodeValue::parse(b"i-42e").unwrap();
    assert_eq!(value.as_integer(), Some(-42));
}

#[test]
fn test_parse_string() {
    let value = BencodeValue::parse(b"4:spam").unwrap();
    assert_eq!(value.as_str(), Some("spam"));
}

#[test]
fn test_parse_list() {
    let value = BencodeValue::parse(b"l4:spam4:eggse").unwrap();
    let list = value.as_list().unwrap();
    assert_eq!(list.len(), 2);
    assert_eq!(list[0].as_str(), Some("spam"));
    assert_eq!(list[1].as_str(), Some("eggs"));
}

#[test]
fn test_parse_dict() {
    let value = BencodeValue::parse(b"d3:cow3:moo4:spam4:eggse").unwrap();
    assert_eq!(value.dict_get_str(b"cow"), Some("moo"));
    assert_eq!(value.dict_get_str(b"spam"), Some("eggs"));
}

#[test]
fn test_nested_structure() {
    let data = b"d4:listl1:a1:be6:numberi42ee";
    let value = BencodeValue::parse(data).unwrap();

    let list = value.dict_get(b"list").and_then(|v| v.as_list()).unwrap();
    assert_eq!(list.len(), 2);

    assert_eq!(value.dict_get_int(b"number"), Some(42));
}

#[test]
fn test_encode_round_trip() {
    let samples: Vec<&[u8]> = vec![
        b"i42e",
        b"i-17e",
        b"i0e",
        b"4:spam",
        b"0:",
        b"l4:spam4:eggsi7ee",
        b"d3:cow3:moo4:spam4:eggse",
        b"d4:listl1:a1:be6:numberi42ee",
        b"de",
        b"le",
    ];
    for sample in samples {
        let value = BencodeValue::parse(sample).unwrap();
        assert_eq!(value.encode(), sample.to_vec());
    }
}

#[test]
fn test_parse_errors() {
    assert!(BencodeValue::parse(b"").is_err());
    assert!(BencodeValue::parse(b"i42").is_err());
    assert!(BencodeValue::parse(b"ixe").is_err());
    assert!(BencodeValue::parse(b"5:spam").is_err());
    assert!(BencodeValue::parse(b"l4:spam").is_err());
    assert!(BencodeValue::parse(b"di1e4:spame").is_err());
    assert!(BencodeValue::parse(b"x").is_err());
}

#[test]
fn test_raw_range_of_key() {
    let data = b"d8:announce4:spam4:infod6:lengthi7eee";
    let (a, b) = seedcore::bencode::raw_range_of_key(data, b"info").unwrap();
    assert_eq!(&data[a..b], b"d6:lengthi7ee");
    assert!(seedcore::bencode::raw_range_of_key(data, b"missing").is_none());
}

#[test]
fn test_integer_limits() {
    let value = BencodeValue::parse(b"i9223372036854775807e").unwrap();
    assert_eq!(value.as_integer(), Some(i64::MAX));
    let value = BencodeValue::parse(b"i-9223372036854775808e").unwrap();
    assert_eq!(value.as_integer(), Some(i64::MIN));
    assert!(BencodeValue::parse(b"i9223372036854775808e").is_err());
}
