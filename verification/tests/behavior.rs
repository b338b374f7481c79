use bencode::{dict_get, parse, parse_dict, parse_int, parse_str, ConvertError};

#[test]
fn literal_scenarios() {
    let v = parse(b"i42e").expect("integer token");
    assert_eq!(v.as_int(), Some(42));

    let v = parse(b"i-7e").expect("negative integer token");
    assert_eq!(v.as_int(), Some(-7));

    let v = parse(b"4:spam").expect("string token");
    assert_eq!(v.as_str(), Some("spam"));

    let v = parse(b"l4:spam4:eggse").expect("list token");
    let items = v.as_list().expect("must be a list");
    assert_eq!(items.len(), 2);
    assert_eq!(items[0].as_str(), Some("spam"));
    assert_eq!(items[1].as_str(), Some("eggs"));

    let v = parse(b"d3:cow3:moo4:spam4:eggse").expect("dictionary token");
    let entries = v.as_dict().expect("must be a dict");
    assert_eq!(entries.len(), 2);
    assert_eq!(dict_get(entries, "cow").unwrap().as_str(), Some("moo"));
    assert_eq!(dict_get(entries, "spam").unwrap().as_str(), Some("eggs"));

    parse(b"i123").expect_err("no terminator");
    parse(b"5:abc").expect_err("declared length exceeds available bytes");
    parse(b"di1ei2ee").expect_err("dictionary key is an integer, not a string");
}

#[test]
fn top_level_consumes_everything() {
    assert_eq!(parse(b"").unwrap_err(), ConvertError::EOF);
    assert_eq!(parse(b"i1ex").unwrap_err(), ConvertError::EOF);
    assert_eq!(parse(b"4:spamspam").unwrap_err(), ConvertError::EOF);
    assert_eq!(parse(b"lei0e").unwrap_err(), ConvertError::EOF);
    assert!(parse(b"le").unwrap().as_list().unwrap().is_empty());
    assert!(parse(b"de").unwrap().as_dict().unwrap().is_empty());
}

#[test]
fn integer_boundaries() {
    assert_eq!(parse(b"i0e").unwrap().as_int(), Some(0));
    assert_eq!(parse(b"i2147483647e").unwrap().as_int(), Some(2147483647));
    assert_eq!(parse(b"i-2147483648e").unwrap().as_int(), Some(-2147483648));
    assert_eq!(
        parse(b"i2147483648e").unwrap_err(),
        ConvertError::PayloadTooBig
    );
    assert_eq!(
        parse(b"i-2147483649e").unwrap_err(),
        ConvertError::PayloadTooBig
    );
}

#[test]
fn integer_numerals_at_face_value() {
    assert_eq!(parse(b"i007e").unwrap().as_int(), Some(7));
    assert_eq!(parse(b"i-0e").unwrap().as_int(), Some(0));
    assert_eq!(parse(b"i+42e").unwrap_err(), ConvertError::PayloadTooBig);
    assert_eq!(parse(b"i4x2e").unwrap_err(), ConvertError::PayloadTooBig);
    assert_eq!(parse(b"i-e").unwrap_err(), ConvertError::PayloadTooBig);
    assert_eq!(parse_int(b"ie").unwrap_err(), ConvertError::BufferTooShort);
    assert_eq!(
        parse_int(b"i4\xffe").unwrap_err(),
        ConvertError::InvalidEncoding
    );
}

#[test]
fn string_edges() {
    let s = parse_str(b"0:x").expect("empty payload with a continuation");
    assert_eq!(s.value.as_str(), Some(""));
    assert_eq!(s.next, b"x");

    assert_eq!(parse_str(b"0:").unwrap_err(), ConvertError::InvalidFormat);
    assert_eq!(parse_str(b":abc").unwrap_err(), ConvertError::InvalidFormat);
    assert_eq!(parse_str(b"abc").unwrap_err(), ConvertError::InvalidFormat);
    assert_eq!(parse_str(b"5:abc").unwrap_err(), ConvertError::BufferTooShort);
    assert_eq!(
        parse_str(b"99999999999:aaa").unwrap_err(),
        ConvertError::PayloadTooBig
    );
    assert_eq!(parse_str(b"-1:ab").unwrap_err(), ConvertError::PayloadTooBig);
    assert_eq!(
        parse_str(b"2:\xff\xffrest").unwrap_err(),
        ConvertError::InvalidEncoding
    );
}

#[test]
fn duplicate_keys_last_wins() {
    let v = parse(b"d1:ai1e1:bi2e1:ai3ee").expect("dictionary with a repeated key");
    let entries = v.as_dict().expect("must be a dict");
    assert_eq!(entries.len(), 2);
    assert_eq!(dict_get(entries, "a").unwrap().as_int(), Some(3));
    assert_eq!(dict_get(entries, "b").unwrap().as_int(), Some(2));
    assert!(dict_get(entries, "c").is_none());
}

#[test]
fn list_preserves_order() {
    let v = parse(b"li3ei1ei2ee").expect("integer list");
    let items = v.as_list().expect("must be a list");
    assert_eq!(items.len(), 3);
    assert_eq!(items[0].as_int(), Some(3));
    assert_eq!(items[1].as_int(), Some(1));
    assert_eq!(items[2].as_int(), Some(2));
}

#[test]
fn nested_structures() {
    let v = parse(b"ld1:kli1ei2eeeli0eee").expect("nested lists and dictionaries");
    let items = v.as_list().expect("must be a list");
    assert_eq!(items.len(), 2);
    let inner_dict = items[0].as_dict().expect("first element is a dict");
    let inner_list = dict_get(inner_dict, "k").unwrap().as_list().unwrap();
    assert_eq!(inner_list.len(), 2);
    assert_eq!(inner_list[1].as_int(), Some(2));
    assert_eq!(items[1].as_list().unwrap()[0].as_int(), Some(0));
}

#[test]
fn nested_failures_propagate() {
    assert_eq!(parse(b"li1e").unwrap_err(), ConvertError::InvalidFormat);
    assert_eq!(parse(b"li1exe").unwrap_err(), ConvertError::InvalidFormat);
    assert_eq!(parse(b"d1:a").unwrap_err(), ConvertError::EOF);
    assert_eq!(parse(b"l5:abce").unwrap_err(), ConvertError::BufferTooShort);
    assert_eq!(parse(b"x").unwrap_err(), ConvertError::InvalidFormat);
    assert_eq!(
        parse_dict(b"di1ei2ee").unwrap_err(),
        ConvertError::InvalidFormat
    );
}

#[test]
fn mismatched_accessors_are_absent() {
    let v = parse(b"i5e").unwrap();
    assert!(v.as_str().is_none());
    assert!(v.as_list().is_none());
    assert!(v.as_dict().is_none());

    let v = parse(b"1:a").unwrap();
    assert!(v.as_int().is_none());
    assert!(v.as_list().is_none());
}
