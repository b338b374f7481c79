use bencode::{dict_get, parse, parse_dict, parse_int, parse_list, parse_str, BencodeType};

#[test]
fn integer() {
    parse_int(b"").expect_err("format");
    parse_int(b"ie").expect_err("format");
    parse_int(b"i12345").expect_err("format");
    parse_int(b"12345e").expect_err("format");

    let int = parse_int(b"i12345e").expect("should convert");
    assert!(int.value.as_int().unwrap() == 12345);
    assert!(int.next.len() == 0);

    let int = parse_int(b"i-12345e").expect("should convert");
    assert!(int.value.as_int().unwrap() == -12345);
    assert!(int.next.len() == 0);

    let int = parse_int(b"i12345esomethingelse").expect("should convert");
    assert!(int.value.as_int().unwrap() == 12345);
    assert!(int.next.len() != 0);
    assert!(int.next[0] == b's');
}

#[test]
fn str() {
    parse_str(b"").expect_err("format");

    let s = parse_str(b"3:abc").expect("format");
    assert!(s.value.as_str().unwrap() == "abc");
    assert!(s.next.len() == 0);

    let s = parse_str(b"3:abcd").expect("format");
    assert!(s.value.as_str().unwrap() == "abc");
    assert!(s.next.len() != 0);
    assert!(s.next[0] == b'd');
}

#[test]
fn list() {
    parse_list(b"li1ei2e").expect_err("incomplete format");

    let list = parse_list(b"li1ei2ee").expect("should be an int list");
    assert!(list.value.as_list().expect("must be a list").len() == 2);
    assert!(list.value.as_list().unwrap()[0] == BencodeType::Integer(1));
    assert!(list.value.as_list().unwrap()[1] == BencodeType::Integer(2));

    let list = parse_list(b"li1ei2ee").expect("should be an int list");
    assert!(list.value.as_list().expect("must be a list").len() == 2);
    assert!(list.value.as_list().unwrap()[0] == BencodeType::Integer(1));
    assert!(list.value.as_list().unwrap()[1] == BencodeType::Integer(2));
}

#[test]
fn dict() {
    parse_dict(b"di1ei2e").expect_err("int as key");
    parse_dict(b"d3:abci34e").expect_err("no ending e");

    let dict = parse_dict(b"d3:abci3ee").expect("should be a dict");
    let dict = dict.value.as_dict().expect("must be a dict");
    assert!(dict.len() == 1);
    assert!(
        dict_get(dict, "abc")
            .expect("must exist")
            .as_int()
            .expect("must be an int")
            == 3
    );
}

#[test]
fn alltogether() {
    let bencode = b"d4:dictd3:key36:This is a string within a dictionarye7:integeri12345e4:listli1ei2ei3ei4e6:stringi5edee6:string11:Hello Worlde";

    let all = parse(bencode).expect("this is a correct input");
    let dict = all.as_dict().expect("top level is a dict");
    assert!(dict.len() == 4);
}
