use bencode::metadata::{Metadata, MetadataError};
use bencode::parser::{decode, from_digit, parse_int, parse_list, parse_primitive, parse_str, ErrorKind, ParseError, MAX_DEPTH};
use bencode::value::{AccessError, BEncodedType};

fn value_of(buf: &[u8]) -> BEncodedType<'_> {
    match decode(buf) {
        Ok((v, _)) => v,
        Err(e) => panic!("decoding failed: {:?}", e),
    }
}

#[test]
fn canonical_integers_decode() {
    assert_eq!(decode(b"i0e"), Ok((BEncodedType::Integer(0), &b""[..])));
    assert_eq!(decode(b"i7e"), Ok((BEncodedType::Integer(7), &b""[..])));
    assert_eq!(decode(b"i1234e"), Ok((BEncodedType::Integer(1234), &b""[..])));
    assert_eq!(decode(b"i-1234e"), Ok((BEncodedType::Integer(-1234), &b""[..])));
}

#[test]
fn integer_bounds() {
    assert_eq!(parse_int(b"i9223372036854775807e"), Ok((&b""[..], i64::MAX)));
    assert_eq!(parse_int(b"i-9223372036854775808e"), Ok((&b""[..], i64::MIN)));
    assert_eq!(
        parse_int(b"i9223372036854775808e"),
        Err(ParseError::Failure(b"9223372036854775808e", ErrorKind::TooLarge))
    );
    assert_eq!(
        parse_int(b"i-9223372036854775809e"),
        Err(ParseError::Failure(b"9223372036854775809e", ErrorKind::TooLarge))
    );
}

#[test]
fn zero_forms_rejected() {
    assert_eq!(decode(b"i-0e"), Err(ParseError::Failure(b"0e", ErrorKind::OneOf)));
    assert_eq!(decode(b"i03e"), Err(ParseError::Failure(b"03e", ErrorKind::OneOf)));
    assert_eq!(decode(b"i-03e"), Err(ParseError::Failure(b"03e", ErrorKind::OneOf)));
    assert_eq!(decode(b"i00e"), Err(ParseError::Failure(b"00e", ErrorKind::OneOf)));
}

#[test]
fn malformed_integers_fail_hard() {
    assert_eq!(decode(b"i-e"), Err(ParseError::Failure(b"e", ErrorKind::Digit)));
    assert_eq!(decode(b"ie"), Err(ParseError::Failure(b"e", ErrorKind::Digit)));
    assert_eq!(decode(b"i12"), Err(ParseError::Failure(b"", ErrorKind::Tag)));
    assert_eq!(decode(b"i12x"), Err(ParseError::Failure(b"x", ErrorKind::Tag)));
}

#[test]
fn byte_strings_keep_the_rest() {
    assert_eq!(decode(b"4:spamxyz"), Ok((BEncodedType::String(b"spam"), &b"xyz"[..])));
    assert_eq!(decode(b"0:"), Ok((BEncodedType::String(b""), &b""[..])));
    assert_eq!(decode(b"3:\x00\xff\x01"), Ok((BEncodedType::String(b"\x00\xff\x01"), &b""[..])));
    assert_eq!(parse_str(b"4:spa"), Err(ParseError::Failure(b"spa", ErrorKind::Eof)));
    assert_eq!(parse_str(b"023:abc"), Err(ParseError::Failure(b"023:abc", ErrorKind::OneOf)));
    assert_eq!(parse_str(b"3abc"), Err(ParseError::Failure(b"abc", ErrorKind::Tag)));
    assert_eq!(
        parse_str(b"99999999999999999999999:abc"),
        Err(ParseError::Failure(b"abc", ErrorKind::Eof))
    );
}

#[test]
fn labels_match_kinds() {
    assert_eq!(value_of(b"4:spam").type_str(), "string");
    assert_eq!(value_of(b"i3e").type_str(), "integer");
    assert_eq!(value_of(b"l4:spame").type_str(), "list");
    assert_eq!(value_of(b"d3:cow3:mooe").type_str(), "dictionary");
}

#[test]
fn dict_get_finds_present_keys() {
    let v = value_of(b"d3:cow3:moo4:spam4:eggse");
    assert_eq!(v.dict_get("cow"), Ok(&BEncodedType::String(b"moo")));
    assert_eq!(v.dict_get("spam"), Ok(&BEncodedType::String(b"eggs")));
    assert_eq!(v.dict_get("pig"), Err(AccessError::KeyNotFound));
    assert_eq!(v.dict_get(""), Err(AccessError::KeyNotFound));
}

#[test]
fn dict_get_on_other_kinds_is_a_type_error() {
    for buf in [&b"4:spam"[..], b"i3e", b"le", b"li1ee"] {
        assert_eq!(value_of(buf).dict_get("cow"), Err(AccessError::TypeMismatch));
    }
}

#[test]
fn repeated_key_keeps_last_value() {
    let v = value_of(b"d1:ai1e1:ai2ee");
    assert_eq!(v.dict_get("a"), Ok(&BEncodedType::Integer(2)));
    let keys = v.dict_keys().unwrap();
    assert_eq!(keys, vec![&b"a"[..]]);
}

#[test]
fn unsorted_keys_are_accepted() {
    let v = value_of(b"d4:zetai1e5:alphai2ee");
    assert_eq!(v.dict_get("zeta"), Ok(&BEncodedType::Integer(1)));
    assert_eq!(v.dict_get("alpha"), Ok(&BEncodedType::Integer(2)));
}

#[test]
fn list_order_is_kept() {
    let expected: (&[u8], _) = (
        b"",
        vec![BEncodedType::Integer(1), BEncodedType::Integer(2), BEncodedType::Integer(3)],
    );
    assert_eq!(parse_list(b"li1ei2ei3ee"), Ok(expected));
}

#[test]
fn spam_string() {
    assert_eq!(parse_primitive(b"4:spam"), Ok((&b""[..], BEncodedType::String(b"spam"))));
}

#[test]
fn small_integers() {
    assert_eq!(parse_primitive(b"i3e"), Ok((&b""[..], BEncodedType::Integer(3))));
    assert_eq!(parse_primitive(b"i-3e"), Ok((&b""[..], BEncodedType::Integer(-3))));
}

#[test]
fn list_of_strings() {
    let expected = BEncodedType::List(vec![BEncodedType::String(b"spam"), BEncodedType::String(b"eggs")]);
    assert_eq!(parse_primitive(b"l4:spam4:eggse"), Ok((&b""[..], expected)));
}

#[test]
fn cow_dictionary() {
    let v = value_of(b"d3:cow3:moo4:spam4:eggse");
    let expected = BEncodedType::Dictionary(vec![
        (b"cow", BEncodedType::String(b"moo")),
        (b"spam", BEncodedType::String(b"eggs")),
    ]);
    assert_eq!(v, expected);
    assert_eq!(v.dict_get("cow"), Ok(&BEncodedType::String(b"moo")));
}

#[test]
fn cat_keys_and_text() {
    let v = value_of(b"d3:cati9ee");
    assert_eq!(v.dict_keys(), Ok(vec![&b"cat"[..]]));
    let cat = v.dict_get("cat").unwrap();
    assert_eq!(cat.as_str(), Err(AccessError::TypeMismatch));
}

#[test]
fn dict_keys_on_other_kinds() {
    assert_eq!(value_of(b"li1ee").dict_keys(), Err(AccessError::TypeMismatch));
    assert_eq!(value_of(b"de").dict_keys(), Ok(vec![]));
}

#[test]
fn as_str_checks_utf8() {
    assert_eq!(value_of(b"5:hello").as_str(), Ok("hello"));
    assert_eq!(value_of(b"4:\xc3\xa9t\xc3").as_str(), Err(AccessError::InvalidText));
    assert_eq!(value_of(b"3:\xc3\xa9t").as_str(), Ok("\u{e9}t"));
    assert_eq!(value_of(b"i1e").as_str(), Err(AccessError::TypeMismatch));
}

#[test]
fn unknown_lead_byte_is_soft() {
    assert_eq!(parse_primitive(b"x"), Err(ParseError::Error(b"x", ErrorKind::Tag)));
    assert_eq!(parse_primitive(b""), Err(ParseError::Error(b"", ErrorKind::Eof)));
}

#[test]
fn unterminated_containers_fail_hard() {
    assert_eq!(parse_primitive(b"li1e"), Err(ParseError::Failure(b"", ErrorKind::Eof)));
    assert_eq!(parse_primitive(b"lxe"), Err(ParseError::Failure(b"xe", ErrorKind::Tag)));
    assert_eq!(parse_primitive(b"d3:cow"), Err(ParseError::Failure(b"", ErrorKind::Eof)));
}

#[test]
fn nesting_is_bounded() {
    let mut ok = vec![b'l'; MAX_DEPTH];
    ok.extend(vec![b'e'; MAX_DEPTH]);
    assert!(decode(&ok).is_ok());
    let mut deep = vec![b'l'; MAX_DEPTH + 1];
    deep.extend(vec![b'e'; MAX_DEPTH + 1]);
    assert!(matches!(decode(&deep), Err(ParseError::Failure(_, ErrorKind::TooDeep))));
}

#[test]
fn digits_read_with_cap() {
    assert_eq!(from_digit(b"1234", 5000), Some(1234));
    assert_eq!(from_digit(b"1234", 1000), None);
    assert_eq!(from_digit(b"", 0), Some(0));
}

#[test]
fn metadata_fields() {
    let buf = b"d8:announce14:http://tracker4:infod4:name5:hello12:piece lengthi16eee";
    let m = Metadata::parse(buf).unwrap();
    assert_eq!(m.announce, "http://tracker");
    assert_eq!(m.name, "hello");
    assert_eq!(m.be.type_str(), "dictionary");
}

#[test]
fn metadata_errors() {
    assert!(matches!(Metadata::parse(b"d4:infodee"), Err(MetadataError::Access(AccessError::KeyNotFound))));
    assert!(matches!(
        Metadata::parse(b"d8:announcei1e4:infodee"),
        Err(MetadataError::Access(AccessError::TypeMismatch))
    ));
    assert!(matches!(Metadata::parse(b"i1"), Err(MetadataError::Parse(ParseError::Failure(_, ErrorKind::Tag)))));
}
