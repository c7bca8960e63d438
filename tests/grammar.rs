use bencode::parser::{parse_dictionary, parse_int, parse_list, parse_primitive, parse_str, ErrorKind, ParseError};
use bencode::value::BEncodedType;

#[test]
fn string() {
    let buf = b"6:foobar";
    let expected: (&[u8], BEncodedType) = (b"", BEncodedType::String(b"foobar"));
    assert_eq!(parse_primitive(buf), Ok(expected));
}

#[test]
fn integer() {
    let buf = b"i13e";
    let expected: (&[u8], BEncodedType) = (b"", BEncodedType::Integer(13));
    assert_eq!(parse_primitive(buf), Ok(expected));
}

#[test]
fn list() {
    let buf = b"li14ee";
    let expected: (&[u8], BEncodedType) = (b"", BEncodedType::List(vec![BEncodedType::Integer(14)]));
    assert_eq!(parse_primitive(buf), Ok(expected))
}

#[test]
fn dictionary() {
    let buf = b"d5:carvei55e7:deutschi4ee";
    let expected: Vec<(&[u8], BEncodedType)> = vec![
        (b"carve", BEncodedType::Integer(55)),
        (b"deutsch", BEncodedType::Integer(4)),
    ];
    let expected_wrapper: (&[u8], BEncodedType) = (b"", BEncodedType::Dictionary(expected));
    assert_eq!(parse_primitive(buf), Ok(expected_wrapper));
}

#[test]
fn single_entry() {
    let buf = b"d6:foobari9ee";
    let expected: Vec<(&[u8], BEncodedType)> = vec![(b"foobar", BEncodedType::Integer(9))];
    let expected_wrapper: (&[u8], _) = (b"", expected);
    assert_eq!(parse_dictionary(buf), Ok(expected_wrapper))
}

#[test]
fn multiple_entries() {
    let buf = b"d3:cat3:doge";
    let expected: Vec<(&[u8], BEncodedType)> = vec![(b"cat", BEncodedType::String(b"dog"))];
    let expected_wrapper: (&[u8], _) = (b"", expected);
    assert_eq!(parse_dictionary(buf), Ok(expected_wrapper));
}

#[test]
fn zero_entries() {
    let buf = b"de";
    let expected: Vec<(&[u8], BEncodedType)> = Vec::new();
    let expected_wrapper: (&[u8], _) = (b"", expected);
    assert_eq!(parse_dictionary(buf), Ok(expected_wrapper));
}

#[test]
fn list_value() {
    let buf = b"d5:hoshil5:uuchi6:jigokuee";
    let expected: Vec<(&[u8], BEncodedType)> = vec![(
        b"hoshi",
        BEncodedType::List(vec![BEncodedType::String(b"uuchi"), BEncodedType::String(b"jigoku")]),
    )];
    let expected_wrapper: (&[u8], _) = (b"", expected);
    assert_eq!(parse_dictionary(buf), Ok(expected_wrapper))
}

#[test]
fn non_string_key() {
    let buf = b"di12ei99ee";
    assert_eq!(parse_dictionary(buf), Err(ParseError::Failure(b"i12ei99ee", ErrorKind::Tag)));
}

#[test]
fn multiple_integers() {
    let buf = b"li12ei-17ee";
    let expected: (&[u8], _) = (b"", vec![BEncodedType::Integer(12), BEncodedType::Integer(-17)]);
    assert_eq!(parse_list(buf), Ok(expected));
}

#[test]
fn empty_list() {
    let buf = b"le";
    let expected: (&[u8], _) = (b"", vec![]);
    assert_eq!(parse_list(buf), Ok(expected));
}

#[test]
fn hybrid_list() {
    let buf = b"li18e5:helloe";
    let expected: (&[u8], _) = (b"", vec![BEncodedType::Integer(18), BEncodedType::String(b"hello")]);
    assert_eq!(parse_list(buf), Ok(expected));
}

#[test]
fn nested_list() {
    let buf = b"li12el4:fizz4:buzze3:baze";
    let expected = vec![
        BEncodedType::Integer(12),
        BEncodedType::List(vec![BEncodedType::String(b"fizz"), BEncodedType::String(b"buzz")]),
        BEncodedType::String(b"baz"),
    ];
    let expected_wrapper: (&[u8], _) = (b"", expected);
    assert_eq!(parse_list(buf), Ok(expected_wrapper));
}

#[test]
fn parses_integer() {
    let buf = b"i45e";
    let expected: (&[u8], _) = (b"", 45);
    assert_eq!(parse_int(buf), Ok(expected));
}

#[test]
fn doesnt_parse_badly_identified_integer() {
    let buf: &[u8] = b"55e";
    assert_eq!(parse_int(buf), Err(ParseError::Error(buf, ErrorKind::Tag)));
}

#[test]
fn doesnt_parse_zero_padded_integer() {
    let buf = b"i032e";
    assert_eq!(parse_int(buf), Err(ParseError::Failure(b"032e", ErrorKind::OneOf)));
}

#[test]
fn parses_negative_number() {
    let buf = b"i-42e";
    let expected: (&[u8], _) = (b"", -42);
    assert_eq!(parse_int(buf), Ok(expected));
}

#[test]
fn parses_string() {
    let buf = b"3:foo";
    let expected: (&[u8], &[u8]) = (b"", b"foo");
    assert_eq!(parse_str(buf), Ok(expected));
}

#[test]
fn fails_on_non_string() {
    let buf = b"i32";
    assert_eq!(parse_str(buf), Err(ParseError::Error(b"i32", ErrorKind::Digit)));
}

#[test]
fn fails_on_short_string() {
    let buf = b"23:foobar";
    assert_eq!(parse_str(buf), Err(ParseError::Failure(b"foobar", ErrorKind::Eof)));
}
