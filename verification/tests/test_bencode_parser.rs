use rtorrent::bencode_parser::{parse, BencodeValue};

#[test]
fn test_simple_string() {
    assert_eq!(parse(b"5:hello"), Ok(BencodeValue::String(b"hello".to_vec())));
}

#[test]
fn test_simple_integer() {
    assert_eq!(parse(b"i42e"), Ok(BencodeValue::Integer(42)));
    assert_eq!(parse(b"i-42e"), Ok(BencodeValue::Integer(-42)));
    assert_eq!(parse(b"i0e"), Ok(BencodeValue::Integer(0)));
}

#[test]
fn test_integer_leading_zero_error() {
    assert!(parse(b"i01e").is_err());
}

#[test]
fn test_simple_list() {
    assert_eq!(
        parse(b"l5:helloi42ee"),
        Ok(BencodeValue::List(vec![
            BencodeValue::String(b"hello".to_vec()),
            BencodeValue::Integer(42)
        ]))
    );
}

#[test]
fn test_simple_dictionary() {
    let expected_dict = vec![
        (b"foo".to_vec(), BencodeValue::String(b"bar".to_vec())),
        (b"key".to_vec(), BencodeValue::Integer(123)),
    ];

    assert_eq!(
        parse(b"d3:foo3:bar3:keyi123ee"),
        Ok(BencodeValue::Dictionary(expected_dict))
    );
}

#[test]
fn test_unsorted_dictionary_keys_error() {
    // 'z' comes after 'a'
    assert!(parse(b"d1:z1:a1:a1:be").is_err());
}

#[test]
fn test_trailing_data_error() {
    assert!(parse(b"i42ee").is_err());
}
