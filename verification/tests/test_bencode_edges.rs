use rtorrent::bencode_parser::{parse, BencodeValue};
use rtorrent::utils::encode;
use rtorrent::errors::{AppError, BencodeError};

fn err(e: BencodeError) -> Result<BencodeValue, AppError> {
    Err(AppError::Bencode(e))
}

#[test]
fn integer_errors() {
    assert_eq!(parse(b"ie"), err(BencodeError::IntegerEmpty));
    assert_eq!(parse(b"i-e"), err(BencodeError::InvalidIntegerFormat));
    assert_eq!(parse(b"i1x2e"), err(BencodeError::InvalidIntegerFormat));
    assert_eq!(parse(b"i-0e"), err(BencodeError::IntegerLeadingZero));
    assert_eq!(parse(b"i00e"), err(BencodeError::IntegerLeadingZero));
    assert_eq!(parse(b"i42"), err(BencodeError::UnexpectedEof));
    assert_eq!(parse(b"i9223372036854775808e"), err(BencodeError::InvalidIntegerFormat));
}

#[test]
fn integer_limits_and_signs() {
    assert_eq!(
        parse(b"i-9223372036854775808e"),
        Ok(BencodeValue::Integer(i64::MIN))
    );
    assert_eq!(parse(b"i9223372036854775807e"), Ok(BencodeValue::Integer(i64::MAX)));
    assert_eq!(parse(b"i+5e"), Ok(BencodeValue::Integer(5)));
}

#[test]
fn string_errors() {
    assert_eq!(parse(b"5hello"), err(BencodeError::StringMissingColon));
    assert_eq!(parse(b"5x:hello"), err(BencodeError::StringInvalidLength));
    assert_eq!(parse(b"5:hi"), err(BencodeError::UnexpectedEof));
    assert_eq!(parse(b"99999999999999999999:a"), err(BencodeError::StringInvalidLength));
    assert_eq!(parse(b"05:hello"), Ok(BencodeValue::String(b"hello".to_vec())));
    assert_eq!(parse(b"0:"), Ok(BencodeValue::String(vec![])));
}

#[test]
fn structure_errors() {
    assert_eq!(parse(b""), err(BencodeError::UnexpectedEof));
    assert_eq!(parse(b"x"), err(BencodeError::InvalidType));
    assert_eq!(parse(b"l"), err(BencodeError::UnexpectedEof));
    assert_eq!(parse(b"li1e"), err(BencodeError::UnexpectedEof));
    assert_eq!(parse(b"d1:a"), err(BencodeError::UnexpectedEof));
    assert_eq!(parse(b"d1:ai1e1:ai2ee"), err(BencodeError::DictKeysNotSorted));
    assert_eq!(parse(b"di1ei2ee"), err(BencodeError::StringMissingColon));
    assert_eq!(parse(b"d1x:ai1ee"), err(BencodeError::StringInvalidLength));
    assert_eq!(parse(b"lei0e"), err(BencodeError::TrailingData));
}

#[test]
fn dictionary_keys_are_read_as_strings() {
    assert_eq!(
        parse(b"d+1:ai1ee"),
        Ok(BencodeValue::Dictionary(vec![(b"a".to_vec(), BencodeValue::Integer(1))]))
    );
    assert_eq!(
        parse(b"d1:ad1:bleee"),
        Ok(BencodeValue::Dictionary(vec![(
            b"a".to_vec(),
            BencodeValue::Dictionary(vec![(b"b".to_vec(), BencodeValue::List(vec![]))])
        )]))
    );
}

#[test]
fn bytes_after_an_encoding_are_trailing_data() {
    let v = BencodeValue::List(vec![BencodeValue::Integer(3), BencodeValue::String(b"ab".to_vec())]);
    let mut bytes = encode(&v);
    bytes.extend_from_slice(b"x");
    assert_eq!(parse(&bytes), err(BencodeError::TrailingData));
}

#[test]
fn keys_that_do_not_increase_are_refused() {
    for (k1, k2) in [(&b"b"[..], &b"a"[..]), (&b"a"[..], &b"a"[..]), (&b"ab"[..], &b"a"[..])] {
        let mut bytes = b"d".to_vec();
        bytes.extend(encode(&BencodeValue::String(k1.to_vec())));
        bytes.extend(encode(&BencodeValue::Integer(1)));
        bytes.extend(encode(&BencodeValue::String(k2.to_vec())));
        bytes.extend(encode(&BencodeValue::List(vec![])));
        bytes.push(b'e');
        assert_eq!(parse(&bytes), err(BencodeError::DictKeysNotSorted));
    }
}

#[test]
fn canonical_input_is_written_back_unchanged() {
    for input in [&b"d1:ai-12e1:bl0:i0eee"[..], &b"3:abc"[..], &b"i0e"[..], &b"le"[..]] {
        assert_eq!(encode(&parse(input).unwrap()), input.to_vec());
    }
    assert_eq!(encode(&parse(b"i+5e").unwrap()), b"i5e".to_vec());
    assert_eq!(encode(&parse(b"03:abc").unwrap()), b"3:abc".to_vec());
}
