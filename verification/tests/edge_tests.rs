use bencoding::decode;
use bencoding::encode;
use bencoding::BencodeType;
use bencoding::DecodeError;
use bencoding::Dictionary;

#[test]
fn integer_zero_round_trip() {
    let input = b"i0e".to_vec();
    let decoded = decode(&input).unwrap();
    assert_eq!(decoded, BencodeType::Integer(0));
    assert_eq!(encode(&decoded), input);
}

#[test]
fn integer_negative_round_trip() {
    let input = b"i-3e".to_vec();
    let decoded = decode(&input).unwrap();
    assert_eq!(decoded, BencodeType::Integer(-3));
    assert_eq!(encode(&decoded), input);
}

#[test]
fn integer_negative_zero_rejected() {
    let input = b"i-0e".to_vec();
    assert_eq!(decode(&input), Err(DecodeError::InvalidInteger));
}

#[test]
fn integer_leading_zero_rejected() {
    let input = b"i03e".to_vec();
    assert_eq!(decode(&input), Err(DecodeError::InvalidInteger));
}

#[test]
fn integer_width_limits() {
    let max = b"i9223372036854775807e".to_vec();
    assert_eq!(decode(&max), Ok(BencodeType::Integer(i64::MAX)));
    let min = b"i-9223372036854775808e".to_vec();
    assert_eq!(decode(&min), Ok(BencodeType::Integer(i64::MIN)));
    let over = b"i9223372036854775808e".to_vec();
    assert_eq!(decode(&over), Err(DecodeError::InvalidInteger));
    let under = b"i-9223372036854775809e".to_vec();
    assert_eq!(decode(&under), Err(DecodeError::InvalidInteger));
}

#[test]
fn integer_non_digit_rejected() {
    let input = b"iabce".to_vec();
    assert_eq!(decode(&input), Err(DecodeError::InvalidInteger));
    let empty = b"ie".to_vec();
    assert_eq!(decode(&empty), Err(DecodeError::InvalidInteger));
}

#[test]
fn bytestring_empty_round_trip() {
    let input = b"0:".to_vec();
    let decoded = decode(&input).unwrap();
    assert_eq!(decoded, BencodeType::ByteString(b"".to_vec()));
    assert_eq!(encode(&decoded), input);
}

#[test]
fn bytestring_spam_round_trip() {
    let input = b"4:spam".to_vec();
    let decoded = decode(&input).unwrap();
    assert_eq!(decoded, BencodeType::ByteString(b"spam".to_vec()));
    assert_eq!(encode(&decoded), input);
}

#[test]
fn bytestring_length_overruns_buffer() {
    let input = b"10:spam".to_vec();
    assert_eq!(decode(&input), Err(DecodeError::UnexpectedEndOfInput));
    let huge = b"99999999999999999999999999:x".to_vec();
    assert_eq!(decode(&huge), Err(DecodeError::UnexpectedEndOfInput));
}

#[test]
fn containers_empty() {
    let list = b"le".to_vec();
    assert_eq!(decode(&list), Ok(BencodeType::List(vec![])));
    let dict = b"de".to_vec();
    assert_eq!(decode(&dict), Ok(BencodeType::Dictionary(Dictionary::new())));
}

#[test]
fn nested_structure_round_trip() {
    let input = b"d4:spaml1:a1:bee".to_vec();
    let decoded = decode(&input).unwrap();
    let mut expected = Dictionary::new();
    expected.insert(
        b"spam".to_vec(),
        BencodeType::List(vec![
            BencodeType::ByteString(b"a".to_vec()),
            BencodeType::ByteString(b"b".to_vec()),
        ]),
    );
    assert_eq!(decoded, BencodeType::Dictionary(expected));
    assert_eq!(encode(&decoded), input);
}

#[test]
fn dictionary_insertion_order_is_canonicalized() {
    let mut forward = Dictionary::new();
    forward.insert(b"spam".to_vec(), BencodeType::ByteString(b"eggs".to_vec()));
    forward.insert(b"cow".to_vec(), BencodeType::ByteString(b"moo".to_vec()));

    let mut backward = Dictionary::new();
    backward.insert(b"cow".to_vec(), BencodeType::ByteString(b"moo".to_vec()));
    backward.insert(b"spam".to_vec(), BencodeType::ByteString(b"eggs".to_vec()));

    let a = encode(&forward);
    let b = encode(&backward);
    assert_eq!(a, b"d3:cow3:moo4:spam4:eggse".to_vec());
    assert_eq!(a, b);
}

#[test]
fn dictionary_duplicate_key_last_wins() {
    let input = b"d3:keyi1e3:keyi2ee".to_vec();
    let decoded = decode(&input).unwrap();
    let mut expected = Dictionary::new();
    expected.insert(b"key".to_vec(), BencodeType::Integer(2));
    assert_eq!(decoded, BencodeType::Dictionary(expected));
}

#[test]
fn truncation_fails_with_end_of_input() {
    let full = b"d3:cow3:moo4:spaml4:eggsi-37eee".to_vec();
    assert!(decode(&full).is_ok());
    for cut in 0..full.len() {
        let prefix = full[..cut].to_vec();
        assert_eq!(
            decode(&prefix),
            Err(DecodeError::UnexpectedEndOfInput),
            "prefix of length {cut}"
        );
    }
}

#[test]
fn truncated_integer_fails() {
    let input = b"i3".to_vec();
    assert_eq!(decode(&input), Err(DecodeError::UnexpectedEndOfInput));
}

#[test]
fn truncated_bytestring_fails() {
    let input = b"4:spa".to_vec();
    assert_eq!(decode(&input), Err(DecodeError::UnexpectedEndOfInput));
}

#[test]
fn malformed_lookahead_fails() {
    let input = b"x3:abc".to_vec();
    assert_eq!(decode(&input), Err(DecodeError::UnexpectedCharacter(b'x')));
    let colon = b":abc".to_vec();
    assert_eq!(decode(&colon), Err(DecodeError::UnexpectedCharacter(b':')));
}

#[test]
fn empty_buffer_fails() {
    let input: Vec<u8> = Vec::new();
    assert_eq!(decode(&input), Err(DecodeError::UnexpectedEndOfInput));
}

#[test]
fn decimal_lengths_multi_digit() {
    let input = b"12:abcdefghijkl".to_vec();
    let decoded = decode(&input).unwrap();
    assert_eq!(decoded, BencodeType::ByteString(b"abcdefghijkl".to_vec()));
    assert_eq!(encode(&decoded), input);
}

#[test]
fn non_canonical_length_still_decodes() {
    let input = b"04:spam".to_vec();
    let decoded = decode(&input).unwrap();
    assert_eq!(decoded, BencodeType::ByteString(b"spam".to_vec()));
    assert_eq!(encode(&decoded), b"4:spam".to_vec());
}

#[test]
fn unsorted_dictionary_input_is_canonicalized() {
    let input = b"d4:spam4:eggs3:cow3:mooe".to_vec();
    let decoded = decode(&input).unwrap();
    assert_eq!(encode(&decoded), b"d3:cow3:moo4:spam4:eggse".to_vec());
}

#[test]
fn arbitrary_bytes_in_strings() {
    let value = BencodeType::ByteString(vec![0u8, 255u8, 10u8, 101u8, 58u8]);
    let encoded = encode(&value);
    assert_eq!(encoded, vec![b'5', b':', 0u8, 255u8, 10u8, 101u8, 58u8]);
    let decoded = decode(&encoded).unwrap();
    assert_eq!(decoded, value);
}
