use bencoding::BencodeType;
use bencoding::Dictionary;
use bencoding::Encodable;

#[test]
fn bytestring_encode() {
    let input = BencodeType::ByteString(b"spam".to_vec());
    let result = input.encode();
    assert_eq!(result, b"4:spam".to_vec());
}

#[test]
fn bytestring_encode_empty() {
    let input = BencodeType::ByteString(b"".to_vec());
    let result = input.encode();
    assert_eq!(result, b"0:".to_vec());
}

#[test]
fn integer_positive() {
    let input = BencodeType::Integer(3);
    let result = input.encode();
    assert_eq!(result, b"i3e".to_vec());
}

#[test]
fn integer_negative() {
    let input = BencodeType::Integer(-3);
    let result = input.encode();
    assert_eq!(result, b"i-3e".to_vec());
}

#[test]
fn integer_zero() {
    let input = BencodeType::Integer(0);
    let result = input.encode();
    assert_eq!(result, b"i0e".to_vec());
}

#[test]
fn list_encode() {
    let input = BencodeType::List(vec![
        BencodeType::ByteString(b"spam".to_vec()),
        BencodeType::ByteString(b"eggs".to_vec()),
    ]);
    let result = input.encode();
    assert_eq!(result, b"l4:spam4:eggse".to_vec());
}

#[test]
fn list_encode_empty() {
    let input = BencodeType::List(vec![]);
    let result = input.encode();
    assert_eq!(result, b"le".to_vec());
}

#[test]
fn encode_dictionary_simple() {
    let mut dict = Dictionary::new();
    dict.insert(b"cow".to_vec(), BencodeType::ByteString(b"moo".to_vec()));
    dict.insert(b"spam".to_vec(), BencodeType::ByteString(b"eggs".to_vec()));
    let input = BencodeType::Dictionary(dict);
    let result = input.encode();
    assert_eq!(result, b"d3:cow3:moo4:spam4:eggse".to_vec());
}

#[test]
fn encode_dictionary_with_list() {
    let mut dict = Dictionary::new();
    dict.insert(
        b"spam".to_vec(),
        BencodeType::List(vec![
            BencodeType::ByteString(b"a".to_vec()),
            BencodeType::ByteString(b"b".to_vec()),
        ]),
    );
    let input = BencodeType::Dictionary(dict);
    let result = input.encode();
    assert_eq!(result, b"d4:spaml1:a1:bee".to_vec());
}

#[test]
fn encode_dictionary_complex() {
    let mut dict = Dictionary::new();
    dict.insert(
        b"publisher".to_vec(),
        BencodeType::ByteString(b"bob".to_vec()),
    );
    dict.insert(
        b"publisher-webpage".to_vec(),
        BencodeType::ByteString(b"www.example.com".to_vec()),
    );
    dict.insert(
        b"publisher.location".to_vec(),
        BencodeType::ByteString(b"home".to_vec()),
    );
    let input = BencodeType::Dictionary(dict);
    let result = input.encode();
    assert_eq!(
        result,
        b"d9:publisher3:bob17:publisher-webpage15:www.example.com18:publisher.location4:homee"
            .to_vec()
    );
}

#[test]
fn encode_empty_dictionary() {
    let input = BencodeType::Dictionary(Dictionary::new());
    let result = input.encode();
    assert_eq!(result, b"de".to_vec());
}
