use bencoding::decode;
use bencoding::encode;
use bencoding::BencodeType;
use bencoding::Dictionary;

#[test]
fn encode_decode_round_trip() {
    let mut map = Dictionary::new();
    map.insert(b"key".to_vec(), BencodeType::Integer(123));

    let encoded = encode(&map);
    let decoded = decode(&encoded).unwrap();

    let original = BencodeType::Dictionary(map);
    assert_eq!(original, decoded);
}

#[test]
fn decode_encode_round_trip() {
    let original = b"d3:keyi123ee".to_vec();
    let decoded = decode(&original).unwrap();
    let re_encoded = encode(&decoded);

    assert_eq!(original, re_encoded);
}

#[test]
fn decode_encode_compound() {
    let original = b"d4:spaml1:a1:bee".to_vec();
    let decoded = decode(&original).unwrap();
    let re_encoded = encode(&decoded);

    assert_eq!(original, re_encoded);
}

#[test]
fn encode_decode_every_kind() {
    let mut inner = Dictionary::new();
    inner.insert(b"".to_vec(), BencodeType::List(vec![]));
    inner.insert(b"neg".to_vec(), BencodeType::Integer(-42));
    let value = BencodeType::List(vec![
        BencodeType::ByteString(b"".to_vec()),
        BencodeType::Integer(i64::MIN),
        BencodeType::Integer(i64::MAX),
        BencodeType::Dictionary(inner),
        BencodeType::Dictionary(Dictionary::new()),
    ]);
    let encoded = encode(&value);
    let decoded = decode(&encoded).unwrap();
    assert_eq!(value, decoded);
}
