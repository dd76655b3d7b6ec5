use torrent_core::bencode::{encode, BencodeValue};
use torrent_core::decode::{compare_bytes, decode, DecodeError};

fn bytes(s: &str) -> BencodeValue {
    BencodeValue::ByteString(s.as_bytes().to_vec())
}

fn dict(entries: Vec<(&str, BencodeValue)>) -> BencodeValue {
    BencodeValue::Dict(entries.into_iter().map(|(k, v)| (k.as_bytes().to_vec(), v)).collect())
}

#[test]
fn encodes_each_kind() {
    assert_eq!(encode(&BencodeValue::Integer(42)), b"i42e".to_vec());
    assert_eq!(encode(&BencodeValue::Integer(-7)), b"i-7e".to_vec());
    assert_eq!(encode(&BencodeValue::Integer(0)), b"i0e".to_vec());
    assert_eq!(encode(&bytes("spam")), b"4:spam".to_vec());
    assert_eq!(encode(&bytes("")), b"0:".to_vec());
    let l = BencodeValue::List(vec![bytes("a"), BencodeValue::Integer(1)]);
    assert_eq!(encode(&l), b"l1:ai1ee".to_vec());
    let d = dict(vec![("a", BencodeValue::Integer(1)), ("b", bytes("x"))]);
    assert_eq!(encode(&d), b"d1:ai1e1:b1:xe".to_vec());
}

#[test]
fn encodes_extreme_integers() {
    assert_eq!(encode(&BencodeValue::Integer(i64::MIN)), b"i-9223372036854775808e".to_vec());
    assert_eq!(encode(&BencodeValue::Integer(i64::MAX)), b"i9223372036854775807e".to_vec());
    assert_eq!(decode(b"i-9223372036854775808e"), Ok(BencodeValue::Integer(i64::MIN)));
    assert_eq!(decode(b"i9223372036854775808e"), Err(DecodeError::MalformedInteger));
}

#[test]
fn decode_of_encode_round_trips() {
    let v = dict(vec![
        ("announce", bytes("http://tracker.test/")),
        ("info", dict(vec![
            ("files", BencodeValue::List(vec![dict(vec![
                ("length", BencodeValue::Integer(3)),
                ("path", BencodeValue::List(vec![bytes("d"), bytes("f.txt")])),
            ])])),
            ("name", bytes("dir")),
        ])),
        ("n", BencodeValue::Integer(-12)),
    ]);
    let e = encode(&v);
    assert_eq!(decode(&e), Ok(v));
}

#[test]
fn decode_sorts_dictionary_keys() {
    let v = decode(b"d1:bi2e1:ai1ee").unwrap();
    assert_eq!(v, dict(vec![("a", BencodeValue::Integer(1)), ("b", BencodeValue::Integer(2))]));
    assert_eq!(encode(&v), b"d1:ai1e1:bi2ee".to_vec());
}

#[test]
fn decode_reports_each_error_kind() {
    assert_eq!(decode(b""), Err(DecodeError::Truncated));
    assert_eq!(decode(b"5:ab"), Err(DecodeError::Truncated));
    assert_eq!(decode(b"i12"), Err(DecodeError::Truncated));
    assert_eq!(decode(b"3x abc"), Err(DecodeError::MalformedLength));
    assert_eq!(decode(b"i03e"), Err(DecodeError::MalformedInteger));
    assert_eq!(decode(b"i-0e"), Err(DecodeError::MalformedInteger));
    assert_eq!(decode(b"ie"), Err(DecodeError::MalformedInteger));
    assert_eq!(decode(b"i1x2e"), Err(DecodeError::MalformedInteger));
    assert_eq!(decode(b"di1ei2ee"), Err(DecodeError::NonStringKey));
    assert_eq!(decode(b"l1:a"), Err(DecodeError::UnterminatedContainer));
    assert_eq!(decode(b"d1:ai1e"), Err(DecodeError::UnterminatedContainer));
    assert_eq!(decode(b"d1:ai1e1:ai2ee"), Err(DecodeError::DuplicateKey));
    assert_eq!(decode(b"x"), Err(DecodeError::UnexpectedByte));
    assert_eq!(decode(b"i1ei2e"), Err(DecodeError::TrailingData));
}

#[test]
fn nested_empty_containers() {
    assert_eq!(decode(b"le"), Ok(BencodeValue::List(vec![])));
    assert_eq!(decode(b"de"), Ok(BencodeValue::Dict(vec![])));
    let v = decode(b"lldeee").unwrap();
    assert_eq!(encode(&v), b"lldeee".to_vec());
}

#[test]
fn byte_order_of_keys() {
    assert!(compare_bytes(b"a", b"b") < 0);
    assert!(compare_bytes(b"ab", b"a") > 0);
    assert_eq!(compare_bytes(b"same", b"same"), 0);
    assert!(compare_bytes(b"", b"a") < 0);
    assert!(compare_bytes(&[0xff], &[0x01, 0x02]) > 0);
}

#[test]
fn matches_the_bencode_crate() {
    let input: &[u8] = b"d8:announce3:url4:infod6:lengthi10e4:name5:a.txtee";
    let ours = decode(input).unwrap();
    let theirs = bencode::from_buffer(input).unwrap();
    assert_eq!(encode(&ours), theirs.to_bytes().unwrap());
    let unsorted: &[u8] = b"d1:zi1e1:ai2ee";
    let theirs = bencode::from_buffer(unsorted).unwrap();
    assert_eq!(encode(&decode(unsorted).unwrap()), theirs.to_bytes().unwrap());
}

#[test]
fn nesting_limit() {
    let mut ok = vec![b'l'; 512];
    ok.extend(vec![b'e'; 512]);
    assert_eq!(encode(&decode(&ok).unwrap()), ok);
    let mut deep = vec![b'l'; 513];
    deep.extend(vec![b'e'; 513]);
    assert_eq!(decode(&deep), Err(DecodeError::TooDeep));
    let hostile = vec![b'l'; 1_000_000];
    assert_eq!(decode(&hostile), Err(DecodeError::TooDeep));
}
