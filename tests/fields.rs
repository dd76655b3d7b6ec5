use torrent_core::bencode::{encode, BencodeValue};
use torrent_core::decode::{bencode_dict_insert, decode};
use torrent_core::fields::{
    bencode_string_unwrap_bytes, bencode_string_unwrap_string, bencode_unwrap_number, get_field,
    maybe_get_field, opt_int_field, opt_text_field, FieldError,
};

fn sample() -> Vec<(Vec<u8>, BencodeValue)> {
    match decode(b"d1:ai7e1:b3:xyz1:c2:\xff\xfee").unwrap() {
        BencodeValue::Dict(m) => m,
        other => panic!("not a dictionary: {:?}", other),
    }
}

#[test]
fn field_lookup() {
    let m = sample();
    assert_eq!(maybe_get_field(&m, b"a"), Some(&BencodeValue::Integer(7)));
    assert_eq!(maybe_get_field(&m, b"z"), None);
    assert_eq!(get_field(&m, b"z"), Err(FieldError::Missing));
    assert_eq!(get_field(&m, b"b"), Ok(&BencodeValue::ByteString(b"xyz".to_vec())));
}

#[test]
fn field_shapes() {
    let m = sample();
    let a = get_field(&m, b"a").unwrap();
    let b = get_field(&m, b"b").unwrap();
    let c = get_field(&m, b"c").unwrap();
    assert_eq!(bencode_unwrap_number(a), Ok(7));
    assert_eq!(bencode_unwrap_number(b), Err(FieldError::WrongType));
    assert_eq!(bencode_string_unwrap_bytes(b), Ok(b"xyz".to_vec()));
    assert_eq!(bencode_string_unwrap_bytes(a), Err(FieldError::WrongType));
    assert_eq!(bencode_string_unwrap_string(b), Ok(String::from("xyz")));
    assert_eq!(bencode_string_unwrap_string(c), Err(FieldError::WrongType));
    assert_eq!(opt_int_field(&m, b"a"), Ok(Some(7)));
    assert_eq!(opt_int_field(&m, b"q"), Ok(None));
    assert_eq!(opt_text_field(&m, b"b"), Ok(Some(String::from("xyz"))));
    assert_eq!(opt_text_field(&m, b"a"), Err(FieldError::WrongType));
}

#[test]
fn dict_insert_keeps_key_order() {
    let mut m: Vec<(Vec<u8>, BencodeValue)> = Vec::new();
    assert_eq!(bencode_dict_insert(&mut m, b"m".to_vec(), BencodeValue::Integer(1)), None);
    assert_eq!(bencode_dict_insert(&mut m, b"c".to_vec(), BencodeValue::Integer(2)), None);
    assert_eq!(bencode_dict_insert(&mut m, b"x".to_vec(), BencodeValue::Integer(3)), None);
    assert_eq!(
        bencode_dict_insert(&mut m, b"c".to_vec(), BencodeValue::Integer(4)),
        Some(BencodeValue::Integer(2))
    );
    let keys: Vec<&[u8]> = m.iter().map(|(k, _)| k.as_slice()).collect();
    assert_eq!(keys, vec![&b"c"[..], &b"m"[..], &b"x"[..]]);
    assert_eq!(encode(&BencodeValue::Dict(m)), b"d1:ci4e1:mi1e1:xi3ee".to_vec());
}
