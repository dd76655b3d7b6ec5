use torrent_core::decode::DecodeError;
use torrent_core::metainfo::{load, Field, InfoDictionary, ParseError};

const PIECES: &[u8; 20] = b"0123456789abcdefghij";

fn minimal() -> Vec<u8> {
    let mut b = b"d8:announce20:http://tracker.test/4:infod6:lengthi10e4:name5:a.txt12:piece lengthi10e6:pieces20:".to_vec();
    b.extend_from_slice(PIECES);
    b.extend_from_slice(b"ee");
    b
}

#[test]
fn known_vector_single_file() {
    let bytes = minimal();
    let m = load(&bytes).unwrap();
    assert_eq!(m.announce, "http://tracker.test/");
    assert_eq!(m.num_file_bytes(), 10);
    match &m.info {
        InfoDictionary::SingleFile(s) => {
            assert_eq!(s.length, 10);
            assert_eq!(s.piece_length, 10);
            assert_eq!(s.name, "a.txt");
            assert_eq!(&s.pieces[..], &PIECES[..]);
            assert_eq!(s.md5sum, None);
        }
        other => panic!("expected a single file: {:?}", other),
    }
    let start = bytes.windows(5).position(|w| w == b"4:inf").unwrap() + 6;
    let info_bytes = &bytes[start..bytes.len() - 1];
    assert_eq!(m.info_hash, openssl::sha::sha1(info_bytes));
    assert_eq!(m.creation_date, None);
    assert_eq!(m.created_by, None);
    assert_eq!(m.encoding, None);
}

#[test]
fn info_hash_uses_canonical_order() {
    let mut a = b"d8:announce1:u4:infod4:name1:n12:piece lengthi1e6:pieces0:6:lengthi4eee".to_vec();
    let m1 = load(&a).unwrap();
    a = b"d8:announce1:u4:infod6:lengthi4e4:name1:n12:piece lengthi1e6:pieces0:ee".to_vec();
    let m2 = load(&a).unwrap();
    assert_eq!(m1.info_hash, m2.info_hash);
    a = b"d8:announce1:u4:infod6:lengthi5e4:name1:n12:piece lengthi1e6:pieces0:ee".to_vec();
    let m3 = load(&a).unwrap();
    assert_ne!(m1.info_hash, m3.info_hash);
}

#[test]
fn optional_fields() {
    let b = b"d8:announce1:u10:created by3:me313:creation datei1700000000e8:encoding5:UTF-84:infod6:lengthi0e4:name1:n12:piece lengthi1e6:pieces0:ee";
    let m = load(b).unwrap();
    assert_eq!(m.created_by.as_deref(), Some("me3"));
    assert_eq!(m.creation_date, Some(1700000000));
    assert_eq!(m.encoding.as_deref(), Some("UTF-8"));
}

#[test]
fn multi_file_total() {
    let b = b"d8:announce1:u4:infod5:filesld6:lengthi3e4:pathl1:a1:beed6:lengthi4e4:pathl1:ceee4:name1:d12:piece lengthi1e6:pieces0:ee";
    let m = load(b).unwrap();
    assert_eq!(m.num_file_bytes(), 7);
    match &m.info {
        InfoDictionary::MultiFile(mf) => {
            assert_eq!(mf.files.len(), 2);
            assert_eq!(mf.files[0].path, vec![String::from("a"), String::from("b")]);
            assert_eq!(mf.name, "d");
        }
        other => panic!("expected multiple files: {:?}", other),
    }
}

#[test]
fn load_errors() {
    assert_eq!(load(b"i1e"), Err(ParseError::Malformed));
    assert_eq!(load(b"d8:announce"), Err(ParseError::Decode(DecodeError::Truncated)));
    assert_eq!(load(b"d4:infodee"), Err(ParseError::MissingField(Field::Announce)));
    assert_eq!(load(b"d8:announcei1ee"), Err(ParseError::InvalidField(Field::Announce)));
    assert_eq!(load(b"d8:announce2:\xff\xfee"), Err(ParseError::InvalidField(Field::Announce)));
    assert_eq!(load(b"d8:announce1:ue"), Err(ParseError::MissingField(Field::Info)));
    assert_eq!(load(b"d8:announce1:u4:infoi1ee"), Err(ParseError::InvalidField(Field::Info)));
    assert_eq!(
        load(b"d8:announce1:u4:infod4:name1:n12:piece lengthi0e6:pieces0:ee"),
        Err(ParseError::InvalidField(Field::PieceLength))
    );
    assert_eq!(
        load(b"d8:announce1:u4:infod4:name1:n12:piece lengthi1e6:pieces3:abcee"),
        Err(ParseError::InvalidField(Field::Pieces))
    );
    assert_eq!(
        load(b"d8:announce1:u4:infod4:name1:n12:piece lengthi1e6:pieces0:ee"),
        Err(ParseError::MissingField(Field::Length))
    );
    assert_eq!(
        load(b"d8:announce1:u4:infod6:lengthi-1e4:name1:n12:piece lengthi1e6:pieces0:ee"),
        Err(ParseError::InvalidField(Field::Length))
    );
    assert_eq!(
        load(b"d8:announce1:u13:creation date1:x4:infodee"),
        Err(ParseError::InvalidField(Field::CreationDate))
    );
}

#[test]
fn multi_file_total_overflow() {
    let big = i64::MAX;
    let s = format!(
        "d8:announce1:u4:infod5:filesld6:lengthi{}e4:pathl1:aeed6:lengthi{}e4:pathl1:aeed6:lengthi{}e4:pathl1:aeee4:name1:d12:piece lengthi1e6:pieces0:ee",
        big, big, big
    );
    assert_eq!(load(s.as_bytes()), Err(ParseError::InvalidField(Field::Files)));
}
