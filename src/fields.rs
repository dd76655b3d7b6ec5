//! Typed access to the fields of decoded dictionaries: a key that is absent
//! and a value of the wrong shape are told apart, and neither panics.

use vstd::prelude::*;
use vstd::utf8::{decode_utf8, valid_utf8};
use crate::bencode::{lemma_view_entries, view_entries, BValue, BencodeValue};
use crate::text::string_from_utf8;

verus! {

/// Why a field could not be read.
#[derive(Debug, Clone, Copy, PartialEq, Eq, Structural)]
pub enum FieldError {
    /// The key is absent.
    Missing,
    /// The key is present but its value has the wrong shape.
    WrongType,
}

/// The value of the first entry with key `k`.
pub open spec fn lookup(es: Seq<(Seq<u8>, BValue)>, k: Seq<u8>) -> Option<BValue>
    decreases es.len(),
{
    if es.len() == 0 {
        None
    } else if es[0].0 == k {
        Some(es[0].1)
    } else {
        lookup(es.drop_first(), k)
    }
}

/// The integer a value holds.
pub open spec fn as_int(v: BValue) -> Result<i64, FieldError> {
    match v {
        BValue::Int(i) => Ok(i),
        _ => Err(FieldError::WrongType),
    }
}

/// The bytes a value holds.
pub open spec fn as_bytes(v: BValue) -> Result<Seq<u8>, FieldError> {
    match v {
        BValue::Bytes(b) => Ok(b),
        _ => Err(FieldError::WrongType),
    }
}

/// The text a value holds: a byte string that is valid UTF-8.
pub open spec fn as_text(v: BValue) -> Result<Seq<char>, FieldError> {
    match v {
        BValue::Bytes(b) => if valid_utf8(b) {
            Ok(decode_utf8(b))
        } else {
            Err(FieldError::WrongType)
        },
        _ => Err(FieldError::WrongType),
    }
}

/// The value under `key` in a dictionary, if the key is there.
pub fn maybe_get_field<'a>(map: &'a Vec<(Vec<u8>, BencodeValue)>, key: &[u8]) -> (r: Option<
    &'a BencodeValue,
>)
    ensures
        match r {
            Some(v) => lookup(view_entries(map@), key@) == Some(v@),
            None => lookup(view_entries(map@), key@) is None,
        },
{
    let ghost ves = view_entries(map@);
    proof {
        lemma_view_entries(map@);
    }
    let mut i: usize = 0;
    assert(ves.skip(0) =~= ves);
    while i < map.len()
        invariant
            i <= map@.len(),
            ves == view_entries(map@),
            ves.len() == map@.len(),
            forall|j: int| 0 <= j < map@.len() ==> #[trigger] ves[j] == (map@[j].0@, map@[j].1@),
            lookup(ves, key@) == lookup(ves.skip(i as int), key@),
        decreases map@.len() - i,
    {
        assert(ves.skip(i as int)[0] == ves[i as int]);
        if crate::decode::compare_bytes(map[i].0.as_slice(), key) == 0 {
            return Some(&map[i].1);
        }
        assert(ves.skip(i as int).drop_first() =~= ves.skip(i + 1));
        i = i + 1;
    }
    None
}

/// The value under `key` in a dictionary; `Missing` when the key is absent.
pub fn get_field<'a>(map: &'a Vec<(Vec<u8>, BencodeValue)>, key: &[u8]) -> (r: Result<
    &'a BencodeValue,
    FieldError,
>)
    ensures
        match r {
            Ok(v) => lookup(view_entries(map@), key@) == Some(v@),
            Err(e) => e == FieldError::Missing && lookup(view_entries(map@), key@) is None,
        },
{
    match maybe_get_field(map, key) {
        Some(v) => Ok(v),
        None => Err(FieldError::Missing),
    }
}

/// The integer held by `b`; `WrongType` for any other kind of value.
pub fn bencode_unwrap_number(b: &BencodeValue) -> (r: Result<i64, FieldError>)
    ensures
        r == as_int(b@),
{
    match b {
        BencodeValue::Integer(x) => Ok(*x),
        _ => Err(FieldError::WrongType),
    }
}

/// The bytes held by `b`; `WrongType` for any other kind of value.
pub fn bencode_string_unwrap_bytes(b: &BencodeValue) -> (r: Result<Vec<u8>, FieldError>)
    ensures
        match r {
            Ok(v) => as_bytes(b@) == Ok::<Seq<u8>, FieldError>(v@),
            Err(e) => as_bytes(b@) == Err::<Seq<u8>, FieldError>(e),
        },
{
    match b {
        BencodeValue::ByteString(v) => Ok(vstd::slice::slice_to_vec(v.as_slice())),
        _ => Err(FieldError::WrongType),
    }
}

/// The text held by `b`; `WrongType` unless it is a byte string in UTF-8.
pub fn bencode_string_unwrap_string(b: &BencodeValue) -> (r: Result<String, FieldError>)
    ensures
        match r {
            Ok(s) => as_text(b@) == Ok::<Seq<char>, FieldError>(s@),
            Err(e) => as_text(b@) == Err::<Seq<char>, FieldError>(e),
        },
{
    match bencode_string_unwrap_bytes(b) {
        Ok(v) => match string_from_utf8(v) {
            Some(s) => Ok(s),
            None => Err(FieldError::WrongType),
        },
        Err(e) => Err(e),
    }
}


/// An optional text field: absent gives `None`.
pub open spec fn opt_text(es: Seq<(Seq<u8>, BValue)>, k: Seq<u8>) -> Result<
    Option<Seq<char>>,
    FieldError,
> {
    match lookup(es, k) {
        None => Ok(None),
        Some(v) => match as_text(v) {
            Ok(t) => Ok(Some(t)),
            Err(e) => Err(e),
        },
    }
}

/// An optional integer field: absent gives `None`.
pub open spec fn opt_int(es: Seq<(Seq<u8>, BValue)>, k: Seq<u8>) -> Result<Option<i64>, FieldError> {
    match lookup(es, k) {
        None => Ok(None),
        Some(v) => match as_int(v) {
            Ok(i) => Ok(Some(i)),
            Err(e) => Err(e),
        },
    }
}

/// Reads an optional text field.
pub fn opt_text_field(map: &Vec<(Vec<u8>, BencodeValue)>, key: &[u8]) -> (r: Result<
    Option<String>,
    FieldError,
>)
    ensures
        match r {
            Ok(None) => opt_text(view_entries(map@), key@) == Ok::<Option<Seq<char>>, FieldError>(
                None,
            ),
            Ok(Some(s)) => opt_text(view_entries(map@), key@) == Ok::<
                Option<Seq<char>>,
                FieldError,
            >(Some(s@)),
            Err(e) => opt_text(view_entries(map@), key@) == Err::<Option<Seq<char>>, FieldError>(e),
        },
{
    match maybe_get_field(map, key) {
        None => Ok(None),
        Some(v) => match bencode_string_unwrap_string(v) {
            Ok(s) => Ok(Some(s)),
            Err(e) => Err(e),
        },
    }
}

/// Reads an optional integer field.
pub fn opt_int_field(map: &Vec<(Vec<u8>, BencodeValue)>, key: &[u8]) -> (r: Result<
    Option<i64>,
    FieldError,
>)
    ensures
        r == opt_int(view_entries(map@), key@),
{
    match maybe_get_field(map, key) {
        None => Ok(None),
        Some(v) => match bencode_unwrap_number(v) {
            Ok(i) => Ok(Some(i)),
            Err(e) => Err(e),
        },
    }
}

/// The bytes of an ASCII key.
pub(crate) fn key(s: &str) -> (r: &[u8])
    requires
        vstd::string::is_ascii(s),
    ensures
        r@ == crate::text::ascii_bytes(s@),
{
    broadcast use vstd::string::is_ascii_spec_bytes;

    s.as_bytes()
}

} // verus!
