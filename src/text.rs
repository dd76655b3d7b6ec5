//! Text helpers: UTF-8 conversion of byte strings, and ASCII pieces of
//! protocol text.

use vstd::prelude::*;
use vstd::string::is_ascii;
use vstd::utf8::{decode_utf8, is_leading_byte_width_1, valid_utf8};

verus! {

/// The bytes of an ASCII character sequence.
pub open spec fn ascii_bytes(cs: Seq<char>) -> Seq<u8> {
    Seq::new(cs.len(), |i: int| cs[i] as u8)
}

pub open spec fn is_ascii_bytes(b: Seq<u8>) -> bool {
    forall|i: int| 0 <= i < b.len() ==> #[trigger] b[i] < 0x80
}

/// ASCII bytes are valid UTF-8.
pub proof fn lemma_ascii_valid_utf8(b: Seq<u8>)
    requires
        is_ascii_bytes(b),
    ensures
        valid_utf8(b),
{
    assert forall|i: int| 0 <= 0 <= i < b.len() <= b.len() implies #[trigger] is_leading_byte_width_1(
        b[i],
    ) by {
        assert(b[i] < 0x80);
    }
    assert(valid_utf8(b.subrange(0, 0))) by {
        assert(b.subrange(0, 0).len() == 0);
    }
    vstd::utf8::partial_valid_utf8_extend_ascii_block(b, 0, b.len() as int);
    assert(b.subrange(0, b.len() as int) =~= b);
}

/// Relies on `String::from_utf8`: it succeeds exactly on valid UTF-8 and
/// then holds the characters that the bytes encode.
#[verifier::external_body]
pub(crate) fn string_from_utf8(b: Vec<u8>) -> (r: Option<String>)
    ensures
        r is Some <==> valid_utf8(b@),
        r matches Some(s) ==> s@ == decode_utf8(b@),
{
    String::from_utf8(b).ok()
}

/// Turns ASCII bytes into a string.
pub(crate) fn ascii_to_string(b: Vec<u8>) -> (r: String)
    requires
        is_ascii_bytes(b@),
    ensures
        r@ == decode_utf8(b@),
{
    proof {
        lemma_ascii_valid_utf8(b@);
    }
    match string_from_utf8(b) {
        Some(s) => s,
        None => String::new(),
    }
}

/// Appends the bytes of an ASCII string.
pub(crate) fn push_str(out: &mut Vec<u8>, s: &str)
    requires
        is_ascii(s),
    ensures
        final(out)@ == old(out)@ + ascii_bytes(s@),
{
    broadcast use vstd::string::is_ascii_spec_bytes;

    let b = s.as_bytes();
    let mut i: usize = 0;
    while i < b.len()
        invariant
            i <= b@.len(),
            b@ == ascii_bytes(s@),
            out@ == old(out)@ + b@.take(i as int),
        decreases b@.len() - i,
    {
        out.push(b[i]);
        assert(b@.take(i + 1) =~= b@.take(i as int).push(b@[i as int]));
        i = i + 1;
    }
    assert(b@.take(i as int) =~= b@);
}

} // verus!
