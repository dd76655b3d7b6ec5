//! The bencode grammar as a parser on bytes, and the decoder proved to follow it.

use vstd::prelude::*;
use crate::bencode::{
    bytes_lt, is_digit, lemma_view_entries, lemma_view_list, view_entries, view_list, BValue,
    BencodeValue, CH_COLON, CH_D, CH_E, CH_I, CH_L, CH_MINUS, CH_ZERO,
};

verus! {

broadcast use vstd::std_specs::vec::axiom_vec_index_decreases;

/// Why a byte buffer is not a bencode document.
#[derive(Debug, Clone, Copy, PartialEq, Eq, Structural)]
pub enum DecodeError {
    /// The input ends inside an integer, a byte string, or where a value must start.
    Truncated,
    /// A byte-string length prefix is followed by something other than `:`.
    MalformedLength,
    /// An `i...e` integer has no digits, a leading zero, `-0`, or leaves the 64-bit range.
    MalformedInteger,
    /// A dictionary key is not a byte string.
    NonStringKey,
    /// The input ends inside a list or a dictionary.
    UnterminatedContainer,
    /// A dictionary holds the same key twice.
    DuplicateKey,
    /// A value starts with a byte that begins no value.
    UnexpectedByte,
    /// Bytes follow the complete top-level value.
    TrailingData,
    /// Lists and dictionaries are nested more than `MAX_NESTING` deep.
    TooDeep,
}

/// How deep lists and dictionaries may nest in a decoded document.
pub const MAX_NESTING: usize = 512;

/// The first position at or after `p` that does not hold a decimal digit.
pub open spec fn digits_end(s: Seq<u8>, p: int) -> int
    decreases s.len() - p,
{
    if p < 0 || p >= s.len() || !is_digit(s[p]) {
        p
    } else {
        digits_end(s, p + 1)
    }
}

/// The number written by a run of decimal digits.
pub open spec fn digits_value(d: Seq<u8>) -> nat
    decreases d.len(),
{
    if d.len() == 0 {
        0
    } else {
        digits_value(d.drop_last()) * 10 + (d.last() - CH_ZERO) as nat
    }
}

/// `i<digits>e` starting at `p`, where `s[p]` is `i`.
pub open spec fn parse_int(s: Seq<u8>, p: int) -> Result<(BValue, int), DecodeError> {
    let len = s.len();
    let a = p + 1;
    let neg = a < s.len() && s[a] == CH_MINUS;
    let d0 = if neg {
        a + 1
    } else {
        a
    };
    let q = digits_end(s, d0);
    if q >= s.len() {
        Err(DecodeError::Truncated)
    } else if s[q] != CH_E || q == d0 {
        Err(DecodeError::MalformedInteger)
    } else if s[d0] == CH_ZERO && (q > d0 + 1 || neg) {
        Err(DecodeError::MalformedInteger)
    } else {
        let m = digits_value(s.subrange(d0, q)) as int;
        let val = if neg {
            -m
        } else {
            m
        };
        if val < i64::MIN || val > i64::MAX {
            Err(DecodeError::MalformedInteger)
        } else {
            Ok((BValue::Int(val as i64), q + 1))
        }
    }
}

/// `<length>:<raw bytes>` starting at `p`, where `s[p]` is a digit.
pub open spec fn parse_bytes(s: Seq<u8>, p: int) -> Result<(Seq<u8>, int), DecodeError> {
    let q = digits_end(s, p);
    if q >= s.len() {
        Err(DecodeError::Truncated)
    } else if s[q] != CH_COLON {
        Err(DecodeError::MalformedLength)
    } else {
        let n = digits_value(s.subrange(p, q)) as int;
        if q + 1 + n > s.len() {
            Err(DecodeError::Truncated)
        } else {
            Ok((s.subrange(q + 1, q + 1 + n), q + 1 + n))
        }
    }
}

/// Where `k` goes among entries sorted by key: after every key less than it.
pub open spec fn insert_pos(es: Seq<(Seq<u8>, BValue)>, k: Seq<u8>) -> int
    decreases es.len(),
{
    if es.len() == 0 {
        0
    } else if bytes_lt(es[0].0, k) {
        1 + insert_pos(es.drop_first(), k)
    } else {
        0
    }
}

/// Adds an entry to a dictionary kept in key order; `None` when the key is
/// already there.
pub open spec fn insert_entry(es: Seq<(Seq<u8>, BValue)>, k: Seq<u8>, v: BValue) -> Option<
    Seq<(Seq<u8>, BValue)>,
> {
    let i = insert_pos(es, k);
    if 0 <= i < es.len() && es[i].0 == k {
        None
    } else {
        Some(es.insert(i, (k, v)))
    }
}

/// The value that starts at `p`, and the position just after it; `d` is how
/// many more levels of lists and dictionaries may open.
pub open spec fn parse_value(s: Seq<u8>, p: int, d: nat) -> Result<(BValue, int), DecodeError>
    decreases s.len() - p, 0int,
{
    if p < 0 || p >= s.len() {
        Err(DecodeError::Truncated)
    } else if s[p] == CH_I {
        parse_int(s, p)
    } else if is_digit(s[p]) {
        match parse_bytes(s, p) {
            Ok((b, q)) => Ok((BValue::Bytes(b), q)),
            Err(e) => Err(e),
        }
    } else if (s[p] == CH_L || s[p] == CH_D) && d == 0 {
        Err(DecodeError::TooDeep)
    } else if s[p] == CH_L {
        match parse_items(s, p + 1, seq![], (d - 1) as nat) {
            Ok((items, q)) => Ok((BValue::List(items), q)),
            Err(e) => Err(e),
        }
    } else if s[p] == CH_D {
        match parse_entries(s, p + 1, seq![], (d - 1) as nat) {
            Ok((es, q)) => Ok((BValue::Dict(es), q)),
            Err(e) => Err(e),
        }
    } else {
        Err(DecodeError::UnexpectedByte)
    }
}

/// List items from `p` up to and including the closing `e`, after `acc`.
pub open spec fn parse_items(s: Seq<u8>, p: int, acc: Seq<BValue>, d: nat) -> Result<
    (Seq<BValue>, int),
    DecodeError,
>
    decreases s.len() - p, 1int,
{
    if p < 0 || p >= s.len() {
        Err(DecodeError::UnterminatedContainer)
    } else if s[p] == CH_E {
        Ok((acc, p + 1))
    } else {
        match parse_value(s, p, d) {
            Err(e) => Err(e),
            Ok((v, q)) => if p < q <= s.len() {
                parse_items(s, q, acc.push(v), d)
            } else {
                Err(DecodeError::Truncated)
            },
        }
    }
}

/// Dictionary entries from `p` up to and including the closing `e`, each
/// inserted in key order into `acc`.
pub open spec fn parse_entries(
    s: Seq<u8>,
    p: int,
    acc: Seq<(Seq<u8>, BValue)>,
    d: nat,
) -> Result<
    (Seq<(Seq<u8>, BValue)>, int),
    DecodeError,
>
    decreases s.len() - p, 1int,
{
    if p < 0 || p >= s.len() {
        Err(DecodeError::UnterminatedContainer)
    } else if s[p] == CH_E {
        Ok((acc, p + 1))
    } else if !is_digit(s[p]) {
        Err(DecodeError::NonStringKey)
    } else {
        match parse_bytes(s, p) {
            Err(e) => Err(e),
            Ok((k, q)) => if p < q <= s.len() {
                match parse_value(s, q, d) {
                    Err(e) => Err(e),
                    Ok((v, r)) => if q < r <= s.len() {
                        match insert_entry(acc, k, v) {
                            None => Err(DecodeError::DuplicateKey),
                            Some(acc2) => parse_entries(s, r, acc2, d),
                        }
                    } else {
                        Err(DecodeError::Truncated)
                    },
                }
            } else {
                Err(DecodeError::Truncated)
            },
        }
    }
}

/// The document held by `s`: one value and nothing after it.
pub open spec fn spec_decode(s: Seq<u8>) -> Result<BValue, DecodeError> {
    match parse_value(s, 0, MAX_NESTING as nat) {
        Err(e) => Err(e),
        Ok((v, q)) => if q == s.len() {
            Ok(v)
        } else {
            Err(DecodeError::TrailingData)
        },
    }
}


proof fn lemma_digits_end(s: Seq<u8>, p: int)
    requires
        0 <= p <= s.len(),
    ensures
        p <= digits_end(s, p) <= s.len(),
        forall|j: int| p <= j < digits_end(s, p) ==> is_digit(#[trigger] s[j]),
        digits_end(s, p) < s.len() ==> !is_digit(s[digits_end(s, p)]),
    decreases s.len() - p,
{
    if p < s.len() && is_digit(s[p]) {
        lemma_digits_end(s, p + 1);
    }
}

proof fn lemma_digits_value_step(s: Seq<u8>, a: int, i: int)
    requires
        0 <= a <= i < s.len(),
    ensures
        digits_value(s.subrange(a, i + 1)) == digits_value(s.subrange(a, i)) * 10 + (s[i]
            - CH_ZERO) as nat,
{
    let d = s.subrange(a, i + 1);
    assert(d.drop_last() =~= s.subrange(a, i));
}

proof fn lemma_view_list_push(s: Seq<BencodeValue>, x: BencodeValue)
    ensures
        view_list(s.push(x)) == view_list(s).push(x@),
{
    lemma_view_list(s);
    lemma_view_list(s.push(x));
    assert(view_list(s.push(x)) =~= view_list(s).push(x@));
}

pub(crate) proof fn lemma_insert_pos(es: Seq<(Seq<u8>, BValue)>, k: Seq<u8>, i: int)
    requires
        0 <= i <= es.len(),
        forall|j: int| 0 <= j < i ==> bytes_lt(#[trigger] es[j].0, k),
        i == es.len() || !bytes_lt(es[i].0, k),
    ensures
        insert_pos(es, k) == i,
    decreases i,
{
    if i > 0 {
        assert(bytes_lt(es[0].0, k));
        assert forall|j: int| 0 <= j < i - 1 implies bytes_lt(#[trigger] es.drop_first()[j].0, k) by {
            assert(es.drop_first()[j] == es[j + 1]);
        }
        lemma_insert_pos(es.drop_first(), k, i - 1);
    }
}

/// The first position at or after `p` that does not hold a decimal digit.
fn scan_digits(s: &[u8], p: usize) -> (q: usize)
    requires
        p <= s@.len(),
    ensures
        q as int == digits_end(s@, p as int),
{
    let mut i: usize = p;
    while i < s.len() && CH_ZERO <= s[i] && s[i] <= CH_ZERO + 9
        invariant
            p <= i <= s@.len(),
            digits_end(s@, p as int) == digits_end(s@, i as int),
        decreases s@.len() - i,
    {
        i = i + 1;
    }
    i
}

/// The number written by the digits `s[a..b]`, or `cap` when it is at least `cap`.
pub(crate) fn read_number(s: &[u8], a: usize, b: usize, cap: u128) -> (r: u128)
    requires
        a <= b <= s@.len(),
        forall|j: int| a <= j < b ==> is_digit(#[trigger] s@[j]),
        cap <= 0x1_0000_0000_0000_0000,
    ensures
        r as int == if digits_value(s@.subrange(a as int, b as int)) < cap {
            digits_value(s@.subrange(a as int, b as int)) as int
        } else {
            cap as int
        },
{
    let mut acc: u128 = 0;
    let mut i: usize = a;
    assert(s@.subrange(a as int, a as int).len() == 0);
    while i < b
        invariant
            a <= i <= b <= s@.len(),
            forall|j: int| a <= j < b ==> is_digit(#[trigger] s@[j]),
            cap <= 0x1_0000_0000_0000_0000,
            acc as int == if digits_value(s@.subrange(a as int, i as int)) < cap {
                digits_value(s@.subrange(a as int, i as int)) as int
            } else {
                cap as int
            },
        decreases b - i,
    {
        proof {
            lemma_digits_value_step(s@, a as int, i as int);
        }
        let d = s[i] - CH_ZERO;
        if acc < cap {
            let next: u128 = acc * 10 + d as u128;
            if next < cap {
                acc = next;
            } else {
                acc = cap;
            }
        }
        i = i + 1;
    }
    acc
}

/// Strict byte order: negative when `a` sorts first, zero when equal,
/// positive when `b` sorts first.
pub fn compare_bytes(a: &[u8], b: &[u8]) -> (r: i8)
    ensures
        (r < 0) == bytes_lt(a@, b@),
        (r == 0) == (a@ == b@),
        (r > 0) == bytes_lt(b@, a@),
{
    let mut i: usize = 0;
    assert(a@.skip(0) =~= a@);
    assert(b@.skip(0) =~= b@);
    while i < a.len() && i < b.len()
        invariant
            i <= a@.len(),
            i <= b@.len(),
            a@.take(i as int) == b@.take(i as int),
            bytes_lt(a@, b@) == bytes_lt(a@.skip(i as int), b@.skip(i as int)),
            bytes_lt(b@, a@) == bytes_lt(b@.skip(i as int), a@.skip(i as int)),
        decreases a@.len() - i,
    {
        let x = a[i];
        let y = b[i];
        assert(a@.skip(i as int)[0] == x);
        assert(b@.skip(i as int)[0] == y);
        if x != y {
            assert(a@[i as int] != b@[i as int]);
            if x < y {
                return -1;
            } else {
                return 1;
            }
        }
        assert(a@.skip(i as int).drop_first() =~= a@.skip(i + 1));
        assert(b@.skip(i as int).drop_first() =~= b@.skip(i + 1));
        assert(a@.take(i + 1) =~= a@.take(i as int).push(x));
        assert(b@.take(i + 1) =~= b@.take(i as int).push(y));
        i = i + 1;
    }
    if i == a.len() && i == b.len() {
        assert(a@ =~= a@.take(i as int));
        assert(b@ =~= b@.take(i as int));
        0
    } else if i == a.len() {
        assert(a@.len() != b@.len());
        -1
    } else {
        assert(a@.len() != b@.len());
        1
    }
}

/// Inserts an entry into a dictionary kept in key order; false, with the
/// dictionary unchanged, when the key is already there.
fn insert_entry_exec(es: &mut Vec<(Vec<u8>, BencodeValue)>, k: Vec<u8>, v: BencodeValue) -> (ok: bool)
    ensures
        match insert_entry(view_entries(old(es)@), k@, v@) {
            None => !ok && final(es)@ == old(es)@,
            Some(n) => ok && view_entries(final(es)@) == n,
        },
{
    let ghost ves = view_entries(es@);
    proof {
        lemma_view_entries(es@);
    }
    let mut i: usize = 0;
    while i < es.len() && compare_bytes(es[i].0.as_slice(), k.as_slice()) < 0
        invariant
            i <= es@.len(),
            ves == view_entries(es@),
            ves.len() == es@.len(),
            forall|j: int| 0 <= j < es@.len() ==> #[trigger] ves[j] == (es@[j].0@, es@[j].1@),
            forall|j: int| 0 <= j < i ==> bytes_lt(#[trigger] ves[j].0, k@),
        decreases es@.len() - i,
    {
        i = i + 1;
    }
    proof {
        lemma_insert_pos(ves, k@, i as int);
    }
    if i < es.len() && compare_bytes(es[i].0.as_slice(), k.as_slice()) == 0 {
        return false;
    }
    let ghost kv = k@;
    let ghost vv = v@;
    es.insert(i, (k, v));
    proof {
        lemma_view_entries(es@);
        assert(view_entries(es@) =~= ves.insert(i as int, (kv, vv)));
    }
    true
}


/// Sets key `k` to `v` in a dictionary kept in key order: an entry with key
/// `k` has its value replaced, otherwise a new entry goes where the order
/// puts it.
pub open spec fn dict_set(es: Seq<(Seq<u8>, BValue)>, k: Seq<u8>, v: BValue) -> Seq<
    (Seq<u8>, BValue),
> {
    let i = insert_pos(es, k);
    if 0 <= i < es.len() && es[i].0 == k {
        es.update(i, (k, v))
    } else {
        es.insert(i, (k, v))
    }
}

/// Sets `key` to `value` in a dictionary kept in key order, and hands back
/// the value it replaces, if any.
pub fn bencode_dict_insert(dict: &mut Vec<(Vec<u8>, BencodeValue)>, key: Vec<u8>, value: BencodeValue) -> (r: Option<BencodeValue>)
    ensures
        view_entries(final(dict)@) == dict_set(view_entries(old(dict)@), key@, value@),
        match r {
            Some(old_value) => {
                let i = insert_pos(view_entries(old(dict)@), key@);
                &&& 0 <= i < old(dict)@.len()
                &&& view_entries(old(dict)@)[i] == (key@, old_value@)
            },
            None => insert_entry(view_entries(old(dict)@), key@, value@) is Some,
        },
{
    let ghost ves = view_entries(dict@);
    proof {
        lemma_view_entries(dict@);
    }
    let mut i: usize = 0;
    while i < dict.len() && compare_bytes(dict[i].0.as_slice(), key.as_slice()) < 0
        invariant
            i <= dict@.len(),
            ves == view_entries(dict@),
            ves.len() == dict@.len(),
            forall|j: int| 0 <= j < dict@.len() ==> #[trigger] ves[j] == (dict@[j].0@, dict@[j].1@),
            forall|j: int| 0 <= j < i ==> bytes_lt(#[trigger] ves[j].0, key@),
        decreases dict@.len() - i,
    {
        i = i + 1;
    }
    proof {
        lemma_insert_pos(ves, key@, i as int);
    }
    let ghost kv = key@;
    let ghost vv = value@;
    if i < dict.len() && compare_bytes(dict[i].0.as_slice(), key.as_slice()) == 0 {
        let (_, old_value) = dict.remove(i);
        dict.insert(i, (key, value));
        proof {
            lemma_view_entries(dict@);
            assert(view_entries(dict@) =~= ves.update(i as int, (kv, vv)));
        }
        return Some(old_value);
    }
    dict.insert(i, (key, value));
    proof {
        lemma_view_entries(dict@);
        assert(view_entries(dict@) =~= ves.insert(i as int, (kv, vv)));
    }
    None
}

fn parse_int_exec(s: &[u8], p: usize) -> (r: Result<(i64, usize), DecodeError>)
    requires
        p < s@.len(),
        s@[p as int] == CH_I,
    ensures
        match r {
            Ok((x, q)) => parse_int(s@, p as int) == Ok::<(BValue, int), DecodeError>(
                (BValue::Int(x), q as int),
            ),
            Err(e) => parse_int(s@, p as int) == Err::<(BValue, int), DecodeError>(e),
        },
{
    let len = s.len();
    let a = p + 1;
    let neg = a < s.len() && s[a] == CH_MINUS;
    let d0 = if neg {
        a + 1
    } else {
        a
    };
    let q = scan_digits(s, d0);
    proof {
        lemma_digits_end(s@, d0 as int);
    }
    if q >= s.len() {
        return Err(DecodeError::Truncated);
    }
    if s[q] != CH_E || q == d0 {
        return Err(DecodeError::MalformedInteger);
    }
    if s[d0] == CH_ZERO && (q > d0 + 1 || neg) {
        return Err(DecodeError::MalformedInteger);
    }
    let m = read_number(s, d0, q, 0x1_0000_0000_0000_0000u128);
    if neg {
        if m > 0x8000_0000_0000_0000u128 {
            return Err(DecodeError::MalformedInteger);
        }
        let x: i64 = (0i128 - m as i128) as i64;
        Ok((x, q + 1))
    } else {
        if m > 0x7fff_ffff_ffff_ffffu128 {
            return Err(DecodeError::MalformedInteger);
        }
        Ok((m as i64, q + 1))
    }
}

fn parse_bytes_exec(s: &[u8], p: usize) -> (r: Result<(Vec<u8>, usize), DecodeError>)
    requires
        p < s@.len(),
        is_digit(s@[p as int]),
    ensures
        match r {
            Ok((b, q)) => parse_bytes(s@, p as int) == Ok::<(Seq<u8>, int), DecodeError>(
                (b@, q as int),
            ),
            Err(e) => parse_bytes(s@, p as int) == Err::<(Seq<u8>, int), DecodeError>(e),
        },
{
    let q = scan_digits(s, p);
    proof {
        lemma_digits_end(s@, p as int);
    }
    if q >= s.len() {
        return Err(DecodeError::Truncated);
    }
    if s[q] != CH_COLON {
        return Err(DecodeError::MalformedLength);
    }
    let n = read_number(s, p, q, s.len() as u128 + 1);
    let start = q + 1;
    if n > (s.len() - start) as u128 {
        return Err(DecodeError::Truncated);
    }
    let end = start + n as usize;
    let b = vstd::slice::slice_to_vec(vstd::slice::slice_subrange(s, start, end));
    Ok((b, end))
}

fn parse_value_exec(s: &[u8], p: usize, d: usize) -> (r: Result<(BencodeValue, usize), DecodeError>)
    requires
        p <= s@.len(),
    ensures
        match r {
            Ok((v, q)) => parse_value(s@, p as int, d as nat) == Ok::<(BValue, int), DecodeError>(
                (v@, q as int),
            ),
            Err(e) => parse_value(s@, p as int, d as nat) == Err::<(BValue, int), DecodeError>(e),
        },
    decreases s@.len() - p,
{
    if p >= s.len() {
        return Err(DecodeError::Truncated);
    }
    let c = s[p];
    if c == CH_I {
        match parse_int_exec(s, p) {
            Ok((x, q)) => Ok((BencodeValue::Integer(x), q)),
            Err(e) => Err(e),
        }
    } else if CH_ZERO <= c && c <= CH_ZERO + 9 {
        match parse_bytes_exec(s, p) {
            Ok((b, q)) => Ok((BencodeValue::ByteString(b), q)),
            Err(e) => Err(e),
        }
    } else if (c == CH_L || c == CH_D) && d == 0 {
        Err(DecodeError::TooDeep)
    } else if c == CH_L {
        let mut items: Vec<BencodeValue> = Vec::new();
        let mut i: usize = p + 1;
        assert(view_list(items@) =~= Seq::<BValue>::empty());
        loop
            invariant
                p < i <= s@.len(),
                s@[p as int] == CH_L,
                d > 0,
                parse_items(s@, p + 1, seq![], (d - 1) as nat) == parse_items(
                    s@,
                    i as int,
                    view_list(items@),
                    (d - 1) as nat,
                ),
            decreases s@.len() - i,
        {
            if i >= s.len() {
                return Err(DecodeError::UnterminatedContainer);
            }
            if s[i] == CH_E {
                return Ok((BencodeValue::List(items), i + 1));
            }
            match parse_value_exec(s, i, d - 1) {
                Err(e) => {
                    return Err(e);
                },
                Ok((v, q)) => {
                    if q <= i || q > s.len() {
                        return Err(DecodeError::Truncated);
                    }
                    proof {
                        lemma_view_list_push(items@, v);
                    }
                    items.push(v);
                    i = q;
                },
            }
        }
    } else if c == CH_D {
        let mut es: Vec<(Vec<u8>, BencodeValue)> = Vec::new();
        let mut i: usize = p + 1;
        assert(view_entries(es@) =~= Seq::<(Seq<u8>, BValue)>::empty());
        loop
            invariant
                p < i <= s@.len(),
                s@[p as int] == CH_D,
                d > 0,
                parse_entries(s@, p + 1, seq![], (d - 1) as nat) == parse_entries(
                    s@,
                    i as int,
                    view_entries(es@),
                    (d - 1) as nat,
                ),
            decreases s@.len() - i,
        {
            if i >= s.len() {
                return Err(DecodeError::UnterminatedContainer);
            }
            if s[i] == CH_E {
                return Ok((BencodeValue::Dict(es), i + 1));
            }
            if !(CH_ZERO <= s[i] && s[i] <= CH_ZERO + 9) {
                return Err(DecodeError::NonStringKey);
            }
            let (k, q) = match parse_bytes_exec(s, i) {
                Err(e) => {
                    return Err(e);
                },
                Ok(kq) => kq,
            };
            if q <= i || q > s.len() {
                return Err(DecodeError::Truncated);
            }
            let (v, r) = match parse_value_exec(s, q, d - 1) {
                Err(e) => {
                    return Err(e);
                },
                Ok(vr) => vr,
            };
            if r <= q || r > s.len() {
                return Err(DecodeError::Truncated);
            }
            if !insert_entry_exec(&mut es, k, v) {
                return Err(DecodeError::DuplicateKey);
            }
            i = r;
        }
    } else {
        Err(DecodeError::UnexpectedByte)
    }
}

/// Decodes a bencode document: exactly one value, with nothing after it.
pub fn decode(s: &[u8]) -> (r: Result<BencodeValue, DecodeError>)
    ensures
        match r {
            Ok(v) => spec_decode(s@) == Ok::<BValue, DecodeError>(v@),
            Err(e) => spec_decode(s@) == Err::<BValue, DecodeError>(e),
        },
        r matches Ok(v) ==> v@.wf(),
{
    proof {
        crate::roundtrip::lemma_decode_canonical(s@);
    }
    match parse_value_exec(s, 0, MAX_NESTING) {
        Err(e) => Err(e),
        Ok((v, q)) => if q == s.len() {
            Ok(v)
        } else {
            Err(DecodeError::TrailingData)
        },
    }
}

} // verus!
