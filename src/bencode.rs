//! Bencode values, their mathematical model, and the canonical encoder.

use vstd::prelude::*;

verus! {

broadcast use vstd::std_specs::vec::axiom_vec_index_decreases, vstd::seq::axiom_seq_index_decreases;

/// A decoded bencode value.
///
/// A well-formed value (see `BValue::wf`) keeps the entries of every
/// dictionary in strictly ascending byte order of their keys, so a dictionary
/// never holds the same key twice.
#[derive(Debug, PartialEq, Eq)]
pub enum BencodeValue {
    Integer(i64),
    ByteString(Vec<u8>),
    List(Vec<BencodeValue>),
    Dict(Vec<(Vec<u8>, BencodeValue)>),
}

/// The mathematical model of a bencode value.
pub enum BValue {
    Int(i64),
    Bytes(Seq<u8>),
    List(Seq<BValue>),
    Dict(Seq<(Seq<u8>, BValue)>),
}

pub const CH_I: u8 = 0x69;

pub const CH_L: u8 = 0x6c;

pub const CH_D: u8 = 0x64;

pub const CH_E: u8 = 0x65;

pub const CH_COLON: u8 = 0x3a;

pub const CH_MINUS: u8 = 0x2d;

pub const CH_ZERO: u8 = 0x30;

pub open spec fn is_digit(b: u8) -> bool {
    CH_ZERO <= b <= CH_ZERO + 9
}

/// Strict lexicographic order on byte strings (a proper prefix sorts first).
pub open spec fn bytes_lt(a: Seq<u8>, b: Seq<u8>) -> bool
    decreases a.len(),
{
    if a.len() == 0 {
        b.len() > 0
    } else if b.len() == 0 {
        false
    } else if a[0] != b[0] {
        a[0] < b[0]
    } else {
        bytes_lt(a.drop_first(), b.drop_first())
    }
}

/// Keys strictly ascending: no key repeats and the order is canonical.
pub open spec fn keys_ascending(es: Seq<(Seq<u8>, BValue)>) -> bool {
    forall|i: int, j: int| 0 <= i < j < es.len() ==> bytes_lt(#[trigger] es[i].0, #[trigger] es[j].0)
}

impl BValue {
    /// Every dictionary inside the value has strictly ascending keys.
    pub open spec fn wf(self) -> bool
        decreases self,
    {
        match self {
            BValue::Int(_) => true,
            BValue::Bytes(_) => true,
            BValue::List(items) => forall|i: int| 0 <= i < items.len() ==> (#[trigger] items[i]).wf(),
            BValue::Dict(es) => {
                &&& keys_ascending(es)
                &&& forall|i: int| 0 <= i < es.len() ==> (#[trigger] es[i]).1.wf()
            },
        }
    }
}

/// How deep lists and dictionaries nest in a value: 0 for an integer or a
/// byte string, one more than the deepest element for a container.
pub open spec fn nesting(v: BValue) -> nat
    decreases v,
{
    match v {
        BValue::Int(_) => 0,
        BValue::Bytes(_) => 0,
        BValue::List(items) => 1 + nesting_list(items),
        BValue::Dict(es) => 1 + nesting_entries(es),
    }
}

/// The deepest nesting among list items.
pub open spec fn nesting_list(items: Seq<BValue>) -> nat
    decreases items,
{
    if items.len() == 0 {
        0
    } else {
        let a = nesting(items[0]);
        let b = nesting_list(items.drop_first());
        if a >= b {
            a
        } else {
            b
        }
    }
}

/// The deepest nesting among dictionary values.
pub open spec fn nesting_entries(es: Seq<(Seq<u8>, BValue)>) -> nat
    decreases es,
{
    if es.len() == 0 {
        0
    } else {
        let a = nesting(es[0].1);
        let b = nesting_entries(es.drop_first());
        if a >= b {
            a
        } else {
            b
        }
    }
}

pub open spec fn view_list(s: Seq<BencodeValue>) -> Seq<BValue>
    decreases s,
{
    if s.len() == 0 {
        seq![]
    } else {
        seq![s[0].view()] + view_list(s.drop_first())
    }
}

pub open spec fn view_entries(s: Seq<(Vec<u8>, BencodeValue)>) -> Seq<(Seq<u8>, BValue)>
    decreases s,
{
    if s.len() == 0 {
        seq![]
    } else {
        seq![(s[0].0@, s[0].1.view())] + view_entries(s.drop_first())
    }
}

impl View for BencodeValue {
    type V = BValue;

    open spec fn view(&self) -> BValue
        decreases self,
    {
        match self {
            BencodeValue::Integer(i) => BValue::Int(*i),
            BencodeValue::ByteString(b) => BValue::Bytes(b@),
            BencodeValue::List(items) => BValue::List(view_list(items@)),
            BencodeValue::Dict(es) => BValue::Dict(view_entries(es@)),
        }
    }
}


pub proof fn lemma_view_list(s: Seq<BencodeValue>)
    ensures
        view_list(s).len() == s.len(),
        forall|i: int| 0 <= i < s.len() ==> #[trigger] view_list(s)[i] == s[i]@,
    decreases s.len(),
{
    if s.len() > 0 {
        lemma_view_list(s.drop_first());
        assert(view_list(s) == seq![s[0]@] + view_list(s.drop_first()));
        assert forall|i: int| 0 <= i < s.len() implies #[trigger] view_list(s)[i] == s[i]@ by {
            if i > 0 {
                assert(s.drop_first()[i - 1] == s[i]);
            }
        }
    }
}

pub proof fn lemma_view_entries(s: Seq<(Vec<u8>, BencodeValue)>)
    ensures
        view_entries(s).len() == s.len(),
        forall|i: int|
            0 <= i < s.len() ==> #[trigger] view_entries(s)[i] == (s[i].0@, s[i].1@),
    decreases s.len(),
{
    if s.len() > 0 {
        lemma_view_entries(s.drop_first());
        assert(view_entries(s) == seq![(s[0].0@, s[0].1@)] + view_entries(s.drop_first()));
        assert forall|i: int| 0 <= i < s.len() implies #[trigger] view_entries(s)[i] == (
        s[i].0@, s[i].1@) by {
            if i > 0 {
                assert(s.drop_first()[i - 1] == s[i]);
            }
        }
    }
}

/// Decimal digits of a natural number, most significant first, no leading zero.
pub open spec fn nat_digits(n: nat) -> Seq<u8>
    decreases n,
{
    if n < 10 {
        seq![(CH_ZERO + n) as u8]
    } else {
        nat_digits(n / 10) + seq![(CH_ZERO + n % 10) as u8]
    }
}

/// Decimal text of an integer: an optional minus sign, then its digits.
pub open spec fn int_text(i: int) -> Seq<u8> {
    if i < 0 {
        seq![CH_MINUS] + nat_digits((-i) as nat)
    } else {
        nat_digits(i as nat)
    }
}

/// `<length>:<raw bytes>`
pub open spec fn encode_bytes(b: Seq<u8>) -> Seq<u8> {
    nat_digits(b.len()) + seq![CH_COLON] + b
}

/// The canonical encoding of a value: dictionary entries are emitted in the
/// order in which the value holds them, which for a well-formed value is
/// strictly ascending key order.
pub open spec fn encode_value(v: BValue) -> Seq<u8>
    decreases v,
{
    match v {
        BValue::Int(i) => seq![CH_I] + int_text(i as int) + seq![CH_E],
        BValue::Bytes(b) => encode_bytes(b),
        BValue::List(items) => seq![CH_L] + encode_list(items) + seq![CH_E],
        BValue::Dict(es) => seq![CH_D] + encode_entries(es) + seq![CH_E],
    }
}

pub open spec fn encode_list(items: Seq<BValue>) -> Seq<u8>
    decreases items,
{
    if items.len() == 0 {
        seq![]
    } else {
        encode_value(items[0]) + encode_list(items.drop_first())
    }
}

pub open spec fn encode_entries(es: Seq<(Seq<u8>, BValue)>) -> Seq<u8>
    decreases es,
{
    if es.len() == 0 {
        seq![]
    } else {
        encode_bytes(es[0].0) + encode_value(es[0].1) + encode_entries(es.drop_first())
    }
}


proof fn lemma_encode_list_push(a: Seq<BValue>, x: BValue)
    ensures
        encode_list(a.push(x)) == encode_list(a) + encode_value(x),
    decreases a.len(),
{
    if a.len() == 0 {
        assert(a.push(x).drop_first() =~= Seq::<BValue>::empty());
        assert(encode_list(a.push(x)) == encode_value(x) + encode_list(Seq::<BValue>::empty()));
        assert(encode_list(a.push(x)) =~= encode_list(a) + encode_value(x));
    } else {
        lemma_encode_list_push(a.drop_first(), x);
        assert(a.push(x).drop_first() =~= a.drop_first().push(x));
        assert(encode_list(a.push(x)) == encode_value(a[0]) + encode_list(a.push(x).drop_first()));
        assert(encode_list(a) == encode_value(a[0]) + encode_list(a.drop_first()));
        assert(encode_list(a.push(x)) =~= encode_list(a) + encode_value(x));
    }
}

proof fn lemma_encode_entries_push(a: Seq<(Seq<u8>, BValue)>, x: (Seq<u8>, BValue))
    ensures
        encode_entries(a.push(x)) == encode_entries(a) + encode_bytes(x.0) + encode_value(x.1),
    decreases a.len(),
{
    let e = Seq::<(Seq<u8>, BValue)>::empty();
    if a.len() == 0 {
        assert(a.push(x).drop_first() =~= e);
        assert(encode_entries(a.push(x)) == encode_bytes(x.0) + encode_value(x.1) + encode_entries(e));
        assert(encode_entries(a.push(x)) =~= encode_entries(a) + encode_bytes(x.0) + encode_value(x.1));
    } else {
        lemma_encode_entries_push(a.drop_first(), x);
        assert(a.push(x).drop_first() =~= a.drop_first().push(x));
        assert(encode_entries(a.push(x)) == encode_bytes(a[0].0) + encode_value(a[0].1)
            + encode_entries(a.push(x).drop_first()));
        assert(encode_entries(a) == encode_bytes(a[0].0) + encode_value(a[0].1) + encode_entries(
            a.drop_first(),
        ));
        assert(encode_entries(a.push(x)) =~= encode_entries(a) + encode_bytes(x.0) + encode_value(
            x.1,
        ));
    }
}

/// Appends the decimal digits of `n`.
pub(crate) fn push_decimal(n: u64, out: &mut Vec<u8>)
    ensures
        final(out)@ == old(out)@ + nat_digits(n as nat),
    decreases n,
{
    if n >= 10 {
        push_decimal(n / 10, out);
    }
    let d: u8 = (n % 10) as u8;
    out.push(CH_ZERO + d);
    assert(out@ =~= old(out)@ + nat_digits(n as nat));
}

/// Appends `<length>:<raw bytes>`.
fn push_bytes(b: &Vec<u8>, out: &mut Vec<u8>)
    ensures
        final(out)@ == old(out)@ + encode_bytes(b@),
{
    push_decimal(b.len() as u64, out);
    out.push(CH_COLON);
    let mut i: usize = 0;
    while i < b.len()
        invariant
            i <= b.len(),
            out@ == old(out)@ + nat_digits(b@.len()) + seq![CH_COLON] + b@.take(i as int),
        decreases b.len() - i,
    {
        out.push(b[i]);
        assert(b@.take(i + 1) =~= b@.take(i as int).push(b@[i as int]));
        i = i + 1;
        assert(out@ =~= old(out)@ + nat_digits(b@.len()) + seq![CH_COLON] + b@.take(i as int));
    }
    assert(b@.take(i as int) =~= b@);
    assert(out@ =~= old(out)@ + encode_bytes(b@));
}

/// Appends the canonical encoding of `v`.
fn encode_into(v: &BencodeValue, out: &mut Vec<u8>)
    ensures
        final(out)@ == old(out)@ + encode_value(v@),
    decreases v,
{
    match v {
        BencodeValue::Integer(i) => {
            out.push(CH_I);
            if *i < 0 {
                out.push(CH_MINUS);
                let m: u64 = (0i128 - *i as i128) as u64;
                push_decimal(m, out);
            } else {
                push_decimal(*i as u64, out);
            }
            out.push(CH_E);
            assert(out@ =~= old(out)@ + encode_value(v@));
        },
        BencodeValue::ByteString(b) => {
            push_bytes(b, out);
        },
        BencodeValue::List(items) => {
            out.push(CH_L);
            proof {
                lemma_view_list(items@);
            }
            let ghost vs = view_list(items@);
            let mut i: usize = 0;
            while i < items.len()
                invariant
                    i <= items.len(),
                    vs == view_list(items@),
                    *v == BencodeValue::List(*items),
                    vs.len() == items@.len(),
                    forall|k: int| 0 <= k < items.len() ==> #[trigger] vs[k] == items@[k]@,
                    out@ == old(out)@ + seq![CH_L] + encode_list(vs.take(i as int)),
                decreases items.len() - i,
            {
                assert(decreases_to!(*v => (*v)->List_0));
                assert(decreases_to!(*items => items[i as int]));
                assert(decreases_to!(*v => items[i as int]));
                encode_into(&items[i], out);
                proof {
                    assert(vs.take(i + 1) =~= vs.take(i as int).push(vs[i as int]));
                    lemma_encode_list_push(vs.take(i as int), vs[i as int]);
                }
                i = i + 1;
                assert(out@ =~= old(out)@ + seq![CH_L] + encode_list(vs.take(i as int)));
            }
            out.push(CH_E);
            assert(vs.take(i as int) =~= vs);
            assert(out@ =~= old(out)@ + encode_value(v@));
        },
        BencodeValue::Dict(es) => {
            out.push(CH_D);
            proof {
                lemma_view_entries(es@);
            }
            let ghost vs = view_entries(es@);
            let mut i: usize = 0;
            while i < es.len()
                invariant
                    i <= es.len(),
                    vs == view_entries(es@),
                    *v == BencodeValue::Dict(*es),
                    vs.len() == es@.len(),
                    forall|k: int| 0 <= k < es.len() ==> #[trigger] vs[k] == (es@[k].0@, es@[k].1@),
                    out@ == old(out)@ + seq![CH_D] + encode_entries(vs.take(i as int)),
                decreases es.len() - i,
            {
                push_bytes(&es[i].0, out);
                assert(decreases_to!(*v => (*v)->Dict_0));
                assert(decreases_to!(*es => es[i as int]));
                assert(decreases_to!(es[i as int] => es[i as int].1));
                assert(decreases_to!(*v => es[i as int].1));
                encode_into(&es[i].1, out);
                proof {
                    assert(vs.take(i + 1) =~= vs.take(i as int).push(vs[i as int]));
                    lemma_encode_entries_push(vs.take(i as int), vs[i as int]);
                }
                i = i + 1;
                assert(out@ =~= old(out)@ + seq![CH_D] + encode_entries(vs.take(i as int)));
            }
            out.push(CH_E);
            assert(vs.take(i as int) =~= vs);
            assert(out@ =~= old(out)@ + encode_value(v@));
        },
    }
}

/// Encodes a well-formed value in bencode; its dictionaries already hold
/// their keys in strictly ascending byte order, so the output is canonical.
pub fn encode(v: &BencodeValue) -> (r: Vec<u8>)
    requires
        v@.wf(),
    ensures
        r@ == encode_value(v@),
{
    let mut out: Vec<u8> = Vec::new();
    encode_into(v, &mut out);
    assert(out@ =~= encode_value(v@));
    out
}

} // verus!
