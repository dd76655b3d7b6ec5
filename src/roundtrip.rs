//! The codec's laws: decoding an encoding gives the value back, and the
//! encoding of a well-formed value is determined by the value alone.

use vstd::prelude::*;
use crate::bencode::{
    bytes_lt, encode_bytes, encode_entries, encode_list, encode_value, int_text, is_digit,
    keys_ascending, nat_digits, nesting, nesting_entries, nesting_list, BValue, CH_COLON, CH_D, CH_E, CH_I, CH_L, CH_MINUS, CH_ZERO,
};
use crate::fields::lookup;
use crate::decode::{
    digits_end, digits_value, insert_entry, insert_pos, parse_bytes, parse_entries, parse_items,
    parse_value, spec_decode, lemma_insert_pos, dict_set, MAX_NESTING,
};

verus! {

/// `e` stands in `s` from position `p` on.
pub open spec fn embedded(s: Seq<u8>, p: int, e: Seq<u8>) -> bool {
    0 <= p && p + e.len() <= s.len() && s.subrange(p, p + e.len()) == e
}

proof fn lemma_embedded_at(s: Seq<u8>, p: int, e: Seq<u8>, j: int)
    requires
        embedded(s, p, e),
        0 <= j < e.len(),
    ensures
        s[p + j] == e[j],
{
    assert(s.subrange(p, p + e.len())[j] == s[p + j]);
}

proof fn lemma_embedded_split(s: Seq<u8>, p: int, a: Seq<u8>, b: Seq<u8>)
    requires
        embedded(s, p, a + b),
    ensures
        embedded(s, p, a),
        embedded(s, p + a.len(), b),
{
    assert(s.subrange(p, p + a.len()) =~= (a + b).subrange(0, a.len() as int));
    assert((a + b).subrange(0, a.len() as int) =~= a);
    assert(s.subrange(p + a.len(), p + a.len() + b.len()) =~= (a + b).subrange(
        a.len() as int,
        (a + b).len() as int,
    ));
    assert((a + b).subrange(a.len() as int, (a + b).len() as int) =~= b);
}

proof fn lemma_nat_digits(n: nat)
    ensures
        nat_digits(n).len() >= 1,
        forall|j: int| 0 <= j < nat_digits(n).len() ==> is_digit(#[trigger] nat_digits(n)[j]),
        (nat_digits(n)[0] == CH_ZERO) == (n == 0),
        n == 0 ==> nat_digits(n).len() == 1,
        digits_value(nat_digits(n)) == n,
    decreases n,
{
    if n >= 10 {
        lemma_nat_digits(n / 10);
        let d = nat_digits(n);
        assert(d.drop_last() =~= nat_digits(n / 10));
        assert(n == (n / 10) * 10 + n % 10) by (nonlinear_arith);
        assert(n % 10 < 10) by (nonlinear_arith);
        assert(d.last() == (CH_ZERO + n % 10) as u8);
        assert((d.last() - CH_ZERO) as nat == n % 10);
        assert(digits_value(d) == digits_value(d.drop_last()) * 10 + (d.last() - CH_ZERO) as nat);
    } else {
        let d = nat_digits(n);
        assert(d.drop_last() =~= Seq::<u8>::empty());
        assert(digits_value(d) == digits_value(d.drop_last()) * 10 + (d.last() - CH_ZERO) as nat);
    }
}

proof fn lemma_digits_end_at(s: Seq<u8>, p: int, q: int)
    requires
        0 <= p <= q <= s.len(),
        forall|j: int| p <= j < q ==> is_digit(#[trigger] s[j]),
        q == s.len() || !is_digit(s[q]),
    ensures
        digits_end(s, p) == q,
    decreases q - p,
{
    if p < q {
        lemma_digits_end_at(s, p + 1, q);
    }
}

/// The digits of `n`, followed by a byte that is no digit, read back as `n`.
proof fn lemma_digits_at(s: Seq<u8>, p: int, n: nat)
    requires
        embedded(s, p, nat_digits(n)),
        p + nat_digits(n).len() < s.len(),
        !is_digit(s[p + nat_digits(n).len()]),
    ensures
        digits_end(s, p) == p + nat_digits(n).len(),
        s.subrange(p, p + nat_digits(n).len()) == nat_digits(n),
        digits_value(s.subrange(p, p + nat_digits(n).len())) == n,
        (s[p] == CH_ZERO) == (n == 0),
{
    lemma_nat_digits(n);
    let d = nat_digits(n);
    assert forall|j: int| p <= j < p + d.len() implies is_digit(#[trigger] s[j]) by {
        lemma_embedded_at(s, p, d, j - p);
    }
    lemma_embedded_at(s, p, d, 0);
    lemma_digits_end_at(s, p, p + d.len());
}

proof fn lemma_encode_first_byte(v: BValue)
    ensures
        encode_value(v).len() >= 1,
        encode_value(v)[0] != CH_E,
        is_digit(encode_value(v)[0]) ==> v is Bytes,
        encode_value(v)[0] == CH_I ==> v is Int,
        encode_value(v)[0] == CH_L ==> v is List,
        encode_value(v)[0] == CH_D ==> v is Dict,
        v is Bytes ==> is_digit(encode_value(v)[0]),
{
    match v {
        BValue::Bytes(b) => {
            lemma_nat_digits(b.len());
            assert(encode_value(v)[0] == nat_digits(b.len())[0]);
        },
        _ => {},
    }
}

proof fn lemma_parse_bytes_at(s: Seq<u8>, p: int, b: Seq<u8>)
    requires
        embedded(s, p, encode_bytes(b)),
    ensures
        parse_bytes(s, p) == Ok::<(Seq<u8>, int), crate::decode::DecodeError>(
            (b, p + encode_bytes(b).len()),
        ),
{
    let d = nat_digits(b.len());
    lemma_nat_digits(b.len());
    lemma_embedded_split(s, p, d + seq![CH_COLON], b);
    lemma_embedded_split(s, p, d, seq![CH_COLON]);
    lemma_embedded_at(s, p + d.len(), seq![CH_COLON], 0);
    lemma_digits_at(s, p, b.len());
    let q = p + d.len();
    assert(s.subrange(q + 1, q + 1 + b.len()) == b);
}

proof fn lemma_parse_value_at(s: Seq<u8>, p: int, v: BValue, d: nat)
    requires
        v.wf(),
        nesting(v) <= d,
        embedded(s, p, encode_value(v)),
    ensures
        parse_value(s, p, d) == Ok::<(BValue, int), crate::decode::DecodeError>(
            (v, p + encode_value(v).len()),
        ),
    decreases v, 1int,
{
    let e = encode_value(v);
    lemma_encode_first_byte(v);
    lemma_embedded_at(s, p, e, 0);
    match v {
        BValue::Int(i) => {
            let t = int_text(i as int);
            lemma_embedded_split(s, p, seq![CH_I] + t, seq![CH_E]);
            lemma_embedded_split(s, p, seq![CH_I], t);
            lemma_embedded_at(s, p + 1 + t.len(), seq![CH_E], 0);
            if i < 0 {
                let m = (-i) as nat;
                lemma_embedded_split(s, p + 1, seq![CH_MINUS], nat_digits(m));
                lemma_embedded_at(s, p + 1, seq![CH_MINUS], 0);
                lemma_digits_at(s, p + 2, m);
            } else {
                let m = i as nat;
                lemma_digits_at(s, p + 1, m);
                lemma_nat_digits(m);
            }
        },
        BValue::Bytes(b) => {
            lemma_parse_bytes_at(s, p, b);
        },
        BValue::List(items) => {
            lemma_embedded_split(s, p, seq![CH_L] + encode_list(items), seq![CH_E]);
            lemma_embedded_split(s, p, seq![CH_L], encode_list(items));
            assert(encode_list(items) + seq![CH_E] =~= (seq![CH_L] + encode_list(items) + seq![
                CH_E,
            ]).subrange(1, e.len() as int));
            assert(embedded(s, p + 1, encode_list(items) + seq![CH_E])) by {
                assert(s.subrange(p + 1, p + 1 + (encode_list(items) + seq![CH_E]).len())
                    =~= s.subrange(p, p + e.len()).subrange(1, e.len() as int));
            }
            lemma_parse_items_at(s, p + 1, items, seq![], (d - 1) as nat);
            assert(Seq::<BValue>::empty() + items =~= items);
        },
        BValue::Dict(es) => {
            assert(encode_entries(es) + seq![CH_E] =~= (seq![CH_D] + encode_entries(es) + seq![
                CH_E,
            ]).subrange(1, e.len() as int));
            assert(embedded(s, p + 1, encode_entries(es) + seq![CH_E])) by {
                assert(s.subrange(p + 1, p + 1 + (encode_entries(es) + seq![CH_E]).len())
                    =~= s.subrange(p, p + e.len()).subrange(1, e.len() as int));
            }
            assert(Seq::<(Seq<u8>, BValue)>::empty() + es =~= es);
            lemma_parse_entries_at(s, p + 1, es, seq![], (d - 1) as nat);
        },
    }
}

proof fn lemma_parse_items_at(
    s: Seq<u8>,
    p: int,
    items: Seq<BValue>,
    acc: Seq<BValue>,
    d: nat,
)
    requires
        forall|i: int| 0 <= i < items.len() ==> (#[trigger] items[i]).wf(),
        nesting_list(items) <= d,
        embedded(s, p, encode_list(items) + seq![CH_E]),
    ensures
        parse_items(s, p, acc, d) == Ok::<(Seq<BValue>, int), crate::decode::DecodeError>(
            (acc + items, p + encode_list(items).len() + 1),
        ),
    decreases items, 0int,
{
    if items.len() == 0 {
        lemma_embedded_at(s, p, encode_list(items) + seq![CH_E], 0);
        assert(acc + items =~= acc);
    } else {
        let v = items[0];
        let rest = items.drop_first();
        let ev = encode_value(v);
        assert(encode_list(items) + seq![CH_E] =~= ev + (encode_list(rest) + seq![CH_E]));
        lemma_embedded_split(s, p, ev, encode_list(rest) + seq![CH_E]);
        lemma_encode_first_byte(v);
        lemma_embedded_at(s, p, ev, 0);
        assert(nesting_list(items) == if nesting(v) >= nesting_list(rest) {
            nesting(v)
        } else {
            nesting_list(rest)
        });
        lemma_parse_value_at(s, p, v, d);
        assert forall|i: int| 0 <= i < rest.len() implies (#[trigger] rest[i]).wf() by {
            assert(rest[i] == items[i + 1]);
        }
        lemma_parse_items_at(s, p + ev.len(), rest, acc.push(v), d);
        assert(acc.push(v) + rest =~= acc + items);
    }
}

proof fn lemma_insert_last(acc: Seq<(Seq<u8>, BValue)>, k: Seq<u8>, v: BValue)
    requires
        forall|j: int| 0 <= j < acc.len() ==> bytes_lt(#[trigger] acc[j].0, k),
    ensures
        insert_entry(acc, k, v) == Some(acc.push((k, v))),
{
    lemma_insert_pos(acc, k, acc.len() as int);
    assert(acc.insert(acc.len() as int, (k, v)) =~= acc.push((k, v)));
}

proof fn lemma_parse_entries_at(
    s: Seq<u8>,
    p: int,
    es: Seq<(Seq<u8>, BValue)>,
    acc: Seq<(Seq<u8>, BValue)>,
    d: nat,
)
    requires
        forall|i: int| 0 <= i < es.len() ==> (#[trigger] es[i]).1.wf(),
        nesting_entries(es) <= d,
        keys_ascending(acc + es),
        embedded(s, p, encode_entries(es) + seq![CH_E]),
    ensures
        parse_entries(s, p, acc, d) == Ok::<
            (Seq<(Seq<u8>, BValue)>, int),
            crate::decode::DecodeError,
        >((acc + es, p + encode_entries(es).len() + 1)),
    decreases es, 0int,
{
    if es.len() == 0 {
        lemma_embedded_at(s, p, encode_entries(es) + seq![CH_E], 0);
        assert(acc + es =~= acc);
    } else {
        let (k, v) = es[0];
        let rest = es.drop_first();
        let ek = encode_bytes(k);
        let ev = encode_value(v);
        assert(encode_entries(es) + seq![CH_E] =~= ek + (ev + (encode_entries(rest) + seq![CH_E])));
        lemma_embedded_split(s, p, ek, ev + (encode_entries(rest) + seq![CH_E]));
        lemma_embedded_split(s, p + ek.len(), ev, encode_entries(rest) + seq![CH_E]);
        lemma_nat_digits(k.len());
        lemma_embedded_at(s, p, ek, 0);
        lemma_parse_bytes_at(s, p, k);
        lemma_encode_first_byte(v);
        assert(es[0] == (k, v));
        assert(nesting_entries(es) == if nesting(v) >= nesting_entries(rest) {
            nesting(v)
        } else {
            nesting_entries(rest)
        });
        lemma_parse_value_at(s, p + ek.len(), v, d);
        assert forall|j: int| 0 <= j < acc.len() implies bytes_lt(#[trigger] acc[j].0, k) by {
            assert((acc + es)[j] == acc[j]);
            assert((acc + es)[acc.len() as int] == es[0]);
        }
        lemma_insert_last(acc, k, v);
        assert(acc.push((k, v)) + rest =~= acc + es);
        assert forall|i: int| 0 <= i < rest.len() implies (#[trigger] rest[i]).1.wf() by {
            assert(rest[i] == es[i + 1]);
        }
        lemma_parse_entries_at(s, p + ek.len() + ev.len(), rest, acc.push((k, v)), d);
    }
}

/// Decoding the encoding of a well-formed value gives that value back, for
/// every value nested no deeper than the decoder accepts.
pub proof fn lemma_round_trip(v: BValue)
    requires
        v.wf(),
        nesting(v) <= MAX_NESTING,
    ensures
        spec_decode(encode_value(v)) == Ok::<BValue, crate::decode::DecodeError>(v),
{
    let e = encode_value(v);
    assert(e.subrange(0, e.len() as int) =~= e);
    lemma_parse_value_at(e, 0, v, MAX_NESTING as nat);
}

/// Two well-formed values with the same encoding are the same value: a change
/// anywhere in a value changes its encoding, and so the bytes that are hashed.
pub proof fn lemma_encode_injective(v: BValue, w: BValue)
    requires
        v.wf(),
        w.wf(),
        encode_value(v) == encode_value(w),
    ensures
        v == w,
{
    let d = if nesting(v) >= nesting(w) {
        nesting(v)
    } else {
        nesting(w)
    };
    let e = encode_value(v);
    assert(e.subrange(0, e.len() as int) =~= e);
    lemma_parse_value_at(e, 0, v, d);
    lemma_parse_value_at(e, 0, w, d);
}


proof fn lemma_bytes_lt_irreflexive(a: Seq<u8>)
    ensures
        !bytes_lt(a, a),
    decreases a.len(),
{
    if a.len() > 0 {
        lemma_bytes_lt_irreflexive(a.drop_first());
    }
}

proof fn lemma_bytes_lt_total(a: Seq<u8>, b: Seq<u8>)
    ensures
        a != b ==> bytes_lt(a, b) || bytes_lt(b, a),
    decreases a.len(),
{
    if a.len() > 0 && b.len() > 0 && a[0] == b[0] {
        lemma_bytes_lt_total(a.drop_first(), b.drop_first());
        if a.drop_first() == b.drop_first() {
            assert(a =~= seq![a[0]] + a.drop_first());
            assert(b =~= seq![b[0]] + b.drop_first());
        }
    }
    if a.len() == 0 && b.len() == 0 {
        assert(a =~= b);
    }
}

proof fn lemma_bytes_lt_transitive(a: Seq<u8>, b: Seq<u8>, c: Seq<u8>)
    requires
        bytes_lt(a, b),
        bytes_lt(b, c),
    ensures
        bytes_lt(a, c),
    decreases a.len(),
{
    if a.len() > 0 && a[0] == b[0] && b[0] == c[0] {
        lemma_bytes_lt_transitive(a.drop_first(), b.drop_first(), c.drop_first());
    }
}

proof fn lemma_insert_pos_props(es: Seq<(Seq<u8>, BValue)>, k: Seq<u8>)
    ensures
        0 <= insert_pos(es, k) <= es.len(),
        forall|j: int| 0 <= j < insert_pos(es, k) ==> bytes_lt(#[trigger] es[j].0, k),
        insert_pos(es, k) < es.len() ==> !bytes_lt(es[insert_pos(es, k)].0, k),
    decreases es.len(),
{
    if es.len() > 0 && bytes_lt(es[0].0, k) {
        let t = es.drop_first();
        lemma_insert_pos_props(t, k);
        assert forall|j: int| 0 <= j < insert_pos(es, k) implies bytes_lt(#[trigger] es[j].0, k) by {
            if j > 0 {
                assert(es[j] == t[j - 1]);
            }
        }
        if insert_pos(es, k) < es.len() {
            assert(es[insert_pos(es, k)] == t[insert_pos(t, k)]);
        }
    }
}

proof fn lemma_insert_keeps_order(es: Seq<(Seq<u8>, BValue)>, k: Seq<u8>, v: BValue)
    requires
        keys_ascending(es),
        forall|i: int| 0 <= i < es.len() ==> (#[trigger] es[i]).1.wf(),
        v.wf(),
    ensures
        insert_entry(es, k, v) matches Some(n) ==> keys_ascending(n) && forall|i: int|
            0 <= i < n.len() ==> (#[trigger] n[i]).1.wf(),
{
    lemma_insert_pos_props(es, k);
    let p = insert_pos(es, k);
    if insert_entry(es, k, v) is Some {
        let n = es.insert(p, (k, v));
        if p < es.len() {
            lemma_bytes_lt_total(es[p].0, k);
        }
        assert forall|i: int, j: int| 0 <= i < j < n.len() implies bytes_lt(
            #[trigger] n[i].0,
            #[trigger] n[j].0,
        ) by {
            if j < p {
                assert(n[i] == es[i] && n[j] == es[j]);
            } else if j == p {
                assert(n[i] == es[i]);
            } else if i > p {
                assert(n[i] == es[i - 1] && n[j] == es[j - 1]);
            } else if i == p {
                assert(n[j] == es[j - 1]);
                if j - 1 > p {
                    lemma_bytes_lt_transitive(k, es[p].0, es[j - 1].0);
                }
            } else {
                assert(n[i] == es[i] && n[j] == es[j - 1]);
            }
        }
        assert forall|i: int| 0 <= i < n.len() implies (#[trigger] n[i]).1.wf() by {
            if i < p {
                assert(n[i] == es[i]);
            } else if i > p {
                assert(n[i] == es[i - 1]);
            }
        }
    }
}

proof fn lemma_nesting_list_bound(items: Seq<BValue>, b: nat)
    requires
        forall|i: int| 0 <= i < items.len() ==> nesting(#[trigger] items[i]) <= b,
    ensures
        nesting_list(items) <= b,
    decreases items.len(),
{
    if items.len() > 0 {
        let rest = items.drop_first();
        assert forall|i: int| 0 <= i < rest.len() implies nesting(#[trigger] rest[i]) <= b by {
            assert(rest[i] == items[i + 1]);
        }
        lemma_nesting_list_bound(rest, b);
        assert(nesting(items[0]) <= b);
    }
}

proof fn lemma_nesting_entries_bound(es: Seq<(Seq<u8>, BValue)>, b: nat)
    requires
        forall|i: int| 0 <= i < es.len() ==> nesting(#[trigger] es[i].1) <= b,
    ensures
        nesting_entries(es) <= b,
    decreases es.len(),
{
    if es.len() > 0 {
        let rest = es.drop_first();
        assert forall|i: int| 0 <= i < rest.len() implies nesting(#[trigger] rest[i].1) <= b by {
            assert(rest[i] == es[i + 1]);
        }
        lemma_nesting_entries_bound(rest, b);
        assert(nesting(es[0].1) <= b);
    }
}

proof fn lemma_parse_value_wf(s: Seq<u8>, p: int, d: nat)
    ensures
        parse_value(s, p, d) matches Ok((v, q)) ==> v.wf() && nesting(v) <= d,
    decreases s.len() - p, 0int,
{
    if 0 <= p < s.len() && d > 0 {
        if s[p] == CH_L {
            lemma_parse_items_wf(s, p + 1, seq![], (d - 1) as nat);
            if let Ok((items, q)) = parse_items(s, p + 1, seq![], (d - 1) as nat) {
                lemma_nesting_list_bound(items, (d - 1) as nat);
            }
        } else if s[p] == CH_D {
            lemma_parse_entries_wf(s, p + 1, seq![], (d - 1) as nat);
            if let Ok((es, q)) = parse_entries(s, p + 1, seq![], (d - 1) as nat) {
                lemma_nesting_entries_bound(es, (d - 1) as nat);
            }
        }
    }
}

proof fn lemma_parse_items_wf(s: Seq<u8>, p: int, acc: Seq<BValue>, d: nat)
    requires
        forall|i: int| 0 <= i < acc.len() ==> (#[trigger] acc[i]).wf() && nesting(acc[i]) <= d,
    ensures
        parse_items(s, p, acc, d) matches Ok((items, q)) ==> forall|i: int|
            0 <= i < items.len() ==> (#[trigger] items[i]).wf() && nesting(items[i]) <= d,
    decreases s.len() - p, 1int,
{
    if 0 <= p < s.len() && s[p] != CH_E {
        lemma_parse_value_wf(s, p, d);
        if let Ok((v, q)) = parse_value(s, p, d) {
            if p < q <= s.len() {
                assert forall|i: int| 0 <= i < acc.push(v).len() implies (#[trigger] acc.push(
                    v,
                )[i]).wf() && nesting(acc.push(v)[i]) <= d by {
                    if i < acc.len() {
                        assert(acc.push(v)[i] == acc[i]);
                    }
                }
                lemma_parse_items_wf(s, q, acc.push(v), d);
            }
        }
    }
}

proof fn lemma_parse_entries_wf(s: Seq<u8>, p: int, acc: Seq<(Seq<u8>, BValue)>, d: nat)
    requires
        keys_ascending(acc),
        forall|i: int| 0 <= i < acc.len() ==> (#[trigger] acc[i]).1.wf() && nesting(acc[i].1) <= d,
    ensures
        parse_entries(s, p, acc, d) matches Ok((es, q)) ==> BValue::Dict(es).wf() && forall|i: int|
            0 <= i < es.len() ==> nesting(#[trigger] es[i].1) <= d,
    decreases s.len() - p, 1int,
{
    if 0 <= p < s.len() && s[p] != CH_E && is_digit(s[p]) {
        if let Ok((k, q)) = parse_bytes(s, p) {
            if p < q <= s.len() {
                lemma_parse_value_wf(s, q, d);
                if let Ok((v, r)) = parse_value(s, q, d) {
                    if q < r <= s.len() {
                        lemma_insert_keeps_order(acc, k, v);
                        if let Some(acc2) = insert_entry(acc, k, v) {
                            lemma_insert_keeps_nesting(acc, k, v, d);
                            lemma_parse_entries_wf(s, r, acc2, d);
                        }
                    }
                }
            }
        }
    } else if 0 <= p < s.len() && s[p] == CH_E {
        assert(BValue::Dict(acc).wf());
    }
}

proof fn lemma_insert_keeps_nesting(es: Seq<(Seq<u8>, BValue)>, k: Seq<u8>, v: BValue, d: nat)
    requires
        forall|i: int| 0 <= i < es.len() ==> nesting(#[trigger] es[i].1) <= d,
        nesting(v) <= d,
    ensures
        insert_entry(es, k, v) matches Some(n) ==> forall|i: int|
            0 <= i < n.len() ==> nesting(#[trigger] n[i].1) <= d,
{
    lemma_insert_pos_props(es, k);
    let p = insert_pos(es, k);
    if let Some(n) = insert_entry(es, k, v) {
        assert forall|i: int| 0 <= i < n.len() implies nesting(#[trigger] n[i].1) <= d by {
            if i < p {
                assert(n[i] == es[i]);
            } else if i > p {
                assert(n[i] == es[i - 1]);
            }
        }
    }
}

/// Every value that decodes is well-formed: its dictionaries hold their keys
/// in strictly ascending byte order, so its encoding emits them in that
/// order; and decoding that encoding gives the value back.
pub proof fn lemma_decode_canonical(s: Seq<u8>)
    ensures
        spec_decode(s) matches Ok(v) ==> v.wf() && nesting(v) <= MAX_NESTING && spec_decode(
            encode_value(v),
        ) == Ok::<BValue, crate::decode::DecodeError>(v),
{
    lemma_parse_value_wf(s, 0, MAX_NESTING as nat);
    if let Ok(v) = spec_decode(s) {
        lemma_round_trip(v);
    }
}


/// Setting a key in a well-formed dictionary to a well-formed value keeps it
/// well-formed: its keys stay strictly ascending.
pub proof fn lemma_dict_set_keeps_order(es: Seq<(Seq<u8>, BValue)>, k: Seq<u8>, v: BValue)
    requires
        BValue::Dict(es).wf(),
        v.wf(),
    ensures
        BValue::Dict(dict_set(es, k, v)).wf(),
{
    lemma_insert_pos_props(es, k);
    lemma_insert_keeps_order(es, k, v);
    let i = insert_pos(es, k);
    if 0 <= i < es.len() && es[i].0 == k {
        let n = es.update(i, (k, v));
        assert forall|a: int, b: int| 0 <= a < b < n.len() implies bytes_lt(
            #[trigger] n[a].0,
            #[trigger] n[b].0,
        ) by {
            assert(n[a].0 == es[a].0 && n[b].0 == es[b].0);
        }
        assert forall|a: int| 0 <= a < n.len() implies (#[trigger] n[a]).1.wf() by {
            if a != i {
                assert(n[a] == es[a]);
            }
        }
    }
}


/// A value found under a key of a dictionary whose values are well-formed is
/// well-formed, and nested no deeper than the dictionary's values.
pub proof fn lemma_lookup_wf(es: Seq<(Seq<u8>, BValue)>, k: Seq<u8>)
    requires
        forall|i: int| 0 <= i < es.len() ==> (#[trigger] es[i]).1.wf(),
    ensures
        lookup(es, k) matches Some(x) ==> x.wf() && nesting(x) <= nesting_entries(es),
    decreases es.len(),
{
    if es.len() > 0 {
        let rest = es.drop_first();
        assert forall|i: int| 0 <= i < rest.len() implies (#[trigger] rest[i]).1.wf() by {
            assert(rest[i] == es[i + 1]);
        }
        lemma_lookup_wf(rest, k);
        assert(es[0].1.wf());
        assert(nesting_entries(es) == if nesting(es[0].1) >= nesting_entries(rest) {
            nesting(es[0].1)
        } else {
            nesting_entries(rest)
        });
    }
}

} // verus!
