//! Peer addresses as trackers give them: a dotted-decimal IPv4 address or a
//! host name.

use vstd::prelude::*;
use crate::bencode::CH_ZERO;
use crate::decode::{digits_value, read_number};

verus! {

pub const CH_DOT: u8 = 0x2e;

pub const CH_HYPHEN: u8 = 0x2d;

pub open spec fn is_dec(c: u8) -> bool {
    CH_ZERO <= c <= CH_ZERO + 9
}

pub open spec fn is_alnum(c: u8) -> bool {
    is_dec(c) || (0x41 <= c <= 0x5a) || (0x61 <= c <= 0x7a)
}

/// The first position at or after `s` that holds a `.`, or the end.
pub open spec fn next_dot(b: Seq<u8>, s: int) -> int
    decreases b.len() - s,
{
    if s < 0 || s >= b.len() || b[s] == CH_DOT {
        s
    } else {
        next_dot(b, s + 1)
    }
}

/// `b[s..e]` is a host-name label: 1 to 63 letters, digits or `-`, neither
/// starting nor ending with `-`.
pub open spec fn label_ok(b: Seq<u8>, s: int, e: int) -> bool {
    &&& 0 <= s
    &&& e <= b.len()
    &&& 1 <= e - s <= 63
    &&& b[s] != CH_HYPHEN
    &&& b[e - 1] != CH_HYPHEN
    &&& forall|j: int| s <= j < e ==> is_alnum(#[trigger] b[j]) || b[j] == CH_HYPHEN
}

/// From `s` on, `b` is a `.`-separated run of labels.
pub open spec fn labels_from(b: Seq<u8>, s: int) -> bool
    decreases b.len() - s,
{
    if s < 0 || s > b.len() {
        false
    } else {
        let e = next_dot(b, s);
        label_ok(b, s, e) && (e >= b.len() || (s <= e && labels_from(b, e + 1)))
    }
}

/// The last label, counted from `s`, is all digits.
pub open spec fn last_label_numeric(b: Seq<u8>, s: int) -> bool
    decreases b.len() - s,
{
    let e = next_dot(b, s);
    if 0 <= s <= e && e < b.len() {
        last_label_numeric(b, e + 1)
    } else {
        forall|j: int| s <= j < b.len() ==> is_dec(#[trigger] b[j])
    }
}

/// `b[s..e]` is a decimal octet: 1 to 3 digits, no leading zero, at most 255.
pub open spec fn octet_ok(b: Seq<u8>, s: int, e: int) -> bool {
    &&& 0 <= s
    &&& e <= b.len()
    &&& 1 <= e - s <= 3
    &&& forall|j: int| s <= j < e ==> is_dec(#[trigger] b[j])
    &&& (e - s > 1 ==> b[s] != CH_ZERO)
    &&& digits_value(b.subrange(s, e)) <= 255
}

/// From `s` on, `b` is `k` octets separated by `.`.
pub open spec fn octets_from(b: Seq<u8>, s: int, k: nat) -> bool
    decreases k,
{
    if s < 0 || s > b.len() || k == 0 {
        false
    } else {
        let e = next_dot(b, s);
        octet_ok(b, s, e) && if k == 1 {
            e == b.len()
        } else {
            s <= e < b.len() && octets_from(b, e + 1, (k - 1) as nat)
        }
    }
}

/// A dotted-decimal IPv4 address.
pub open spec fn is_ipv4(b: Seq<u8>) -> bool {
    octets_from(b, 0, 4)
}

/// A host name: at most 253 bytes of labels whose last label is not all
/// digits (so that no malformed address passes as a name).
pub open spec fn is_hostname(b: Seq<u8>) -> bool {
    b.len() <= 253 && labels_from(b, 0) && !last_label_numeric(b, 0)
}

/// An address a peer can be reached at.
pub open spec fn valid_host(b: Seq<u8>) -> bool {
    is_ipv4(b) || is_hostname(b)
}

proof fn lemma_next_dot(b: Seq<u8>, s: int)
    requires
        0 <= s <= b.len(),
    ensures
        s <= next_dot(b, s) <= b.len(),
        next_dot(b, s) < b.len() ==> b[next_dot(b, s)] == CH_DOT,
        forall|j: int| s <= j < next_dot(b, s) ==> #[trigger] b[j] != CH_DOT,
    decreases b.len() - s,
{
    if s < b.len() && b[s] != CH_DOT {
        lemma_next_dot(b, s + 1);
    }
}

fn next_dot_exec(b: &[u8], s: usize) -> (r: usize)
    requires
        s <= b@.len(),
    ensures
        r == next_dot(b@, s as int),
        s <= r <= b@.len(),
        r < b@.len() ==> b@[r as int] == CH_DOT,
{
    proof {
        lemma_next_dot(b@, s as int);
    }
    let mut i = s;
    while i < b.len() && b[i] != CH_DOT
        invariant
            s <= i <= b@.len(),
            next_dot(b@, s as int) == next_dot(b@, i as int),
        decreases b@.len() - i,
    {
        i = i + 1;
    }
    i
}

fn label_ok_exec(b: &[u8], s: usize, e: usize) -> (r: bool)
    requires
        s <= e <= b@.len(),
    ensures
        r == label_ok(b@, s as int, e as int),
{
    if e - s < 1 || e - s > 63 || b[s] == CH_HYPHEN || b[e - 1] == CH_HYPHEN {
        return false;
    }
    let mut i = s;
    while i < e
        invariant
            s <= i <= e <= b@.len(),
            forall|j: int| s <= j < i ==> is_alnum(#[trigger] b@[j]) || b@[j] == CH_HYPHEN,
        decreases e - i,
    {
        let c = b[i];
        if !((CH_ZERO <= c && c <= CH_ZERO + 9) || (0x41 <= c && c <= 0x5a) || (0x61 <= c && c
            <= 0x7a) || c == CH_HYPHEN) {
            return false;
        }
        i = i + 1;
    }
    true
}

fn all_digits_exec(b: &[u8], s: usize, e: usize) -> (r: bool)
    requires
        s <= e <= b@.len(),
    ensures
        r == forall|j: int| s <= j < e ==> is_dec(#[trigger] b@[j]),
{
    let mut i = s;
    while i < e
        invariant
            s <= i <= e <= b@.len(),
            forall|j: int| s <= j < i ==> is_dec(#[trigger] b@[j]),
        decreases e - i,
    {
        if !(CH_ZERO <= b[i] && b[i] <= CH_ZERO + 9) {
            return false;
        }
        i = i + 1;
    }
    true
}

fn octet_ok_exec(b: &[u8], s: usize, e: usize) -> (r: bool)
    requires
        s <= e <= b@.len(),
    ensures
        r == octet_ok(b@, s as int, e as int),
{
    if e - s < 1 || e - s > 3 || !all_digits_exec(b, s, e) {
        return false;
    }
    if e - s > 1 && b[s] == CH_ZERO {
        return false;
    }
    read_number(b, s, e, 256) <= 255
}

fn is_ipv4_exec(b: &[u8]) -> (r: bool)
    ensures
        r == is_ipv4(b@),
{
    let mut s: usize = 0;
    let mut k: usize = 4;
    loop
        invariant
            s <= b@.len(),
            1 <= k <= 4,
            is_ipv4(b@) == octets_from(b@, s as int, k as nat),
        decreases k,
    {
        let e = next_dot_exec(b, s);
        if !octet_ok_exec(b, s, e) {
            return false;
        }
        if k == 1 {
            return e == b.len();
        }
        if e >= b.len() {
            return false;
        }
        s = e + 1;
        k = k - 1;
    }
}

fn labels_ok_exec(b: &[u8]) -> (r: bool)
    ensures
        r == labels_from(b@, 0),
{
    let mut s: usize = 0;
    loop
        invariant
            s <= b@.len(),
            labels_from(b@, 0) == labels_from(b@, s as int),
        decreases b@.len() - s,
    {
        let e = next_dot_exec(b, s);
        if !label_ok_exec(b, s, e) {
            return false;
        }
        if e >= b.len() {
            return true;
        }
        s = e + 1;
    }
}

fn is_hostname_exec(b: &[u8]) -> (r: bool)
    ensures
        r == is_hostname(b@),
{
    if b.len() > 253 {
        return false;
    }
    if !labels_ok_exec(b) {
        return false;
    }
    let mut t: usize = 0;
    loop
        invariant
            t <= b@.len(),
            b@.len() <= 253,
            labels_from(b@, 0),
            last_label_numeric(b@, 0) == last_label_numeric(b@, t as int),
        decreases b@.len() - t,
    {
        let e = next_dot_exec(b, t);
        if e < b.len() {
            t = e + 1;
        } else {
            return !all_digits_exec(b, t, b.len());
        }
    }
}

/// Whether `b` is a dotted-decimal IPv4 address or a host name.
pub fn check_host(b: &[u8]) -> (r: bool)
    ensures
        r == valid_host(b@),
{
    is_ipv4_exec(b) || is_hostname_exec(b)
}

proof fn lemma_labels_ascii(b: Seq<u8>, s: int)
    requires
        labels_from(b, s),
    ensures
        forall|j: int| s <= j < b.len() ==> #[trigger] b[j] < 0x80,
    decreases b.len() - s,
{
    lemma_next_dot(b, s);
    let e = next_dot(b, s);
    if e < b.len() {
        lemma_labels_ascii(b, e + 1);
    }
    assert forall|j: int| s <= j < b.len() implies #[trigger] b[j] < 0x80 by {
        if j < e {
            assert(is_alnum(b[j]) || b[j] == CH_HYPHEN);
        }
    }
}

proof fn lemma_octets_ascii(b: Seq<u8>, s: int, k: nat)
    requires
        octets_from(b, s, k),
    ensures
        forall|j: int| s <= j < b.len() ==> #[trigger] b[j] < 0x80,
    decreases k,
{
    lemma_next_dot(b, s);
    let e = next_dot(b, s);
    if k > 1 {
        lemma_octets_ascii(b, e + 1, (k - 1) as nat);
    }
    assert forall|j: int| s <= j < b.len() implies #[trigger] b[j] < 0x80 by {
        if j < e {
            assert(is_dec(b[j]));
        }
    }
}

/// An address is ASCII.
pub proof fn lemma_valid_host_ascii(b: Seq<u8>)
    requires
        valid_host(b),
    ensures
        forall|j: int| 0 <= j < b.len() ==> #[trigger] b[j] < 0x80,
{
    if is_ipv4(b) {
        lemma_octets_ascii(b, 0, 4);
    } else {
        lemma_labels_ascii(b, 0);
    }
}

} // verus!
