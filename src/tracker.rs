//! Tracker announce: the query string of a request, and the decoding of the
//! tracker's bencoded response.

use vstd::prelude::*;
use vstd::string::is_ascii;
use vstd::utf8::decode_utf8;
use crate::bencode::{nat_digits, push_decimal, CH_ZERO};
use crate::host::{check_host, lemma_valid_host_ascii, valid_host};
use crate::text::{ascii_bytes, ascii_to_string, is_ascii_bytes, push_str};
use crate::bencode::{lemma_view_list, view_list, BValue, BencodeValue};
use crate::decode::{decode, spec_decode, DecodeError};
use crate::fields::{
    as_bytes, as_int, bencode_string_unwrap_bytes, bencode_unwrap_number, key, lookup,
    maybe_get_field, opt_int, opt_int_field, opt_text, opt_text_field, FieldError,
};

verus! {

/// The lifecycle event that an announce reports.
#[derive(Debug, Clone, Copy, PartialEq, Eq, Structural)]
pub enum EventType {
    Started,
    Stopped,
    Completed,
}

pub open spec fn event_name(e: EventType) -> Seq<char> {
    match e {
        EventType::Started => "started"@,
        EventType::Stopped => "stopped"@,
        EventType::Completed => "completed"@,
    }
}

impl EventType {
    /// The name the tracker expects for the event.
    pub fn as_str(&self) -> (r: &'static str)
        ensures
            r@ == event_name(*self),
            is_ascii(r),
    {
        match self {
            EventType::Started => {
                proof {
                    reveal_strlit("started");
                }
                "started"
            },
            EventType::Stopped => {
                proof {
                    reveal_strlit("stopped");
                }
                "stopped"
            },
            EventType::Completed => {
                proof {
                    reveal_strlit("completed");
                }
                "completed"
            },
        }
    }
}

/// Bytes that percent-encoding leaves unchanged: ASCII letters, digits and
/// `* - . _`.
pub open spec fn unreserved(b: u8) -> bool {
    ||| b == 0x2a
    ||| b == 0x2d
    ||| b == 0x2e
    ||| 0x30 <= b <= 0x39
    ||| 0x41 <= b <= 0x5a
    ||| b == 0x5f
    ||| 0x61 <= b <= 0x7a
}

/// An upper-case hexadecimal digit.
pub open spec fn hex_upper(d: u8) -> u8 {
    if d < 10 {
        (CH_ZERO + d) as u8
    } else {
        (0x41 + d - 10) as u8
    }
}

/// Percent-encoding of one byte: an unreserved byte stays, any other byte
/// (a space included) becomes `%` and two upper-case hexadecimal digits.
pub open spec fn percent_encode_byte(b: u8) -> Seq<u8> {
    if unreserved(b) {
        seq![b]
    } else {
        seq![0x25u8, hex_upper(b / 16), hex_upper(b % 16)]
    }
}

pub open spec fn percent_encode(s: Seq<u8>) -> Seq<u8>
    decreases s.len(),
{
    if s.len() == 0 {
        seq![]
    } else {
        percent_encode_byte(s[0]) + percent_encode(s.drop_first())
    }
}

/// The value of a hexadecimal digit of either case, or -1.
pub open spec fn hex_val(c: u8) -> int {
    if 0x30 <= c <= 0x39 {
        c - 0x30
    } else if 0x41 <= c <= 0x46 {
        c - 0x41 + 10
    } else if 0x61 <= c <= 0x66 {
        c - 0x61 + 10
    } else {
        -1
    }
}

/// Percent-decoding: `%` and two hexadecimal digits give one byte; any other
/// byte stands for itself.
pub open spec fn percent_decode(s: Seq<u8>) -> Seq<u8>
    decreases s.len(),
{
    if s.len() == 0 {
        seq![]
    } else if s[0] == 0x25 && s.len() >= 3 && hex_val(s[1]) >= 0 && hex_val(s[2]) >= 0 {
        seq![(hex_val(s[1]) * 16 + hex_val(s[2])) as u8] + percent_decode(s.subrange(3, s.len() as int))
    } else {
        seq![s[0]] + percent_decode(s.drop_first())
    }
}

/// Everything `percent_encode` emits is an unreserved byte or `%`: no other
/// byte of the input, a space included, ever appears raw.
pub proof fn lemma_percent_encode_escapes(s: Seq<u8>)
    ensures
        forall|j: int|
            0 <= j < percent_encode(s).len() ==> {
                let c = #[trigger] percent_encode(s)[j];
                unreserved(c) || c == 0x25
            },
    decreases s.len(),
{
    if s.len() > 0 {
        lemma_percent_encode_escapes(s.drop_first());
        let h = percent_encode_byte(s[0]);
        let t = percent_encode(s.drop_first());
        assert(percent_encode(s) == h + t);
        assert forall|j: int| 0 <= j < percent_encode(s).len() implies {
            let c = #[trigger] percent_encode(s)[j];
            unreserved(c) || c == 0x25
        } by {
            if j >= h.len() {
                assert(percent_encode(s)[j] == t[j - h.len()]);
            } else if !unreserved(s[0]) {
                assert(s[0] / 16 < 16 && s[0] % 16 < 16);
            }
        }
    }
}

proof fn lemma_percent_decode_prefix(s: Seq<u8>, t: Seq<u8>)
    ensures
        percent_decode(percent_encode(s) + t) == s + percent_decode(t),
    decreases s.len(),
{
    if s.len() == 0 {
        assert(percent_encode(s) + t =~= t);
        assert(s + percent_decode(t) =~= percent_decode(t));
    } else {
        let b = s[0];
        let rest = s.drop_first();
        let h = percent_encode_byte(b);
        let u = percent_encode(rest) + t;
        lemma_percent_decode_prefix(rest, t);
        assert(percent_encode(s) + t =~= h + u);
        if unreserved(b) {
            assert((h + u).drop_first() =~= u);
        } else {
            let hi = b / 16;
            let lo = b % 16;
            assert(hi < 16 && lo < 16);
            assert(hex_val(hex_upper(hi)) == hi);
            assert(hex_val(hex_upper(lo)) == lo);
            assert(hi * 16 + lo == b);
            assert((h + u).subrange(3, (h + u).len() as int) =~= u);
        }
        assert(s + percent_decode(t) =~= seq![b] + (rest + percent_decode(t)));
    }
}

/// Percent-decoding the encoding of any bytes gives those bytes back.
pub proof fn lemma_percent_round_trip(s: Seq<u8>)
    ensures
        percent_decode(percent_encode(s)) == s,
{
    lemma_percent_decode_prefix(s, seq![]);
    assert(percent_encode(s) + Seq::<u8>::empty() =~= percent_encode(s));
    assert(s + percent_decode(Seq::<u8>::empty()) =~= s);
}

proof fn lemma_percent_encode_push(a: Seq<u8>, x: u8)
    ensures
        percent_encode(a.push(x)) == percent_encode(a) + percent_encode_byte(x),
    decreases a.len(),
{
    if a.len() == 0 {
        assert(a.push(x).drop_first() =~= Seq::<u8>::empty());
        assert(a.push(x)[0] == x);
        assert(percent_encode(a.push(x)) == percent_encode_byte(x) + percent_encode(
            Seq::<u8>::empty(),
        ));
        assert(percent_encode(a) == Seq::<u8>::empty());
        assert(percent_encode(a.push(x)) =~= percent_encode(a) + percent_encode_byte(x));
    } else {
        lemma_percent_encode_push(a.drop_first(), x);
        assert(a.push(x).drop_first() =~= a.drop_first().push(x));
        assert(a.push(x)[0] == a[0]);
        assert(percent_encode(a.push(x)) == percent_encode_byte(a[0]) + percent_encode(
            a.push(x).drop_first(),
        ));
        assert(percent_encode(a) == percent_encode_byte(a[0]) + percent_encode(a.drop_first()));
        assert(percent_encode(a.push(x)) =~= percent_encode(a) + percent_encode_byte(x));
    }
}

fn hex_digit(d: u8) -> (r: u8)
    requires
        d < 16,
    ensures
        r == hex_upper(d),
{
    if d < 10 {
        CH_ZERO + d
    } else {
        0x41 + d - 10
    }
}

/// One announce request.
#[derive(Debug, Clone, PartialEq, Eq)]
pub struct TrackerRequest {
    /// SHA-1 of the canonical encoding of the torrent's info dictionary.
    pub info_hash: [u8; 20],
    /// This client's id.
    pub peer_id: [u8; 20],
    /// The port this client listens on.
    pub port: u16,
    /// Bytes uploaded since the `started` event.
    pub uploaded: u64,
    /// Bytes downloaded since the `started` event.
    pub downloaded: u64,
    /// Bytes still to download.
    pub left: u64,
    /// Whether a compact peer list is accepted.
    pub compact: Option<bool>,
    /// Whether peer ids may be left out of the peer list.
    pub no_peer_id: Option<bool>,
    pub event: Option<EventType>,
}

pub open spec fn flag_param(name: Seq<char>, f: Option<bool>) -> Seq<u8> {
    match f {
        None => seq![],
        Some(b) => ascii_bytes(name) + if b {
            seq![0x31u8]
        } else {
            seq![0x30u8]
        },
    }
}

/// The announce query: `info_hash` and `peer_id` percent-encoded byte for
/// byte, the counters in decimal, then the optional flags and event.
pub open spec fn query_bytes(r: TrackerRequest) -> Seq<u8> {
    ascii_bytes("info_hash="@) + percent_encode(r.info_hash@) + ascii_bytes("&peer_id="@)
        + percent_encode(r.peer_id@) + ascii_bytes("&port="@) + nat_digits(r.port as nat)
        + ascii_bytes("&uploaded="@) + nat_digits(r.uploaded as nat) + ascii_bytes(
        "&downloaded="@,
    ) + nat_digits(r.downloaded as nat) + ascii_bytes("&left="@) + nat_digits(r.left as nat)
        + flag_param("&compact="@, r.compact) + flag_param("&no_peer_id="@, r.no_peer_id)
        + match r.event {
        None => seq![],
        Some(e) => ascii_bytes("&event="@) + ascii_bytes(event_name(e)),
    }
}


proof fn lemma_ascii_concat(a: Seq<u8>, b: Seq<u8>)
    requires
        is_ascii_bytes(a),
        is_ascii_bytes(b),
    ensures
        is_ascii_bytes(a + b),
{
    assert forall|i: int| 0 <= i < (a + b).len() implies #[trigger] (a + b)[i] < 0x80 by {
        if i < a.len() {
            assert((a + b)[i] == a[i]);
        } else {
            assert((a + b)[i] == b[i - a.len()]);
        }
    }
}

proof fn lemma_digits_ascii(n: nat)
    ensures
        is_ascii_bytes(nat_digits(n)),
    decreases n,
{
    if n >= 10 {
        lemma_digits_ascii(n / 10);
        assert(n % 10 < 10);
        lemma_ascii_concat(nat_digits(n / 10), seq![(CH_ZERO + n % 10) as u8]);
    }
}

fn push_ascii(out: &mut Vec<u8>, s: &str)
    requires
        is_ascii(s),
        is_ascii_bytes(old(out)@),
    ensures
        final(out)@ == old(out)@ + ascii_bytes(s@),
        is_ascii_bytes(final(out)@),
{
    push_str(out, s);
    assert(is_ascii_bytes(ascii_bytes(s@))) by {
        assert forall|i: int| 0 <= i < s@.len() implies #[trigger] ascii_bytes(s@)[i] < 0x80 by {
            assert('\0' <= s@[i] <= '\u{7f}');
        }
    }
    proof {
        lemma_ascii_concat(old(out)@, ascii_bytes(s@));
    }
}

fn push_number(out: &mut Vec<u8>, n: u64)
    requires
        is_ascii_bytes(old(out)@),
    ensures
        final(out)@ == old(out)@ + nat_digits(n as nat),
        is_ascii_bytes(final(out)@),
{
    push_decimal(n, out);
    proof {
        lemma_digits_ascii(n as nat);
        lemma_ascii_concat(old(out)@, nat_digits(n as nat));
    }
}

fn push_encoded(out: &mut Vec<u8>, b: &[u8])
    requires
        is_ascii_bytes(old(out)@),
    ensures
        final(out)@ == old(out)@ + percent_encode(b@),
        is_ascii_bytes(final(out)@),
{
    let mut i: usize = 0;
    assert(b@.take(0) =~= Seq::<u8>::empty());
    assert(old(out)@ + percent_encode(Seq::<u8>::empty()) =~= old(out)@);
    while i < b.len()
        invariant
            i <= b@.len(),
            out@ == old(out)@ + percent_encode(b@.take(i as int)),
            is_ascii_bytes(out@),
        decreases b@.len() - i,
    {
        let c = b[i];
        let ghost before = out@;
        if (c == 0x2a || c == 0x2d || c == 0x2e || (0x30 <= c && c <= 0x39) || (0x41 <= c && c
            <= 0x5a) || c == 0x5f || (0x61 <= c && c <= 0x7a)) {
            out.push(c);
        } else {
            out.push(0x25);
            out.push(hex_digit(c / 16));
            out.push(hex_digit(c % 16));
        }
        proof {
            assert(out@ =~= before + percent_encode_byte(c));
            assert(b@.take(i + 1) =~= b@.take(i as int).push(c));
            lemma_percent_encode_push(b@.take(i as int), c);
            assert forall|j: int| 0 <= j < out@.len() implies #[trigger] out@[j] < 0x80 by {
                if j >= before.len() {
                    assert(c / 16 < 16 && c % 16 < 16);
                }
            }
        }
        i = i + 1;
    }
    assert(b@.take(i as int) =~= b@);
}

fn push_flag(out: &mut Vec<u8>, name: &str, f: Option<bool>)
    requires
        is_ascii(name),
        is_ascii_bytes(old(out)@),
    ensures
        final(out)@ == old(out)@ + flag_param(name@, f),
        is_ascii_bytes(final(out)@),
{
    match f {
        None => {
            assert(old(out)@ + flag_param(name@, f) =~= old(out)@);
        },
        Some(b) => {
            push_ascii(out, name);
            if b {
                out.push(0x31);
            } else {
                out.push(0x30);
            }
            proof {
                lemma_ascii_concat(old(out)@, flag_param(name@, f));
            }
            assert(out@ =~= old(out)@ + flag_param(name@, f));
        },
    }
}

impl TrackerRequest {
    /// A request with the given counters and event; the optional flags are unset.
    pub fn new(
        peer_id: [u8; 20],
        port: u16,
        ul: u64,
        dl: u64,
        left: u64,
        info_hash: [u8; 20],
        event: Option<EventType>,
    ) -> (r: TrackerRequest)
        ensures
            r == (TrackerRequest {
                info_hash,
                peer_id,
                port,
                uploaded: ul,
                downloaded: dl,
                left,
                compact: None,
                no_peer_id: None,
                event,
            }),
    {
        TrackerRequest {
            info_hash,
            peer_id,
            port,
            uploaded: ul,
            downloaded: dl,
            left,
            compact: None,
            no_peer_id: None,
            event,
        }
    }

    /// The query string of the announce, as `query_bytes` lays it out.
    pub fn get_query_string(&self) -> (r: String)
        ensures
            r@ == decode_utf8(query_bytes(*self)),
            is_ascii_bytes(query_bytes(*self)),
    {
        let mut out: Vec<u8> = Vec::new();
        proof {
            reveal_strlit("info_hash=");
            reveal_strlit("&peer_id=");
            reveal_strlit("&port=");
            reveal_strlit("&uploaded=");
            reveal_strlit("&downloaded=");
            reveal_strlit("&left=");
            reveal_strlit("&compact=");
            reveal_strlit("&no_peer_id=");
            reveal_strlit("&event=");
        }
        push_ascii(&mut out, "info_hash=");
        push_encoded(&mut out, self.info_hash.as_slice());
        push_ascii(&mut out, "&peer_id=");
        push_encoded(&mut out, self.peer_id.as_slice());
        push_ascii(&mut out, "&port=");
        push_number(&mut out, self.port as u64);
        push_ascii(&mut out, "&uploaded=");
        push_number(&mut out, self.uploaded);
        push_ascii(&mut out, "&downloaded=");
        push_number(&mut out, self.downloaded);
        push_ascii(&mut out, "&left=");
        push_number(&mut out, self.left);
        push_flag(&mut out, "&compact=", self.compact);
        push_flag(&mut out, "&no_peer_id=", self.no_peer_id);
        match self.event {
            None => {},
            Some(e) => {
                push_ascii(&mut out, "&event=");
                push_ascii(&mut out, e.as_str());
            },
        }
        assert(out@ =~= query_bytes(*self));
        ascii_to_string(out)
    }
}


/// The full announce URL: the tracker's announce URL, `?`, the query.
pub fn announce_url(announce: &String, req: &TrackerRequest) -> (r: String)
    ensures
        r@ == announce@ + "?"@ + decode_utf8(query_bytes(*req)),
{
    let q = req.get_query_string();
    let mut url = announce.clone();
    url.append("?");
    url.append(q.as_str());
    url
}

/// Why one entry of a tracker's peer list was not usable.
#[derive(Debug, Clone, Copy, PartialEq, Eq, Structural)]
pub enum PeerEntryError {
    NotADictionary,
    PeerId(FieldError),
    Ip(FieldError),
    Port(FieldError),
    /// The port is not in 0..=65535.
    PortOutOfRange,
    /// The `ip` value is neither a dotted-decimal IPv4 address nor a host name.
    BadAddress,
}

/// One peer of a tracker's dictionary-model peer list.
#[derive(Debug, Clone, PartialEq, Eq)]
pub struct ResponsePeerInfo {
    pub peer_id: Option<Vec<u8>>,
    /// Dotted-decimal address or host name.
    pub ip: String,
    pub port: u16,
}

pub struct PeerModel {
    pub peer_id: Option<Seq<u8>>,
    pub ip: Seq<char>,
    pub port: u16,
}

impl View for ResponsePeerInfo {
    type V = PeerModel;

    open spec fn view(&self) -> PeerModel {
        PeerModel {
            peer_id: match self.peer_id {
                Some(p) => Some(p@),
                None => None,
            },
            ip: self.ip@,
            port: self.port,
        }
    }
}

/// A peer entry: a dictionary with an optional `peer id` byte string, an
/// `ip` host name or address, and a `port` integer in 0..=65535.
pub open spec fn peer_entry(v: BValue) -> Result<PeerModel, PeerEntryError> {
    match v {
        BValue::Dict(es) => {
            let id = match lookup(es, ascii_bytes("peer id"@)) {
                None => Ok(None),
                Some(x) => match as_bytes(x) {
                    Ok(b) => Ok(Some(b)),
                    Err(e) => Err(e),
                },
            };
            match id {
                Err(e) => Err(PeerEntryError::PeerId(e)),
                Ok(id) => match lookup(es, ascii_bytes("ip"@)) {
                    None => Err(PeerEntryError::Ip(FieldError::Missing)),
                    Some(x) => match as_bytes(x) {
                        Err(e) => Err(PeerEntryError::Ip(e)),
                        Ok(ipb) => if !valid_host(ipb) {
                            Err(PeerEntryError::BadAddress)
                        } else {
                            match lookup(es, ascii_bytes("port"@)) {
                                None => Err(PeerEntryError::Port(FieldError::Missing)),
                                Some(y) => match as_int(y) {
                                    Err(e) => Err(PeerEntryError::Port(e)),
                                    Ok(p) => if 0 <= p <= 65535 {
                                        Ok(
                                            PeerModel {
                                                peer_id: id,
                                                ip: decode_utf8(ipb),
                                                port: p as u16,
                                            },
                                        )
                                    } else {
                                        Err(PeerEntryError::PortOutOfRange)
                                    },
                                },
                            }
                        },
                    },
                },
            }
        },
        _ => Err(PeerEntryError::NotADictionary),
    }
}

pub open spec fn entry_view(r: Result<ResponsePeerInfo, PeerEntryError>) -> Result<
    PeerModel,
    PeerEntryError,
> {
    match r {
        Ok(p) => Ok(p@),
        Err(e) => Err(e),
    }
}

impl ResponsePeerInfo {
    /// Reads one entry of a peer list.
    pub fn from_bencode(b: &BencodeValue) -> (r: Result<ResponsePeerInfo, PeerEntryError>)
        ensures
            entry_view(r) == peer_entry(b@),
    {
        proof {
            reveal_strlit("peer id");
            reveal_strlit("ip");
            reveal_strlit("port");
        }
        let map = match b {
            BencodeValue::Dict(m) => m,
            _ => {
                return Err(PeerEntryError::NotADictionary);
            },
        };
        let peer_id = match maybe_get_field(map, key("peer id")) {
            None => None,
            Some(x) => match bencode_string_unwrap_bytes(x) {
                Ok(v) => Some(v),
                Err(e) => {
                    return Err(PeerEntryError::PeerId(e));
                },
            },
        };
        let ip = match maybe_get_field(map, key("ip")) {
            None => {
                return Err(PeerEntryError::Ip(FieldError::Missing));
            },
            Some(x) => match bencode_string_unwrap_bytes(x) {
                Ok(b) => b,
                Err(e) => {
                    return Err(PeerEntryError::Ip(e));
                },
            },
        };
        if !check_host(ip.as_slice()) {
            return Err(PeerEntryError::BadAddress);
        }
        let port = match maybe_get_field(map, key("port")) {
            None => {
                return Err(PeerEntryError::Port(FieldError::Missing));
            },
            Some(y) => match bencode_unwrap_number(y) {
                Ok(p) => p,
                Err(e) => {
                    return Err(PeerEntryError::Port(e));
                },
            },
        };
        if port < 0 || port > 65535 {
            return Err(PeerEntryError::PortOutOfRange);
        }
        proof {
            lemma_valid_host_ascii(ip@);
        }
        Ok(ResponsePeerInfo { peer_id, ip: ascii_to_string(ip), port: port as u16 })
    }
}

/// A field of a tracker response.
#[derive(Debug, Clone, Copy, PartialEq, Eq, Structural)]
pub enum ResponseField {
    FailureReason,
    Interval,
    TrackerId,
    Complete,
    Incomplete,
    Peers,
}

/// Why an announce failed.
#[derive(Debug, Clone, PartialEq, Eq)]
pub enum TrackerError {
    /// The HTTP request failed or its status was not 2xx.
    Network,
    /// The body is not bencode.
    Decode(DecodeError),
    /// The body is not a dictionary.
    NotADictionary,
    /// A field is present with the wrong shape.
    InvalidField(ResponseField),
    /// The tracker reported a failure reason.
    Failure(String),
}

/// A decoded tracker response.
#[derive(Debug, Clone, PartialEq, Eq)]
pub struct TrackerResponse {
    /// When present, the announce failed and no peer list is meaningful.
    pub failure_reason: Option<String>,
    /// Seconds to wait before announcing again.
    pub interval: Option<i64>,
    /// To be echoed on later announces.
    pub tracker_id: Option<String>,
    /// Peers with the whole torrent.
    pub complete: Option<i64>,
    /// Peers still downloading.
    pub incomplete: Option<i64>,
    /// One result per entry of the peer list: a malformed entry is reported
    /// where it stands and does not affect the others.
    pub peers: Option<Vec<Result<ResponsePeerInfo, PeerEntryError>>>,
}

pub struct ResponseModel {
    pub failure_reason: Option<Seq<char>>,
    pub interval: Option<i64>,
    pub tracker_id: Option<Seq<char>>,
    pub complete: Option<i64>,
    pub incomplete: Option<i64>,
    pub peers: Option<Seq<Result<PeerModel, PeerEntryError>>>,
}

pub open spec fn opt_string_view(s: Option<String>) -> Option<Seq<char>> {
    match s {
        Some(x) => Some(x@),
        None => None,
    }
}

impl View for TrackerResponse {
    type V = ResponseModel;

    open spec fn view(&self) -> ResponseModel {
        ResponseModel {
            failure_reason: opt_string_view(self.failure_reason),
            interval: self.interval,
            tracker_id: opt_string_view(self.tracker_id),
            complete: self.complete,
            incomplete: self.incomplete,
            peers: match self.peers {
                Some(v) => Some(v@.map_values(|r: Result<ResponsePeerInfo, PeerEntryError>| entry_view(r))),
                None => None,
            },
        }
    }
}

/// The peer list: absent gives `None`; a list gives one result per entry.
pub open spec fn peer_list(es: Seq<(Seq<u8>, BValue)>) -> Result<
    Option<Seq<Result<PeerModel, PeerEntryError>>>,
    TrackerError,
> {
    match lookup(es, ascii_bytes("peers"@)) {
        None => Ok(None),
        Some(BValue::List(items)) => Ok(Some(items.map_values(|v: BValue| peer_entry(v)))),
        Some(_) => Err(TrackerError::InvalidField(ResponseField::Peers)),
    }
}

/// What a decoded response body means: a dictionary whose optional fields
/// each have the right shape.
pub open spec fn response_model(v: BValue) -> Result<ResponseModel, TrackerError> {
    match v {
        BValue::Dict(es) => match opt_text(es, ascii_bytes("failure reason"@)) {
            Err(_) => Err(TrackerError::InvalidField(ResponseField::FailureReason)),
            Ok(failure_reason) => match opt_int(es, ascii_bytes("interval"@)) {
                Err(_) => Err(TrackerError::InvalidField(ResponseField::Interval)),
                Ok(interval) => match opt_text(es, ascii_bytes("tracker id"@)) {
                    Err(_) => Err(TrackerError::InvalidField(ResponseField::TrackerId)),
                    Ok(tracker_id) => match opt_int(es, ascii_bytes("complete"@)) {
                        Err(_) => Err(TrackerError::InvalidField(ResponseField::Complete)),
                        Ok(complete) => match opt_int(es, ascii_bytes("incomplete"@)) {
                            Err(_) => Err(TrackerError::InvalidField(ResponseField::Incomplete)),
                            Ok(incomplete) => match peer_list(es) {
                                Err(e) => Err(e),
                                Ok(peers) => Ok(
                                    ResponseModel {
                                        failure_reason,
                                        interval,
                                        tracker_id,
                                        complete,
                                        incomplete,
                                        peers,
                                    },
                                ),
                            },
                        },
                    },
                },
            },
        },
        _ => Err(TrackerError::NotADictionary),
    }
}

fn read_peer_list(map: &Vec<(Vec<u8>, BencodeValue)>) -> (r: Result<
    Option<Vec<Result<ResponsePeerInfo, PeerEntryError>>>,
    TrackerError,
>)
    ensures
        match r {
            Ok(None) => peer_list(crate::bencode::view_entries(map@)) == Ok::<
                Option<Seq<Result<PeerModel, PeerEntryError>>>,
                TrackerError,
            >(None),
            Ok(Some(v)) => peer_list(crate::bencode::view_entries(map@)) == Ok::<
                Option<Seq<Result<PeerModel, PeerEntryError>>>,
                TrackerError,
            >(Some(v@.map_values(|r: Result<ResponsePeerInfo, PeerEntryError>| entry_view(r)))),
            Err(e) => peer_list(crate::bencode::view_entries(map@)) == Err::<
                Option<Seq<Result<PeerModel, PeerEntryError>>>,
                TrackerError,
            >(e),
        },
{
    proof {
        reveal_strlit("peers");
    }
    match maybe_get_field(map, key("peers")) {
        None => Ok(None),
        Some(BencodeValue::List(items)) => {
            let ghost vs = view_list(items@);
            proof {
                lemma_view_list(items@);
            }
            let mut out: Vec<Result<ResponsePeerInfo, PeerEntryError>> = Vec::new();
            let mut i: usize = 0;
            while i < items.len()
                invariant
                    i <= items@.len(),
                    vs == view_list(items@),
                    vs.len() == items@.len(),
                    forall|k: int| 0 <= k < items@.len() ==> #[trigger] vs[k] == items@[k]@,
                    out@.len() == i,
                    forall|k: int|
                        0 <= k < i ==> entry_view(#[trigger] out@[k]) == peer_entry(vs[k]),
                decreases items@.len() - i,
            {
                let e = ResponsePeerInfo::from_bencode(&items[i]);
                out.push(e);
                i = i + 1;
            }
            assert(out@.map_values(|r: Result<ResponsePeerInfo, PeerEntryError>| entry_view(r))
                =~= vs.map_values(|v: BValue| peer_entry(v)));
            Ok(Some(out))
        },
        Some(_) => Err(TrackerError::InvalidField(ResponseField::Peers)),
    }
}

impl TrackerResponse {
    /// Reads a decoded response body.
    pub fn from_bencode(b: &BencodeValue) -> (r: Result<TrackerResponse, TrackerError>)
        ensures
            match r {
                Ok(resp) => response_model(b@) == Ok::<ResponseModel, TrackerError>(resp@),
                Err(e) => response_model(b@) == Err::<ResponseModel, TrackerError>(e),
            },
    {
        proof {
            reveal_strlit("failure reason");
            reveal_strlit("interval");
            reveal_strlit("tracker id");
            reveal_strlit("complete");
            reveal_strlit("incomplete");
        }
        let map = match b {
            BencodeValue::Dict(m) => m,
            _ => {
                return Err(TrackerError::NotADictionary);
            },
        };
        let failure_reason = match opt_text_field(map, key("failure reason")) {
            Ok(x) => x,
            Err(_) => {
                return Err(TrackerError::InvalidField(ResponseField::FailureReason));
            },
        };
        let interval = match opt_int_field(map, key("interval")) {
            Ok(x) => x,
            Err(_) => {
                return Err(TrackerError::InvalidField(ResponseField::Interval));
            },
        };
        let tracker_id = match opt_text_field(map, key("tracker id")) {
            Ok(x) => x,
            Err(_) => {
                return Err(TrackerError::InvalidField(ResponseField::TrackerId));
            },
        };
        let complete = match opt_int_field(map, key("complete")) {
            Ok(x) => x,
            Err(_) => {
                return Err(TrackerError::InvalidField(ResponseField::Complete));
            },
        };
        let incomplete = match opt_int_field(map, key("incomplete")) {
            Ok(x) => x,
            Err(_) => {
                return Err(TrackerError::InvalidField(ResponseField::Incomplete));
            },
        };
        let peers = match read_peer_list(map) {
            Ok(p) => p,
            Err(e) => {
                return Err(e);
            },
        };
        Ok(TrackerResponse { failure_reason, interval, tracker_id, complete, incomplete, peers })
    }
}

/// Decodes an announce response body.  A body that is not bencode, not a
/// dictionary, or has a malformed field is an error; so is a response that
/// carries a failure reason, which is handed back as `Failure`.
pub fn announce_outcome(body: &[u8]) -> (r: Result<TrackerResponse, TrackerError>)
    ensures
        match spec_decode(body@) {
            Err(e) => r == Err::<TrackerResponse, TrackerError>(TrackerError::Decode(e)),
            Ok(v) => match response_model(v) {
                Err(e) => r == Err::<TrackerResponse, TrackerError>(e),
                Ok(m) => match m.failure_reason {
                    Some(reason) => r matches Err(TrackerError::Failure(s)) && s@ == reason,
                    None => r matches Ok(resp) && resp@ == m,
                },
            },
        },
{
    let v = match decode(body) {
        Ok(v) => v,
        Err(e) => {
            return Err(TrackerError::Decode(e));
        },
    };
    let resp = match TrackerResponse::from_bencode(&v) {
        Ok(resp) => resp,
        Err(e) => {
            return Err(e);
        },
    };
    match resp.failure_reason {
        Some(reason) => Err(TrackerError::Failure(reason)),
        None => Ok(resp),
    }
}

} // verus!
