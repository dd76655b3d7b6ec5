use torrent_core::decode::DecodeError;
use torrent_core::fields::FieldError;
use torrent_core::tracker::{
    announce_outcome, announce_url, EventType, PeerEntryError, ResponseField, TrackerError,
    TrackerRequest, TrackerResponse,
};
use torrent_core::decode::decode;

fn request(info_hash: [u8; 20], event: Option<EventType>) -> TrackerRequest {
    TrackerRequest::new(*b"-NH0001-abcdefghijkl", 6881, 1, 2, 300, info_hash, event)
}

#[test]
fn event_names() {
    assert_eq!(EventType::Started.as_str(), "started");
    assert_eq!(EventType::Stopped.as_str(), "stopped");
    assert_eq!(EventType::Completed.as_str(), "completed");
}

#[test]
fn reserved_hash_bytes_are_percent_encoded() {
    let mut h = [b'a'; 20];
    h[0] = 0x00;
    h[1] = 0x2f;
    h[2] = b' ';
    let q = request(h, None).get_query_string();
    assert!(q.starts_with("info_hash=%00%2F%20aaaaaaaaaaaaaaaaa&"));
    assert!(!q.contains('+'));
    assert!(!q.contains(' '));
    assert!(!q.contains('/'));
    assert!(!q.contains('\0'));
}

#[test]
fn query_string_layout() {
    let h = [0x41u8; 20];
    let q = request(h, Some(EventType::Started)).get_query_string();
    assert_eq!(
        q,
        "info_hash=AAAAAAAAAAAAAAAAAAAA&peer_id=-NH0001-abcdefghijkl&port=6881&uploaded=1&downloaded=2&left=300&event=started"
    );
    let mut r = request(h, None);
    r.compact = Some(true);
    r.no_peer_id = Some(false);
    assert!(r.get_query_string().ends_with("&left=300&compact=1&no_peer_id=0"));
}

#[test]
fn full_announce_url() {
    let url = announce_url(&String::from("http://tracker.test/announce"), &request([0x41u8; 20], None));
    assert!(url.starts_with("http://tracker.test/announce?info_hash=AAAA"));
}

#[test]
fn response_with_peers() {
    let body = b"d8:completei5e10:incompletei3e8:intervali1800e5:peersld2:ip9:127.0.0.17:peer id20:ABCDEFGHIJKLMNOPQRST4:porti6881eed2:ip4:host4:porti70000eed4:porti1eeee";
    let resp = announce_outcome(body).unwrap();
    assert_eq!(resp.interval, Some(1800));
    assert_eq!(resp.complete, Some(5));
    assert_eq!(resp.incomplete, Some(3));
    assert_eq!(resp.failure_reason, None);
    let peers = resp.peers.unwrap();
    assert_eq!(peers.len(), 3);
    let p = peers[0].as_ref().unwrap();
    assert_eq!(p.ip, "127.0.0.1");
    assert_eq!(p.port, 6881);
    assert_eq!(p.peer_id.as_deref(), Some(&b"ABCDEFGHIJKLMNOPQRST"[..]));
    assert_eq!(peers[1], Err(PeerEntryError::PortOutOfRange));
    assert_eq!(peers[2], Err(PeerEntryError::Ip(FieldError::Missing)));
}

#[test]
fn failure_reason_is_a_tracker_failure() {
    let body = b"d14:failure reason9:not foundee";
    assert_eq!(announce_outcome(&body[..body.len() - 1]), Err(TrackerError::Failure(String::from("not found"))));
    let v = decode(&body[..body.len() - 1]).unwrap();
    let resp = TrackerResponse::from_bencode(&v).unwrap();
    assert_eq!(resp.failure_reason.as_deref(), Some("not found"));
}

#[test]
fn response_errors() {
    assert_eq!(announce_outcome(b"<html>"), Err(TrackerError::Decode(DecodeError::UnexpectedByte)));
    assert_eq!(announce_outcome(b"le"), Err(TrackerError::NotADictionary));
    assert_eq!(
        announce_outcome(b"d8:interval3:abce"),
        Err(TrackerError::InvalidField(ResponseField::Interval))
    );
    assert_eq!(
        announce_outcome(b"d5:peers6:abcdefe"),
        Err(TrackerError::InvalidField(ResponseField::Peers))
    );
}

#[test]
fn peer_entry_errors() {
    let body = b"d5:peersli1ed2:ipi1e4:porti1eed2:ip1:h4:port1:xed7:peer idi1e2:ip1:h4:porti1eed2:ip1:heee";
    let peers = announce_outcome(body).unwrap().peers.unwrap();
    assert_eq!(peers[0], Err(PeerEntryError::NotADictionary));
    assert_eq!(peers[1], Err(PeerEntryError::Ip(FieldError::WrongType)));
    assert_eq!(peers[2], Err(PeerEntryError::Port(FieldError::WrongType)));
    assert_eq!(peers[3], Err(PeerEntryError::PeerId(FieldError::WrongType)));
    assert_eq!(peers[4], Err(PeerEntryError::Port(FieldError::Missing)));
}

#[test]
fn peer_address_must_be_a_host() {
    let body = b"d5:peersld2:ip0:4:porti1eed2:ip8:a b!c/de4:porti1eed2:ip7:[::1]:04:porti2eed2:ip1:[4:porti2eed2:ip1:-4:porti2eed2:ip2:..4:porti2eeee";
    let peers = announce_outcome(body).unwrap().peers.unwrap();
    assert_eq!(peers.len(), 6);
    for p in &peers {
        assert_eq!(*p, Err(PeerEntryError::BadAddress));
    }
}

#[test]
fn peer_address_forms() {
    let addrs: [(&str, bool); 12] = [
        ("127.0.0.1", true),
        ("255.255.255.255", true),
        ("0.0.0.0", true),
        ("256.1.1.1", false),
        ("1.2.3", false),
        ("1.2.3.4.5", false),
        ("01.2.3.4", false),
        ("tracker.example.org", true),
        ("localhost", true),
        ("a-b.c", true),
        ("-ab.c", false),
        ("ab-.c", false),
    ];
    for (ip, ok) in addrs.iter() {
        let body = format!("d5:peersld2:ip{}:{}4:porti80eeee", ip.len(), ip);
        let peers = announce_outcome(body.as_bytes()).unwrap().peers.unwrap();
        if *ok {
            assert_eq!(peers[0].as_ref().unwrap().ip, *ip, "{}", ip);
        } else {
            assert_eq!(peers[0], Err(PeerEntryError::BadAddress), "{}", ip);
        }
    }
    let long_label = "a".repeat(64);
    let body = format!("d5:peersld2:ip{}:{}4:porti80eeee", long_label.len(), long_label);
    let peers = announce_outcome(body.as_bytes()).unwrap().peers.unwrap();
    assert_eq!(peers[0], Err(PeerEntryError::BadAddress));
}

#[test]
fn every_reserved_byte_is_escaped() {
    let mut h = [0u8; 20];
    let specials = [0x00u8, 0x2f, 0x20, 0x26, 0x3d, 0x25, 0x2b, 0x23, 0x3f, 0x80, 0xff, 0x7e];
    h[..specials.len()].copy_from_slice(&specials);
    h[12..20].copy_from_slice(b"aZ09-._*");
    let q = request(h, None).get_query_string();
    let start = "info_hash=".len();
    let end = q.find("&peer_id=").unwrap();
    assert_eq!(&q[start..end], "%00%2F%20%26%3D%25%2B%23%3F%80%FF%7EaZ09-._*");
}
