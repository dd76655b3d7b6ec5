use torrent_core::peer::{gen_peer_id, peer_id_with_suffix, PeerConnection};
use torrent_core::tracker::ResponsePeerInfo;

#[test]
fn generated_peer_id_shape() {
    let id = gen_peer_id();
    assert_eq!(&id[..8], b"-NH0001-");
    assert!(id[8..].iter().all(|b| b.is_ascii_alphanumeric()));
    let other = gen_peer_id();
    assert_eq!(&other[..8], b"-NH0001-");
}

#[test]
fn peer_id_from_suffix() {
    assert_eq!(&peer_id_with_suffix(b"abcdefghijkl"), b"-NH0001-abcdefghijkl");
}

#[test]
fn new_connection_flags() {
    let peer = ResponsePeerInfo { peer_id: None, ip: String::from("10.0.0.1"), port: 6881 };
    let c = PeerConnection::new(peer.clone());
    assert!(c.am_choking && c.peer_choking);
    assert!(!c.am_interested && !c.peer_interested);
    assert_eq!(c.peer, peer);
}
