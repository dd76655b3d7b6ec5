//! This client's peer id, and the state of a connection to a peer.

use vstd::prelude::*;
use crate::tracker::ResponsePeerInfo;

verus! {

/// `-NH0001-`: the client and its version.
pub open spec fn peer_id_prefix() -> Seq<u8> {
    seq![0x2du8, 0x4e, 0x48, 0x30, 0x30, 0x30, 0x31, 0x2d]
}

/// An ASCII letter or digit.
pub open spec fn is_alphanumeric(b: u8) -> bool {
    (0x30 <= b <= 0x39) || (0x41 <= b <= 0x5a) || (0x61 <= b <= 0x7a)
}

/// Relies on `rand::thread_rng` sampled with `rand::distributions::Alphanumeric`
/// (rand 0.8): `n` bytes, each an ASCII letter or digit.
#[verifier::external_body]
fn random_alphanumeric(n: usize) -> (r: Vec<u8>)
    ensures
        r@.len() == n,
        forall|i: int| 0 <= i < n ==> is_alphanumeric(#[trigger] r@[i]),
{
    rand::Rng::sample_iter(rand::thread_rng(), rand::distributions::Alphanumeric).take(
        n,
    ).collect::<Vec<u8>>()
}

/// The peer id made of the client prefix and a 12-byte suffix.
pub fn peer_id_with_suffix(suffix: &[u8; 12]) -> (r: [u8; 20])
    ensures
        r@ == peer_id_prefix() + suffix@,
{
    let mut id: [u8; 20] = [0x2du8, 0x4e, 0x48, 0x30, 0x30, 0x30, 0x31, 0x2d, 0, 0, 0, 0, 0, 0, 0, 0, 0, 0, 0, 0];
    let mut i: usize = 0;
    while i < 12
        invariant
            i <= 12,
            id@.take(8) == peer_id_prefix(),
            id@.len() == 20,
            forall|j: int| 0 <= j < i ==> id@[8 + j] == suffix@[j],
        decreases 12 - i,
    {
        id[8 + i] = suffix[i];
        i = i + 1;
    }
    assert(id@ =~= peer_id_prefix() + suffix@);
    id
}

/// A fresh peer id: the client prefix followed by 12 random letters and digits.
pub fn gen_peer_id() -> (r: [u8; 20])
    ensures
        r@.take(8) == peer_id_prefix(),
        forall|i: int| 8 <= i < 20 ==> is_alphanumeric(#[trigger] r@[i]),
{
    let v = random_alphanumeric(12);
    let mut suffix: [u8; 12] = [0; 12];
    let mut i: usize = 0;
    while i < 12
        invariant
            i <= 12,
            v@.len() == 12,
            suffix@.len() == 12,
            forall|j: int| 0 <= j < 12 ==> is_alphanumeric(#[trigger] v@[j]),
            forall|j: int| 0 <= j < i ==> suffix@[j] == v@[j],
        decreases 12 - i,
    {
        suffix[i] = v[i];
        i = i + 1;
    }
    let r = peer_id_with_suffix(&suffix);
    assert(r@.take(8) =~= peer_id_prefix());
    assert forall|i: int| 8 <= i < 20 implies is_alphanumeric(#[trigger] r@[i]) by {
        assert(r@[i] == suffix@[i - 8]);
        assert(suffix@[i - 8] == v@[i - 8]);
    }
    r
}

/// A connection to a peer after a validated handshake.
#[derive(Debug, Clone, PartialEq, Eq)]
pub struct PeerConnection {
    pub am_choking: bool,
    pub am_interested: bool,
    pub peer_choking: bool,
    pub peer_interested: bool,
    pub peer: ResponsePeerInfo,
}

impl PeerConnection {
    /// A new connection: both sides choking, neither interested.
    pub fn new(peer: ResponsePeerInfo) -> (r: PeerConnection)
        ensures
            r.am_choking && r.peer_choking,
            !r.am_interested && !r.peer_interested,
            r.peer == peer,
    {
        PeerConnection {
            am_choking: true,
            am_interested: false,
            peer_choking: true,
            peer_interested: false,
            peer,
        }
    }
}

} // verus!
