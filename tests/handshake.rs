use torrent_core::handshake::{
    create_handshake, AttemptAction, AttemptEvent, FixedRead, HandshakeAttempt, HandshakeError,
    HandshakeReceiver, HandshakeStatus, ReadEvent, ReadStep,
};

fn hash() -> [u8; 20] {
    let mut h = [0u8; 20];
    for (i, b) in h.iter_mut().enumerate() {
        *b = (i as u8) * 7 + 1;
    }
    h
}

fn reply(h: &[u8; 20]) -> Vec<u8> {
    let mut r = vec![19u8];
    r.extend_from_slice(b"BitTorrent protocol");
    r.extend_from_slice(&[0u8; 8]);
    r.extend_from_slice(h);
    r
}

#[test]
fn handshake_is_68_bytes_with_zero_reserved() {
    let id = *b"-NH0001-abcdefghijkl";
    let m = create_handshake(&hash(), &id);
    assert_eq!(m.len(), 68);
    assert_eq!(m[0], 19);
    assert_eq!(&m[1..20], b"BitTorrent protocol");
    assert_eq!(&m[20..28], &[0u8; 8]);
    assert_eq!(&m[28..48], &hash());
    assert_eq!(&m[48..68], &id);
}

#[test]
fn wrong_pstrlen_is_rejected_after_one_byte() {
    let mut r = HandshakeReceiver::new(&hash(), false);
    assert_eq!(r.status(), HandshakeStatus::Reading(1));
    let st = r.on_event(ReadEvent::Data(vec![20]));
    assert_eq!(st, HandshakeStatus::Failed(HandshakeError::ProtocolMismatch));
}

#[test]
fn differing_info_hash_is_rejected() {
    let h = hash();
    let mut other = h;
    other[19] ^= 1;
    let bytes = reply(&other);
    let mut r = HandshakeReceiver::new(&h, false);
    assert_eq!(r.on_event(ReadEvent::Data(bytes[..1].to_vec())), HandshakeStatus::Reading(47));
    let st = r.on_event(ReadEvent::Data(bytes[1..].to_vec()));
    assert_eq!(st, HandshakeStatus::Failed(HandshakeError::InfoHashMismatch));
}

#[test]
fn matching_reply_validates_one_byte_at_a_time() {
    let h = hash();
    let bytes = reply(&h);
    let mut r = HandshakeReceiver::new(&h, false);
    let mut last = r.status();
    for (i, b) in bytes.iter().enumerate() {
        match last {
            HandshakeStatus::Reading(n) => assert!(n >= 1),
            other => panic!("stopped early at {}: {:?}", i, other),
        }
        last = r.on_event(ReadEvent::Data(vec![*b]));
    }
    assert_eq!(last, HandshakeStatus::Validated);
}

#[test]
fn fixed_read_assembles_single_byte_fragments() {
    let data: Vec<u8> = (0u8..20).collect();
    let mut fr = FixedRead::new(20);
    for (i, b) in data.iter().enumerate() {
        let step = fr.on_event(ReadEvent::Data(vec![*b]));
        if i < 19 {
            assert_eq!(step, ReadStep::More(19 - i));
        } else {
            assert_eq!(step, ReadStep::Done);
        }
    }
    assert_eq!(fr.bytes(), &data);
}

#[test]
fn close_after_five_of_twenty_bytes() {
    let mut fr = FixedRead::new(20);
    assert_eq!(fr.on_event(ReadEvent::Data(vec![1, 2, 3, 4, 5])), ReadStep::More(15));
    assert_eq!(fr.on_event(ReadEvent::Closed), ReadStep::Failed(HandshakeError::ConnectionClosed));
    assert_eq!(fr.bytes(), &vec![1, 2, 3, 4, 5]);

    let h = hash();
    let bytes = reply(&h);
    let mut r = HandshakeReceiver::new(&h, false);
    r.on_event(ReadEvent::Data(bytes[..1].to_vec()));
    r.on_event(ReadEvent::Data(bytes[1..33].to_vec()));
    let st = r.on_event(ReadEvent::Data(Vec::new()));
    assert_eq!(st, HandshakeStatus::Failed(HandshakeError::ConnectionClosed));
}

#[test]
fn transport_error_is_io() {
    let mut r = HandshakeReceiver::new(&hash(), false);
    assert_eq!(r.on_event(ReadEvent::Failed), HandshakeStatus::Failed(HandshakeError::Io));
    let mut fr = FixedRead::new(3);
    assert_eq!(fr.remaining(), 3);
    assert_eq!(fr.on_event(ReadEvent::Failed), ReadStep::Failed(HandshakeError::Io));
}

#[test]
fn protocol_identifier_strictness() {
    let h = hash();
    let mut bytes = reply(&h);
    bytes[1..20].copy_from_slice(b"SomeOther protocol!");
    let mut lenient = HandshakeReceiver::new(&h, false);
    lenient.on_event(ReadEvent::Data(bytes[..1].to_vec()));
    assert_eq!(lenient.on_event(ReadEvent::Data(bytes[1..].to_vec())), HandshakeStatus::Validated);
    let mut strict = HandshakeReceiver::new(&h, true);
    strict.on_event(ReadEvent::Data(bytes[..1].to_vec()));
    assert_eq!(
        strict.on_event(ReadEvent::Data(bytes[1..].to_vec())),
        HandshakeStatus::Failed(HandshakeError::ProtocolMismatch)
    );
    let good = reply(&h);
    let mut strict = HandshakeReceiver::new(&h, true);
    strict.on_event(ReadEvent::Data(good[..1].to_vec()));
    assert_eq!(strict.on_event(ReadEvent::Data(good[1..].to_vec())), HandshakeStatus::Validated);
}

#[test]
fn attempt_runs_connect_send_read() {
    let h = hash();
    let id = *b"-NH0001-abcdefghijkl";
    let mut a = HandshakeAttempt::new(&h, &id, false);
    assert_eq!(a.action(), AttemptAction::Connect);
    assert_eq!(a.on_event(AttemptEvent::Connected), AttemptAction::Send);
    assert_eq!(a.message(), &create_handshake(&h, &id));
    assert_eq!(a.on_event(AttemptEvent::Sent), AttemptAction::Read(1));
    let bytes = reply(&h);
    assert_eq!(a.on_event(AttemptEvent::Read(ReadEvent::Data(bytes[..1].to_vec()))), AttemptAction::Read(47));
    assert_eq!(
        a.on_event(AttemptEvent::Read(ReadEvent::Data(bytes[1..].to_vec()))),
        AttemptAction::Finished(Ok(()))
    );

    let mut refused = HandshakeAttempt::new(&h, &id, false);
    assert_eq!(
        refused.on_event(AttemptEvent::ConnectFailed),
        AttemptAction::Finished(Err(HandshakeError::Io))
    );
    let mut cut = HandshakeAttempt::new(&h, &id, false);
    cut.on_event(AttemptEvent::Connected);
    cut.on_event(AttemptEvent::Sent);
    assert_eq!(
        cut.on_event(AttemptEvent::Read(ReadEvent::Closed)),
        AttemptAction::Finished(Err(HandshakeError::ConnectionClosed))
    );
}

#[test]
fn attempt_read_moves_the_receiver() {
    let h = hash();
    let id = *b"-NH0001-abcdefghijkl";
    let mut a = HandshakeAttempt::new(&h, &id, false);
    a.on_event(AttemptEvent::Connected);
    a.on_event(AttemptEvent::Sent);
    let mut bad = reply(&h);
    bad[0] = 20;
    assert_eq!(
        a.on_event(AttemptEvent::Read(ReadEvent::Data(bad[..1].to_vec()))),
        AttemptAction::Finished(Err(HandshakeError::ProtocolMismatch))
    );
    let mut b = HandshakeAttempt::new(&h, &id, false);
    b.on_event(AttemptEvent::Connected);
    b.on_event(AttemptEvent::Sent);
    let good = reply(&h);
    for byte in good.iter().take(47) {
        match b.on_event(AttemptEvent::Read(ReadEvent::Data(vec![*byte]))) {
            AttemptAction::Read(n) => assert!(n >= 1),
            other => panic!("unexpected {:?}", other),
        }
    }
    assert_eq!(
        b.on_event(AttemptEvent::Read(ReadEvent::Data(vec![good[47]]))),
        AttemptAction::Finished(Ok(()))
    );
}
