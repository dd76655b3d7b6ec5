//! The peer-wire handshake: the outbound message, an exact-count reader that
//! tolerates partial reads, and the validation of a peer's reply.
//!
//! Reading is driven from outside: the caller performs each read of at most
//! the number of bytes asked for and hands what it got to `on_event`, which
//! answers with the next step.

use vstd::prelude::*;

verus! {

/// Length of the protocol identifier `BitTorrent protocol`.
pub const PSTRLEN: u8 = 19;

/// Length of the outbound handshake: 49 bytes plus the protocol identifier.
pub const HANDSHAKE_LEN: usize = 68;

/// Bytes of a reply that are read and checked: length byte, identifier,
/// reserved bytes and info-hash.
pub const REPLY_CHECKED_LEN: usize = 48;

/// Offset of the info-hash in a handshake.
pub const INFO_HASH_OFFSET: usize = 28;

/// `BitTorrent protocol` in ASCII.
pub open spec fn protocol_id() -> Seq<u8> {
    seq![
        0x42u8, 0x69, 0x74, 0x54, 0x6f, 0x72, 0x72, 0x65, 0x6e, 0x74, 0x20, 0x70, 0x72, 0x6f, 0x74,
        0x6f, 0x63, 0x6f, 0x6c,
    ]
}

/// Length prefix, identifier, eight zero reserved bytes, info-hash, peer id.
pub open spec fn handshake_bytes(info_hash: Seq<u8>, peer_id: Seq<u8>) -> Seq<u8> {
    seq![PSTRLEN] + protocol_id() + Seq::new(8, |i: int| 0u8) + info_hash + peer_id
}

/// Builds the outbound handshake for a torrent's info-hash and this client's peer id.
pub fn create_handshake(info_hash: &[u8; 20], peer_id: &[u8; 20]) -> (r: Vec<u8>)
    ensures
        r@ == handshake_bytes(info_hash@, peer_id@),
        r@.len() == HANDSHAKE_LEN,
        r@[0] == PSTRLEN,
        forall|i: int| 20 <= i < 28 ==> r@[i] == 0,
        r@.subrange(28, 48) == info_hash@,
        r@.subrange(48, 68) == peer_id@,
{
    let mut r: Vec<u8> = vec![
        PSTRLEN, 0x42u8, 0x69, 0x74, 0x54, 0x6f, 0x72, 0x72, 0x65, 0x6e, 0x74, 0x20, 0x70, 0x72,
        0x6f, 0x74, 0x6f, 0x63, 0x6f, 0x6c,
    ];
    let mut i: usize = 0;
    while i < 8
        invariant
            i <= 8,
            r@ == seq![PSTRLEN] + protocol_id() + Seq::new(i as nat, |j: int| 0u8),
        decreases 8 - i,
    {
        r.push(0);
        i = i + 1;
        assert(r@ =~= seq![PSTRLEN] + protocol_id() + Seq::new(i as nat, |j: int| 0u8));
    }
    let mut j: usize = 0;
    while j < 20
        invariant
            j <= 20,
            r@ == seq![PSTRLEN] + protocol_id() + Seq::new(8, |k: int| 0u8) + info_hash@.take(
                j as int,
            ),
        decreases 20 - j,
    {
        r.push(info_hash[j]);
        assert(info_hash@.take(j + 1) =~= info_hash@.take(j as int).push(info_hash@[j as int]));
        j = j + 1;
    }
    let mut k: usize = 0;
    while k < 20
        invariant
            k <= 20,
            r@ == seq![PSTRLEN] + protocol_id() + Seq::new(8, |k: int| 0u8) + info_hash@
                + peer_id@.take(k as int),
        decreases 20 - k,
    {
        if k == 0 {
            assert(info_hash@.take(20) =~= info_hash@);
        }
        r.push(peer_id[k]);
        assert(peer_id@.take(k + 1) =~= peer_id@.take(k as int).push(peer_id@[k as int]));
        k = k + 1;
    }
    assert(peer_id@.take(20) =~= peer_id@);
    assert(r@ =~= handshake_bytes(info_hash@, peer_id@));
    assert(r@.subrange(28, 48) =~= info_hash@);
    assert(r@.subrange(48, 68) =~= peer_id@);
    r
}


/// Why a handshake attempt failed.
#[derive(Debug, Clone, Copy, PartialEq, Eq, Structural)]
pub enum HandshakeError {
    /// The peer's protocol-identifier length is not 19.
    ProtocolMismatch,
    /// The peer's info-hash differs from the expected one.
    InfoHashMismatch,
    /// The peer closed the connection before enough bytes arrived.
    ConnectionClosed,
    /// The transport failed.
    Io,
}

/// What one read on the connection gave.
#[derive(Debug, Clone, PartialEq, Eq)]
pub enum ReadEvent {
    /// Bytes arrived; an empty chunk means the peer closed the stream.
    Data(Vec<u8>),
    /// The peer closed the stream.
    Closed,
    /// The transport reported an error.
    Failed,
}

/// What to do after an event.
#[derive(Debug, Clone, Copy, PartialEq, Eq, Structural)]
pub enum ReadStep {
    /// Read again, at most this many bytes.
    More(usize),
    /// The exact count has arrived.
    Done,
    /// Give up.
    Failed(HandshakeError),
}

/// Accumulates bytes until exactly `target` of them have arrived.
pub struct FixedRead {
    target: usize,
    buf: Vec<u8>,
}

/// The model of a `FixedRead`: how many bytes it wants, and what it holds.
pub struct FixedReadModel {
    pub target: nat,
    pub buf: Seq<u8>,
}

/// The model of a `ReadEvent`.
pub enum ReadEventModel {
    Data(Seq<u8>),
    Closed,
    Failed,
}

impl View for ReadEvent {
    type V = ReadEventModel;

    open spec fn view(&self) -> ReadEventModel {
        match self {
            ReadEvent::Data(c) => ReadEventModel::Data(c@),
            ReadEvent::Closed => ReadEventModel::Closed,
            ReadEvent::Failed => ReadEventModel::Failed,
        }
    }
}

impl View for FixedRead {
    type V = FixedReadModel;

    closed spec fn view(&self) -> FixedReadModel {
        FixedReadModel { target: self.target as nat, buf: self.buf@ }
    }
}

/// The step that follows a reader state.
pub open spec fn step_of(m: FixedReadModel) -> ReadStep {
    if m.buf.len() >= m.target {
        ReadStep::Done
    } else {
        ReadStep::More((m.target - m.buf.len()) as usize)
    }
}

/// One transition of the exact-count reader: a non-empty chunk is appended,
/// an empty chunk or a close fails with `ConnectionClosed`, a transport error
/// fails with `Io`.
pub open spec fn read_transition(m: FixedReadModel, ev: ReadEventModel) -> (FixedReadModel, ReadStep) {
    match ev {
        ReadEventModel::Data(c) => if c.len() == 0 {
            (m, ReadStep::Failed(HandshakeError::ConnectionClosed))
        } else {
            let n = FixedReadModel { target: m.target, buf: m.buf + c };
            (n, step_of(n))
        },
        ReadEventModel::Closed => (m, ReadStep::Failed(HandshakeError::ConnectionClosed)),
        ReadEventModel::Failed => (m, ReadStep::Failed(HandshakeError::Io)),
    }
}

/// An event that the reader may receive: a chunk no longer than what it asked for.
pub open spec fn event_fits(m: FixedReadModel, ev: ReadEventModel) -> bool {
    ev matches ReadEventModel::Data(c) ==> m.buf.len() + c.len() <= m.target
}

impl FixedRead {
    pub closed spec fn wf(&self) -> bool {
        self.buf@.len() <= self.target
    }

    /// A reader that wants exactly `n` bytes.
    pub fn new(n: usize) -> (r: FixedRead)
        ensures
            r.wf(),
            r@.target == n,
            r@.buf == Seq::<u8>::empty(),
    {
        FixedRead { target: n, buf: Vec::new() }
    }

    /// How many bytes are still wanted.
    pub fn remaining(&self) -> (r: usize)
        requires
            self.wf(),
        ensures
            r == self@.target - self@.buf.len(),
    {
        self.target - self.buf.len()
    }

    /// The bytes gathered so far.
    pub fn bytes(&self) -> (r: &Vec<u8>)
        ensures
            r@ == self@.buf,
    {
        &self.buf
    }

    /// Handles what one read gave and says what to do next.
    pub fn on_event(&mut self, ev: ReadEvent) -> (r: ReadStep)
        requires
            old(self).wf(),
            event_fits(old(self)@, ev@),
        ensures
            final(self).wf(),
            (final(self)@, r) == read_transition(old(self)@, ev@),
    {
        match ev {
            ReadEvent::Data(c) => {
                if c.len() == 0 {
                    return ReadStep::Failed(HandshakeError::ConnectionClosed);
                }
                let ghost before = self.buf@;
                let mut i: usize = 0;
                while i < c.len()
                    invariant
                        i <= c@.len(),
                        self.target == old(self).target,
                        self.buf@ == before + c@.take(i as int),
                        before == old(self).buf@,
                        before.len() + c@.len() <= self.target,
                    decreases c@.len() - i,
                {
                    self.buf.push(c[i]);
                    assert(c@.take(i + 1) =~= c@.take(i as int).push(c@[i as int]));
                    i = i + 1;
                }
                assert(c@.take(i as int) =~= c@);
                if self.buf.len() >= self.target {
                    ReadStep::Done
                } else {
                    ReadStep::More(self.target - self.buf.len())
                }
            },
            ReadEvent::Closed => ReadStep::Failed(HandshakeError::ConnectionClosed),
            ReadEvent::Failed => ReadStep::Failed(HandshakeError::Io),
        }
    }

    /// Raises the count wanted by `n` more bytes, keeping what has arrived.
    fn extend(&mut self, n: usize)
        requires
            old(self).wf(),
            old(self)@.target + n <= usize::MAX,
        ensures
            final(self).wf(),
            final(self)@.target == old(self)@.target + n,
            final(self)@.buf == old(self)@.buf,
    {
        self.target = self.target + n;
    }
}

/// Feeds a sequence of events to the reader model, one after the other, and
/// gives the final model with the step that the last event produced.
pub open spec fn feed_all(m: FixedReadModel, evs: Seq<ReadEventModel>) -> (FixedReadModel, ReadStep)
    decreases evs.len(),
{
    if evs.len() == 0 {
        (m, step_of(m))
    } else {
        let (n, s) = read_transition(m, evs[0]);
        if s is Failed {
            (n, s)
        } else {
            feed_all(n, evs.drop_first())
        }
    }
}

/// The concatenation of chunks.
pub open spec fn flatten(chunks: Seq<Seq<u8>>) -> Seq<u8>
    decreases chunks.len(),
{
    if chunks.len() == 0 {
        seq![]
    } else {
        chunks[0] + flatten(chunks.drop_first())
    }
}

/// However the stream is cut into non-empty chunks, feeding them in order to
/// a reader leaves it holding exactly their concatenation, neither more nor
/// fewer bytes; it reports `Done` once the wanted count is reached.
pub proof fn lemma_fragments_assemble(m: FixedReadModel, chunks: Seq<Seq<u8>>)
    requires
        m.buf.len() + flatten(chunks).len() <= m.target,
        forall|i: int| 0 <= i < chunks.len() ==> (#[trigger] chunks[i]).len() > 0,
    ensures
        feed_all(m, chunks.map_values(|c: Seq<u8>| ReadEventModel::Data(c))).0.buf == m.buf
            + flatten(chunks),
        feed_all(m, chunks.map_values(|c: Seq<u8>| ReadEventModel::Data(c))).1 == step_of(
            FixedReadModel { target: m.target, buf: m.buf + flatten(chunks) },
        ),
    decreases chunks.len(),
{
    let evs = chunks.map_values(|c: Seq<u8>| ReadEventModel::Data(c));
    if chunks.len() == 0 {
        assert(m.buf + flatten(chunks) =~= m.buf);
    } else {
        let c = chunks[0];
        let rest = chunks.drop_first();
        let n = FixedReadModel { target: m.target, buf: m.buf + c };
        assert(evs[0] == ReadEventModel::Data(c));
        assert(evs.drop_first() =~= rest.map_values(|c: Seq<u8>| ReadEventModel::Data(c)));
        assert forall|i: int| 0 <= i < rest.len() implies (#[trigger] rest[i]).len() > 0 by {
            assert(rest[i] == chunks[i + 1]);
        }
        assert(flatten(chunks) == c + flatten(rest));
        lemma_fragments_assemble(n, rest);
        assert(m.buf + c + flatten(rest) =~= m.buf + flatten(chunks));
    }
}

/// A stream that closes before the wanted count has arrived fails with
/// `ConnectionClosed`, never with `Done`.
pub proof fn lemma_early_close(m: FixedReadModel)
    requires
        m.buf.len() < m.target,
    ensures
        read_transition(m, ReadEventModel::Closed).1 == ReadStep::Failed(
            HandshakeError::ConnectionClosed,
        ),
        read_transition(m, ReadEventModel::Data(seq![])).1 == ReadStep::Failed(
            HandshakeError::ConnectionClosed,
        ),
{
}


/// Where the validation of a peer's reply stands.
#[derive(Debug, Clone, Copy, PartialEq, Eq, Structural)]
pub enum HandshakeStatus {
    /// Read again, at most this many bytes.
    Reading(usize),
    /// The reply carries the expected protocol length and info-hash.
    Validated,
    /// The attempt failed; no further byte is to be read.
    Failed(HandshakeError),
}

/// The status that the received prefix `r` of a reply gives, for the
/// expected info-hash `h`: one byte is read first; a length other than 19
/// fails at once; then the identifier, the reserved bytes and the info-hash
/// are read.  The identifier itself is compared only when `strict` is set;
/// the info-hash is always compared byte for byte.
pub open spec fn reply_status(r: Seq<u8>, h: Seq<u8>, strict: bool) -> HandshakeStatus {
    if r.len() == 0 {
        HandshakeStatus::Reading(1)
    } else if r[0] != PSTRLEN {
        HandshakeStatus::Failed(HandshakeError::ProtocolMismatch)
    } else if r.len() < REPLY_CHECKED_LEN {
        HandshakeStatus::Reading((REPLY_CHECKED_LEN - r.len()) as usize)
    } else if strict && r.subrange(1, 20) != protocol_id() {
        HandshakeStatus::Failed(HandshakeError::ProtocolMismatch)
    } else if r.subrange(INFO_HASH_OFFSET as int, REPLY_CHECKED_LEN as int) != h {
        HandshakeStatus::Failed(HandshakeError::InfoHashMismatch)
    } else {
        HandshakeStatus::Validated
    }
}

/// A reply starts with one byte read on its own.  When that byte is not 19
/// the reply is rejected with `ProtocolMismatch` and nothing more is read;
/// when the length is right and the info-hash differs from the expected one
/// in any byte, the complete reply is rejected with `InfoHashMismatch`.
pub proof fn lemma_reply_validation(r: Seq<u8>, h: Seq<u8>, i: int)
    ensures
        reply_status(Seq::<u8>::empty(), h, false) == HandshakeStatus::Reading(1),
        r.len() >= 1 && r[0] != PSTRLEN ==> reply_status(r.take(1), h, false)
            == HandshakeStatus::Failed(HandshakeError::ProtocolMismatch),
        (r.len() == REPLY_CHECKED_LEN && r[0] == PSTRLEN && h.len() == 20 && 0 <= i < 20 && r[INFO_HASH_OFFSET
            + i] != h[i]) ==> reply_status(r, h, false) == HandshakeStatus::Failed(
            HandshakeError::InfoHashMismatch,
        ),
{
    if r.len() == REPLY_CHECKED_LEN && r[0] == PSTRLEN && h.len() == 20 && 0 <= i < 20 && r[INFO_HASH_OFFSET + i] != h[i] {
        assert(r.subrange(INFO_HASH_OFFSET as int, REPLY_CHECKED_LEN as int)[i] == r[INFO_HASH_OFFSET + i]);
    }
}

/// Whether bytes 1..20 of a complete reply are `BitTorrent protocol`.
fn protocol_matches(b: &Vec<u8>) -> (r: bool)
    requires
        b@.len() == REPLY_CHECKED_LEN,
    ensures
        r == (b@.subrange(1, 20) == protocol_id()),
{
    let want: Vec<u8> = vec![
        0x42u8, 0x69, 0x74, 0x54, 0x6f, 0x72, 0x72, 0x65, 0x6e, 0x74, 0x20, 0x70, 0x72, 0x6f,
        0x74, 0x6f, 0x63, 0x6f, 0x6c,
    ];
    assert(want@ =~= protocol_id());
    let mut i: usize = 0;
    while i < 19
        invariant
            i <= 19,
            b@.len() == REPLY_CHECKED_LEN,
            want@ == protocol_id(),
            forall|j: int| 0 <= j < i ==> b@[1 + j] == want@[j],
        decreases 19 - i,
    {
        if b[1 + i] != want[i] {
            assert(b@.subrange(1, 20)[i as int] != protocol_id()[i as int]);
            return false;
        }
        i = i + 1;
    }
    assert(b@.subrange(1, 20) =~= protocol_id());
    true
}

/// Whether the info-hash of a complete reply is `h`.
fn info_hash_matches(b: &Vec<u8>, h: &[u8; 20]) -> (r: bool)
    requires
        b@.len() == REPLY_CHECKED_LEN,
    ensures
        r == (b@.subrange(INFO_HASH_OFFSET as int, REPLY_CHECKED_LEN as int) == h@),
{
    let mut i: usize = 0;
    while i < 20
        invariant
            i <= 20,
            b@.len() == REPLY_CHECKED_LEN,
            forall|j: int| 0 <= j < i ==> b@[INFO_HASH_OFFSET + j] == h@[j],
        decreases 20 - i,
    {
        if b[INFO_HASH_OFFSET + i] != h[i] {
            assert(b@.subrange(INFO_HASH_OFFSET as int, REPLY_CHECKED_LEN as int)[i as int] != h@[i as int]);
            return false;
        }
        i = i + 1;
    }
    assert(b@.subrange(INFO_HASH_OFFSET as int, REPLY_CHECKED_LEN as int) =~= h@);
    true
}

/// Validates a peer's handshake reply as its bytes arrive.
pub struct HandshakeReceiver {
    expected: [u8; 20],
    strict: bool,
    reader: FixedRead,
    status: HandshakeStatus,
}

impl HandshakeReceiver {
    /// The bytes of the reply received so far.
    pub closed spec fn received(&self) -> Seq<u8> {
        self.reader@.buf
    }

    /// The info-hash the reply must carry.
    pub closed spec fn expected(&self) -> Seq<u8> {
        self.expected@
    }

    /// Whether the protocol identifier is compared too.
    pub closed spec fn strict(&self) -> bool {
        self.strict
    }

    pub closed spec fn spec_status(&self) -> HandshakeStatus {
        self.status
    }

    pub closed spec fn wf(&self) -> bool {
        &&& self.reader.wf()
        &&& self.reader@.target == if self.reader@.buf.len() > 0 && self.reader@.buf[0] == PSTRLEN {
            REPLY_CHECKED_LEN as nat
        } else {
            1
        }
        &&& self.status is Reading ==> self.status == reply_status(
            self.reader@.buf,
            self.expected@,
            self.strict,
        )
        &&& self.status is Reading ==> (self.reader@.buf.len() > 0 ==> self.reader@.buf[0]
            == PSTRLEN)
        &&& self.status is Validated ==> self.status == reply_status(
            self.reader@.buf,
            self.expected@,
            self.strict,
        )
        &&& (self.status matches HandshakeStatus::Failed(e) && (e is ProtocolMismatch
            || e is InfoHashMismatch)) ==> self.status == reply_status(
            self.reader@.buf,
            self.expected@,
            self.strict,
        )
    }

    /// A receiver expecting `info_hash`, before any byte has arrived; with
    /// `strict_protocol` it also requires the identifier `BitTorrent protocol`.
    pub fn new(info_hash: &[u8; 20], strict_protocol: bool) -> (r: HandshakeReceiver)
        ensures
            r.wf(),
            r.expected() == info_hash@,
            r.strict() == strict_protocol,
            r.received() == Seq::<u8>::empty(),
            r.spec_status() == HandshakeStatus::Reading(1),
    {
        HandshakeReceiver {
            expected: *info_hash,
            strict: strict_protocol,
            reader: FixedRead::new(1),
            status: HandshakeStatus::Reading(1),
        }
    }

    /// What to do next.
    pub fn status(&self) -> (r: HandshakeStatus)
        ensures
            r == self.spec_status(),
    {
        self.status
    }

    /// Handles what one read gave.  A non-empty chunk is appended to the
    /// reply and the status is recomputed from it; an empty chunk or a close
    /// fails with `ConnectionClosed`; a transport error fails with `Io`.
    pub fn on_event(&mut self, ev: ReadEvent) -> (r: HandshakeStatus)
        requires
            old(self).wf(),
            old(self).spec_status() matches HandshakeStatus::Reading(n) && (
            ev matches ReadEvent::Data(c) ==> c@.len() <= n),
        ensures
            final(self).wf(),
            final(self).expected() == old(self).expected(),
            final(self).strict() == old(self).strict(),
            final(self).spec_status() == r,
            match ev@ {
                ReadEventModel::Data(c) => if c.len() == 0 {
                    &&& r == HandshakeStatus::Failed(HandshakeError::ConnectionClosed)
                    &&& final(self).received() == old(self).received()
                } else {
                    &&& final(self).received() == old(self).received() + c
                    &&& r == reply_status(
                        final(self).received(),
                        final(self).expected(),
                        final(self).strict(),
                    )
                },
                ReadEventModel::Closed => {
                    &&& r == HandshakeStatus::Failed(HandshakeError::ConnectionClosed)
                    &&& final(self).received() == old(self).received()
                },
                ReadEventModel::Failed => {
                    &&& r == HandshakeStatus::Failed(HandshakeError::Io)
                    &&& final(self).received() == old(self).received()
                },
            },
    {
        let step = self.reader.on_event(ev);
        let st = match step {
            ReadStep::Failed(e) => HandshakeStatus::Failed(e),
            ReadStep::More(n) => HandshakeStatus::Reading(n),
            ReadStep::Done => {
                let b = self.reader.bytes();
                if b.len() == 1 {
                    if b[0] != PSTRLEN {
                        HandshakeStatus::Failed(HandshakeError::ProtocolMismatch)
                    } else {
                        self.reader.extend(REPLY_CHECKED_LEN - 1);
                        HandshakeStatus::Reading(REPLY_CHECKED_LEN - 1)
                    }
                } else if self.strict && !protocol_matches(b) {
                    HandshakeStatus::Failed(HandshakeError::ProtocolMismatch)
                } else {
                    let same = info_hash_matches(b, &self.expected);
                    if same {
                        HandshakeStatus::Validated
                    } else {
                        HandshakeStatus::Failed(HandshakeError::InfoHashMismatch)
                    }
                }
            },
        };
        self.status = st;
        st
    }
}


/// The stages of one handshake attempt with one peer.
#[derive(Debug, Clone, Copy, PartialEq, Eq, Structural)]
pub enum AttemptState {
    /// The connection is being opened.
    Connecting,
    /// The connection is open; the handshake is to be written in full.
    Connected,
    /// The handshake has been written; the reply is being read.
    HandshakeSent,
    HandshakeValidated,
    Failed(HandshakeError),
}

/// What the transport reports to an attempt.
#[derive(Debug, Clone, PartialEq, Eq)]
pub enum AttemptEvent {
    Connected,
    ConnectFailed,
    /// The whole handshake message has been written.
    Sent,
    SendFailed,
    /// One read of the reply.
    Read(ReadEvent),
}

/// What the driver of an attempt is to do next.
#[derive(Debug, Clone, Copy, PartialEq, Eq)]
pub enum AttemptAction {
    Connect,
    /// Write all of `message()`.
    Send,
    /// Read at most this many bytes.
    Read(usize),
    /// The attempt is over; the connection is to be closed.
    Finished(Result<(), HandshakeError>),
}

/// One handshake attempt: connect, write the whole handshake, then read and
/// validate the reply; no retry within the attempt.
pub struct HandshakeAttempt {
    state: AttemptState,
    message: Vec<u8>,
    receiver: HandshakeReceiver,
}

/// The action that a state calls for, given the receiver's status.
pub open spec fn action_of(st: AttemptState, rs: HandshakeStatus) -> AttemptAction {
    match st {
        AttemptState::Connecting => AttemptAction::Connect,
        AttemptState::Connected => AttemptAction::Send,
        AttemptState::HandshakeSent => match rs {
            HandshakeStatus::Reading(n) => AttemptAction::Read(n),
            HandshakeStatus::Validated => AttemptAction::Finished(Ok(())),
            HandshakeStatus::Failed(e) => AttemptAction::Finished(Err(e)),
        },
        AttemptState::HandshakeValidated => AttemptAction::Finished(Ok(())),
        AttemptState::Failed(e) => AttemptAction::Finished(Err(e)),
    }
}

/// The state after the receiver reports `rs` on a reply read.
pub open spec fn state_after_read(rs: HandshakeStatus) -> AttemptState {
    match rs {
        HandshakeStatus::Reading(_) => AttemptState::HandshakeSent,
        HandshakeStatus::Validated => AttemptState::HandshakeValidated,
        HandshakeStatus::Failed(e) => AttemptState::Failed(e),
    }
}

/// The events that a state accepts.
pub open spec fn event_allowed(st: AttemptState, rs: HandshakeStatus, ev: AttemptEvent) -> bool {
    match st {
        AttemptState::Connecting => ev is Connected || ev is ConnectFailed,
        AttemptState::Connected => ev is Sent || ev is SendFailed,
        AttemptState::HandshakeSent => match ev {
            AttemptEvent::Read(r) => rs matches HandshakeStatus::Reading(n) && (r matches ReadEvent::Data(
                c,
            ) ==> c@.len() <= n),
            _ => false,
        },
        _ => false,
    }
}

impl HandshakeAttempt {
    pub closed spec fn state(&self) -> AttemptState {
        self.state
    }

    /// The handshake this attempt writes.
    pub closed spec fn spec_message(&self) -> Seq<u8> {
        self.message@
    }

    /// The validation of the reply.
    pub closed spec fn spec_receiver(&self) -> HandshakeReceiver {
        self.receiver
    }

    pub closed spec fn wf(&self) -> bool {
        &&& self.receiver.wf()
        &&& (self.state is Connecting || self.state is Connected) ==> self.receiver.spec_status()
            == HandshakeStatus::Reading(1)
        &&& self.state is HandshakeSent ==> self.receiver.spec_status() is Reading
    }

    /// An attempt for `info_hash` from this client `peer_id`, not yet connected.
    pub fn new(info_hash: &[u8; 20], peer_id: &[u8; 20], strict_protocol: bool) -> (r:
        HandshakeAttempt)
        ensures
            r.wf(),
            r.state() == AttemptState::Connecting,
            r.spec_message() == handshake_bytes(info_hash@, peer_id@),
            r.spec_receiver().expected() == info_hash@,
            r.spec_receiver().strict() == strict_protocol,
            r.spec_receiver().received() == Seq::<u8>::empty(),
            r.spec_receiver().spec_status() == HandshakeStatus::Reading(1),
    {
        HandshakeAttempt {
            state: AttemptState::Connecting,
            message: create_handshake(info_hash, peer_id),
            receiver: HandshakeReceiver::new(info_hash, strict_protocol),
        }
    }

    /// The handshake to write.
    pub fn message(&self) -> (r: &Vec<u8>)
        ensures
            r@ == self.spec_message(),
    {
        &self.message
    }

    /// What to do next.
    pub fn action(&self) -> (r: AttemptAction)
        ensures
            r == action_of(self.state(), self.spec_receiver().spec_status()),
    {
        match self.state {
            AttemptState::Connecting => AttemptAction::Connect,
            AttemptState::Connected => AttemptAction::Send,
            AttemptState::HandshakeSent => match self.receiver.status() {
                HandshakeStatus::Reading(n) => AttemptAction::Read(n),
                HandshakeStatus::Validated => AttemptAction::Finished(Ok(())),
                HandshakeStatus::Failed(e) => AttemptAction::Finished(Err(e)),
            },
            AttemptState::HandshakeValidated => AttemptAction::Finished(Ok(())),
            AttemptState::Failed(e) => AttemptAction::Finished(Err(e)),
        }
    }

    /// Moves the attempt on by one event.  A failed connect or write fails
    /// with `Io`; a read goes to the reply's validation, whose verdict ends
    /// the attempt.
    pub fn on_event(&mut self, ev: AttemptEvent) -> (r: AttemptAction)
        requires
            old(self).wf(),
            event_allowed(old(self).state(), old(self).spec_receiver().spec_status(), ev),
        ensures
            final(self).wf(),
            final(self).spec_message() == old(self).spec_message(),
            r == action_of(final(self).state(), final(self).spec_receiver().spec_status()),
            match ev {
                AttemptEvent::Connected => final(self).state() == AttemptState::Connected
                    && final(self).spec_receiver() == old(self).spec_receiver(),
                AttemptEvent::ConnectFailed | AttemptEvent::SendFailed => final(self).state()
                    == AttemptState::Failed(HandshakeError::Io) && final(self).spec_receiver()
                    == old(self).spec_receiver(),
                AttemptEvent::Sent => final(self).state() == AttemptState::HandshakeSent
                    && final(self).spec_receiver() == old(self).spec_receiver(),
                AttemptEvent::Read(re) => {
                    &&& final(self).spec_receiver().expected() == old(self).spec_receiver().expected()
                    &&& final(self).spec_receiver().strict() == old(self).spec_receiver().strict()
                    &&& final(self).state() == state_after_read(
                        final(self).spec_receiver().spec_status(),
                    )
                    &&& match re@ {
                        ReadEventModel::Data(c) => if c.len() == 0 {
                            &&& final(self).spec_receiver().spec_status() == HandshakeStatus::Failed(
                                HandshakeError::ConnectionClosed,
                            )
                            &&& final(self).spec_receiver().received() == old(
                                self,
                            ).spec_receiver().received()
                        } else {
                            &&& final(self).spec_receiver().received() == old(
                                self,
                            ).spec_receiver().received() + c
                            &&& final(self).spec_receiver().spec_status() == reply_status(
                                final(self).spec_receiver().received(),
                                final(self).spec_receiver().expected(),
                                final(self).spec_receiver().strict(),
                            )
                        },
                        ReadEventModel::Closed => {
                            &&& final(self).spec_receiver().spec_status() == HandshakeStatus::Failed(
                                HandshakeError::ConnectionClosed,
                            )
                            &&& final(self).spec_receiver().received() == old(
                                self,
                            ).spec_receiver().received()
                        },
                        ReadEventModel::Failed => {
                            &&& final(self).spec_receiver().spec_status() == HandshakeStatus::Failed(
                                HandshakeError::Io,
                            )
                            &&& final(self).spec_receiver().received() == old(
                                self,
                            ).spec_receiver().received()
                        },
                    }
                },
            },
    {
        match ev {
            AttemptEvent::Connected => {
                self.state = AttemptState::Connected;
            },
            AttemptEvent::ConnectFailed | AttemptEvent::SendFailed => {
                self.state = AttemptState::Failed(HandshakeError::Io);
            },
            AttemptEvent::Sent => {
                self.state = AttemptState::HandshakeSent;
            },
            AttemptEvent::Read(r) => {
                let st = self.receiver.on_event(r);
                self.state = match st {
                    HandshakeStatus::Reading(_) => AttemptState::HandshakeSent,
                    HandshakeStatus::Validated => AttemptState::HandshakeValidated,
                    HandshakeStatus::Failed(e) => AttemptState::Failed(e),
                };
            },
        }
        self.action()
    }
}

} // verus!
