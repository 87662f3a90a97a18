//! Events pushed up to the application, and their binary wire format.
//!
//! Each event serialises into one contiguous byte string: a 16-byte header, then
//! a body that depends on the kind. Everything is little-endian, and variable
//! parts carry a 32-bit length.
//!
//! ```text
//!  off  len  field
//!   0    1   ABI version
//!   1    1   kind
//!   2    2   flags, reserved (zero)
//!   4    4   seq
//!   8    8   timestamp, milliseconds
//!  16   ..   body
//! ```
use vstd::prelude::*;

use crate::bytes;
use crate::clock;
use crate::crypto::PeerId;

verus! {

/// Bumped whenever the C ABI or the binary event layout changes. The native layer
/// asserts this at install time, so that a stale library can never silently
/// mis-decode events.
pub const ABI_VERSION: u32 = 3;

pub const EVENT_HEADER_LEN: usize = 16;

pub const KIND_PEER_DISCOVERED: u8 = 1;

pub const KIND_PEER_LOST: u8 = 2;

pub const KIND_MESSAGE_RECEIVED: u8 = 3;

pub const KIND_MESSAGE_DELIVERED: u8 = 4;

pub const KIND_TRANSPORT_STATE: u8 = 5;

pub const KIND_ERROR: u8 = 6;

pub const KIND_MESSAGE_EXPIRED: u8 = 7;

/// Something the application should know.
#[derive(Debug)]
pub struct Event {
    pub seq: u32,
    pub ts_ms: u64,
    pub kind: EventKind,
}

/// What happened.
#[derive(Debug)]
pub enum EventKind {
    PeerDiscovered { peer: PeerId, nickname: String, rssi: i8, hops: u8 },
    PeerLost { peer: PeerId },
    MessageReceived {
        sender: PeerId,
        msg_id: [u8; 16],
        ttl: u8,
        hops: u8,
        rssi: i8,
        /// Whether the sender used a forward-secret path.
        forward_secret: bool,
        body: Vec<u8>,
    },
    MessageDelivered { msg_id: [u8; 16], direct: bool },
    TransportState { running: bool },
    Error { message: String },
    /// A message was given up on.
    MessageExpired { msg_id: [u8; 16], reason: String },
}

/// A received message.
#[derive(Debug)]
pub struct ReceivedMessage {
    pub sender: PeerId,
    pub msg_id: [u8; 16],
    pub ttl: u8,
    pub hops: u8,
    pub rssi: i8,
    pub forward_secret: bool,
    pub body: Vec<u8>,
}

// ---------------------------------------------------------------------------
// Model
// ---------------------------------------------------------------------------

/// What happened, with text and bytes as sequences.
pub enum EventKindModel {
    PeerDiscovered { peer: PeerId, nickname: Seq<char>, rssi: i8, hops: u8 },
    PeerLost { peer: PeerId },
    MessageReceived {
        sender: PeerId,
        msg_id: [u8; 16],
        ttl: u8,
        hops: u8,
        rssi: i8,
        forward_secret: bool,
        body: Seq<u8>,
    },
    MessageDelivered { msg_id: [u8; 16], direct: bool },
    TransportState { running: bool },
    Error { message: Seq<char> },
    MessageExpired { msg_id: [u8; 16], reason: Seq<char> },
}

/// An event.
pub struct EventModel {
    pub seq: u32,
    pub ts_ms: u64,
    pub kind: EventKindModel,
}

impl View for EventKind {
    type V = EventKindModel;

    open spec fn view(&self) -> EventKindModel {
        match *self {
            EventKind::PeerDiscovered { peer, nickname, rssi, hops } => {
                EventKindModel::PeerDiscovered { peer, nickname: nickname@, rssi, hops }
            },
            EventKind::PeerLost { peer } => EventKindModel::PeerLost { peer },
            EventKind::MessageReceived {
                sender,
                msg_id,
                ttl,
                hops,
                rssi,
                forward_secret,
                body,
            } => EventKindModel::MessageReceived {
                sender,
                msg_id,
                ttl,
                hops,
                rssi,
                forward_secret,
                body: body@,
            },
            EventKind::MessageDelivered { msg_id, direct } => EventKindModel::MessageDelivered {
                msg_id,
                direct,
            },
            EventKind::TransportState { running } => EventKindModel::TransportState { running },
            EventKind::Error { message } => EventKindModel::Error { message: message@ },
            EventKind::MessageExpired { msg_id, reason } => EventKindModel::MessageExpired {
                msg_id,
                reason: reason@,
            },
        }
    }
}

impl View for Event {
    type V = EventModel;

    open spec fn view(&self) -> EventModel {
        EventModel { seq: self.seq, ts_ms: self.ts_ms, kind: self.kind@ }
    }
}

/// A signed byte in two's complement.
pub open spec fn signed_byte(value: i8) -> u8 {
    if value < 0 {
        (value + 256) as u8
    } else {
        value as u8
    }
}

/// A flag as one byte.
pub open spec fn flag_byte(flag: bool) -> u8 {
    if flag {
        1
    } else {
        0
    }
}

/// A byte string behind its 32-bit length.
pub open spec fn prefixed(data: Seq<u8>) -> Seq<u8> {
    bytes::le_bytes(data.len(), 4) + data
}

impl EventKindModel {
    /// The number of the kind on the wire.
    pub open spec fn tag(self) -> u8 {
        match self {
            EventKindModel::PeerDiscovered { .. } => KIND_PEER_DISCOVERED,
            EventKindModel::PeerLost { .. } => KIND_PEER_LOST,
            EventKindModel::MessageReceived { .. } => KIND_MESSAGE_RECEIVED,
            EventKindModel::MessageDelivered { .. } => KIND_MESSAGE_DELIVERED,
            EventKindModel::TransportState { .. } => KIND_TRANSPORT_STATE,
            EventKindModel::Error { .. } => KIND_ERROR,
            EventKindModel::MessageExpired { .. } => KIND_MESSAGE_EXPIRED,
        }
    }

    /// The body on the wire. The byte behind a received message's signal strength
    /// says whether it was forward secret, and keeps the length that follows
    /// aligned.
    pub open spec fn body(self) -> Seq<u8> {
        match self {
            EventKindModel::PeerDiscovered { peer, nickname, rssi, hops } => peer@ + seq![
                signed_byte(rssi),
                hops,
            ] + prefixed(vstd::utf8::encode_utf8(nickname)),
            EventKindModel::PeerLost { peer } => peer@,
            EventKindModel::MessageReceived {
                sender,
                msg_id,
                ttl,
                hops,
                rssi,
                forward_secret,
                body,
            } => sender@ + msg_id@ + seq![
                ttl,
                hops,
                signed_byte(rssi),
                flag_byte(forward_secret),
            ] + prefixed(body),
            EventKindModel::MessageDelivered { msg_id, direct } => msg_id@ + seq![
                flag_byte(direct),
                0u8,
                0u8,
                0u8,
            ],
            EventKindModel::TransportState { running } => seq![flag_byte(running), 0u8, 0u8, 0u8],
            EventKindModel::Error { message } => prefixed(vstd::utf8::encode_utf8(message)),
            EventKindModel::MessageExpired { msg_id, reason } => msg_id@ + prefixed(
                vstd::utf8::encode_utf8(reason),
            ),
        }
    }
}

impl EventModel {
    /// The header on the wire.
    pub open spec fn header(self) -> Seq<u8> {
        seq![ABI_VERSION as u8, self.kind.tag(), 0u8, 0u8] + bytes::le_bytes(self.seq as nat, 4)
            + bytes::le_bytes(self.ts_ms as nat, 8)
    }

    /// The event on the wire.
    pub open spec fn wire(self) -> Seq<u8> {
        self.header() + self.kind.body()
    }
}

// ---------------------------------------------------------------------------
// Construction
// ---------------------------------------------------------------------------

impl Clone for EventKind {
    fn clone(&self) -> (copy: Self)
        ensures
            copy@ == self@,
    {
        match self {
            EventKind::PeerDiscovered { peer, nickname, rssi, hops } => EventKind::PeerDiscovered {
                peer: *peer,
                nickname: nickname.clone(),
                rssi: *rssi,
                hops: *hops,
            },
            EventKind::PeerLost { peer } => EventKind::PeerLost { peer: *peer },
            EventKind::MessageReceived {
                sender,
                msg_id,
                ttl,
                hops,
                rssi,
                forward_secret,
                body,
            } => EventKind::MessageReceived {
                sender: *sender,
                msg_id: *msg_id,
                ttl: *ttl,
                hops: *hops,
                rssi: *rssi,
                forward_secret: *forward_secret,
                body: bytes::copy_of(body.as_slice()),
            },
            EventKind::MessageDelivered { msg_id, direct } => EventKind::MessageDelivered {
                msg_id: *msg_id,
                direct: *direct,
            },
            EventKind::TransportState { running } => EventKind::TransportState {
                running: *running,
            },
            EventKind::Error { message } => EventKind::Error { message: message.clone() },
            EventKind::MessageExpired { msg_id, reason } => EventKind::MessageExpired {
                msg_id: *msg_id,
                reason: reason.clone(),
            },
        }
    }
}

impl Clone for Event {
    fn clone(&self) -> (copy: Self)
        ensures
            copy@ == self@,
    {
        Event { seq: self.seq, ts_ms: self.ts_ms, kind: self.kind.clone() }
    }
}

impl Event {
    /// An event at a given time.
    pub fn at(seq: u32, ts_ms: u64, kind: EventKind) -> (event: Self)
        ensures
            event@ == (EventModel { seq, ts_ms, kind: kind@ }),
            event.kind == kind,
    {
        Event { seq, ts_ms, kind }
    }

    /// An event now.
    fn new(seq: u32, kind: EventKind) -> (event: Self)
        ensures
            event@.seq == seq,
            event@.kind == kind@,
    {
        Event::at(seq, clock::now_ms(), kind)
    }

    pub fn peer_discovered(seq: u32, peer: PeerId, nickname: &str, rssi: i8, hops: u8) -> (event:
        Self)
        ensures
            event@.seq == seq,
            event@.kind == (EventKindModel::PeerDiscovered {
                peer,
                nickname: nickname@,
                rssi,
                hops,
            }),
    {
        Event::new(
            seq,
            EventKind::PeerDiscovered { peer, nickname: nickname.to_owned(), rssi, hops },
        )
    }

    pub fn peer_lost(seq: u32, peer: PeerId) -> (event: Self)
        ensures
            event@.seq == seq,
            event@.kind == (EventKindModel::PeerLost { peer }),
    {
        Event::new(seq, EventKind::PeerLost { peer })
    }

    /// A received message that claims no forward secrecy.
    pub fn message_received(
        seq: u32,
        sender: PeerId,
        msg_id: [u8; 16],
        ttl: u8,
        hops: u8,
        rssi: i8,
        body: Vec<u8>,
    ) -> (event: Self)
        ensures
            event@.seq == seq,
            event@.kind == (EventKindModel::MessageReceived {
                sender,
                msg_id,
                ttl,
                hops,
                rssi,
                forward_secret: false,
                body: body@,
            }),
    {
        Event::received(
            seq,
            ReceivedMessage { sender, msg_id, ttl, hops, rssi, forward_secret: false, body },
        )
    }

    /// A received message.
    pub fn received(seq: u32, message: ReceivedMessage) -> (event: Self)
        ensures
            event@.seq == seq,
            event@.kind == (EventKindModel::MessageReceived {
                sender: message.sender,
                msg_id: message.msg_id,
                ttl: message.ttl,
                hops: message.hops,
                rssi: message.rssi,
                forward_secret: message.forward_secret,
                body: message.body@,
            }),
    {
        Event::new(
            seq,
            EventKind::MessageReceived {
                sender: message.sender,
                msg_id: message.msg_id,
                ttl: message.ttl,
                hops: message.hops,
                rssi: message.rssi,
                forward_secret: message.forward_secret,
                body: message.body,
            },
        )
    }

    pub fn message_delivered(seq: u32, msg_id: [u8; 16], direct: bool) -> (event: Self)
        ensures
            event@.seq == seq,
            event@.kind == (EventKindModel::MessageDelivered { msg_id, direct }),
    {
        Event::new(seq, EventKind::MessageDelivered { msg_id, direct })
    }

    pub fn message_expired(seq: u32, msg_id: [u8; 16], reason: &str) -> (event: Self)
        ensures
            event@.seq == seq,
            event@.kind == (EventKindModel::MessageExpired { msg_id, reason: reason@ }),
    {
        Event::new(seq, EventKind::MessageExpired { msg_id, reason: reason.to_owned() })
    }

    pub fn transport_state(seq: u32, running: bool) -> (event: Self)
        ensures
            event@.seq == seq,
            event@.kind == (EventKindModel::TransportState { running }),
    {
        Event::new(seq, EventKind::TransportState { running })
    }

    pub fn error(seq: u32, message: &str) -> (event: Self)
        ensures
            event@.seq == seq,
            event@.kind == (EventKindModel::Error { message: message@ }),
    {
        Event::new(seq, EventKind::Error { message: message.to_owned() })
    }

    /// The number of the kind on the wire.
    pub fn kind_tag(&self) -> (tag: u8)
        ensures
            tag == self@.kind.tag(),
    {
        match &self.kind {
            EventKind::PeerDiscovered { .. } => KIND_PEER_DISCOVERED,
            EventKind::PeerLost { .. } => KIND_PEER_LOST,
            EventKind::MessageReceived { .. } => KIND_MESSAGE_RECEIVED,
            EventKind::MessageDelivered { .. } => KIND_MESSAGE_DELIVERED,
            EventKind::TransportState { .. } => KIND_TRANSPORT_STATE,
            EventKind::Error { .. } => KIND_ERROR,
            EventKind::MessageExpired { .. } => KIND_MESSAGE_EXPIRED,
        }
    }

    /// How long the body is on the wire, as far as a `usize` can say.
    fn body_hint(&self) -> (hint: usize)
        ensures
            hint == (if self@.kind.body().len() <= usize::MAX {
                self@.kind.body().len()
            } else {
                usize::MAX as nat
            }),
    {
        let (fixed, variable): (usize, usize) = match &self.kind {
            EventKind::PeerDiscovered { nickname, .. } => (
                38,
                nickname.as_str().as_bytes().len(),
            ),
            EventKind::PeerLost { .. } => (32, 0),
            EventKind::MessageReceived { body, .. } => (56, body.len()),
            EventKind::MessageDelivered { .. } => (20, 0),
            EventKind::TransportState { .. } => (4, 0),
            EventKind::Error { message } => (4, message.as_str().as_bytes().len()),
            EventKind::MessageExpired { reason, .. } => (20, reason.as_str().as_bytes().len()),
        };
        proof {
            bytes::lemma_le_bytes_len(variable as nat, 4);
            assert(self@.kind.body().len() == fixed + variable);
        }
        variable.saturating_add(fixed)
    }

    /// Serialise into one byte string, sized up front.
    pub fn to_wire(&self) -> (wire: Vec<u8>)
        ensures
            wire@ == self@.wire(),
            wire@.len() >= EVENT_HEADER_LEN,
    {
        let mut wire: Vec<u8> = Vec::with_capacity(
            self.body_hint().saturating_add(EVENT_HEADER_LEN),
        );
        wire.push(ABI_VERSION as u8);
        wire.push(self.kind_tag());
        wire.push(0);
        wire.push(0);
        bytes::put_le(&mut wire, self.seq as u64, 4);
        bytes::put_le(&mut wire, self.ts_ms, 8);
        proof {
            bytes::lemma_le_bytes_len(self.seq as nat, 4);
            bytes::lemma_le_bytes_len(self.ts_ms as nat, 8);
            assert(wire@ =~= self@.header());
        }
        match &self.kind {
            EventKind::PeerDiscovered { peer, nickname, rssi, hops } => {
                bytes::put_all(&mut wire, peer);
                wire.push(byte_of(*rssi));
                wire.push(*hops);
                put_bytes(&mut wire, nickname.as_str().as_bytes());
            },
            EventKind::PeerLost { peer } => {
                bytes::put_all(&mut wire, peer);
            },
            EventKind::MessageReceived {
                sender,
                msg_id,
                ttl,
                hops,
                rssi,
                forward_secret,
                body,
            } => {
                bytes::put_all(&mut wire, sender);
                bytes::put_all(&mut wire, msg_id);
                wire.push(*ttl);
                wire.push(*hops);
                wire.push(byte_of(*rssi));
                wire.push(flag_of(*forward_secret));
                put_bytes(&mut wire, body.as_slice());
            },
            EventKind::MessageDelivered { msg_id, direct } => {
                bytes::put_all(&mut wire, msg_id);
                wire.push(flag_of(*direct));
                wire.push(0);
                wire.push(0);
                wire.push(0);
            },
            EventKind::TransportState { running } => {
                wire.push(flag_of(*running));
                wire.push(0);
                wire.push(0);
                wire.push(0);
            },
            EventKind::Error { message } => {
                put_bytes(&mut wire, message.as_str().as_bytes());
            },
            EventKind::MessageExpired { msg_id, reason } => {
                bytes::put_all(&mut wire, msg_id);
                put_bytes(&mut wire, reason.as_str().as_bytes());
            },
        }
        assert(wire@ =~= self@.header() + self@.kind.body());
        wire
    }
}

/// A signed byte in two's complement.
pub(crate) fn byte_of(value: i8) -> (byte: u8)
    ensures
        byte == signed_byte(value),
{
    if value < 0 {
        (value as i16 + 256) as u8
    } else {
        value as u8
    }
}

fn flag_of(flag: bool) -> (byte: u8)
    ensures
        byte == flag_byte(flag),
{
    if flag {
        1
    } else {
        0
    }
}

/// Append a byte string behind its 32-bit length.
pub(crate) fn put_bytes(wire: &mut Vec<u8>, data: &[u8])
    ensures
        final(wire)@ == old(wire)@ + prefixed(data@),
{
    bytes::put_le(wire, data.len() as u64, 4);
    bytes::put_all(wire, data);
    assert(wire@ =~= old(wire)@ + prefixed(data@));
}

// ---------------------------------------------------------------------------
// Laws
// ---------------------------------------------------------------------------

/// The header is 16 bytes and says the version, the kind, the sequence number and
/// the time.
pub proof fn law_header_layout(event: EventModel)
    ensures
        event.header().len() == EVENT_HEADER_LEN,
        event.wire()[0] == ABI_VERSION,
        event.wire()[1] == event.kind.tag(),
        event.wire().subrange(4, 8) == bytes::le_bytes(event.seq as nat, 4),
        event.wire().subrange(8, 16) == bytes::le_bytes(event.ts_ms as nat, 8),
        event.wire().skip(16) == event.kind.body(),
{
    bytes::lemma_le_bytes_len(event.seq as nat, 4);
    bytes::lemma_le_bytes_len(event.ts_ms as nat, 8);
    assert(event.wire().subrange(4, 8) =~= bytes::le_bytes(event.seq as nat, 4));
    assert(event.wire().subrange(8, 16) =~= bytes::le_bytes(event.ts_ms as nat, 8));
    assert(event.wire().skip(16) =~= event.kind.body());
}

/// The wire format is unambiguous: two events with the same bytes are the same
/// event.
pub proof fn law_wire_format_is_unambiguous(a: EventModel, b: EventModel)
    requires
        a.wire() == b.wire(),
    ensures
        a == b,
{
    law_header_layout(a);
    law_header_layout(b);
    bytes::lemma_le_limits();
    bytes::lemma_le_round_trip(a.seq as nat, 4);
    bytes::lemma_le_round_trip(b.seq as nat, 4);
    bytes::lemma_le_round_trip(a.ts_ms as nat, 8);
    bytes::lemma_le_round_trip(b.ts_ms as nat, 8);
    assert(a.kind.body() == b.kind.body());
    assert(a.kind.tag() == b.kind.tag());
    lemma_bodies_unambiguous(a.kind, b.kind);
}

proof fn lemma_text_unambiguous(a: Seq<char>, b: Seq<char>)
    requires
        vstd::utf8::encode_utf8(a) == vstd::utf8::encode_utf8(b),
    ensures
        a == b,
{
    vstd::utf8::encode_utf8_decode_utf8(a);
    vstd::utf8::encode_utf8_decode_utf8(b);
}

proof fn lemma_prefixed_tail(a: Seq<u8>, b: Seq<u8>, front_a: Seq<u8>, front_b: Seq<u8>)
    requires
        front_a.len() == front_b.len(),
        front_a + prefixed(a) == front_b + prefixed(b),
    ensures
        front_a == front_b,
        a == b,
{
    bytes::lemma_le_bytes_len(a.len(), 4);
    bytes::lemma_le_bytes_len(b.len(), 4);
    let n = front_a.len() as int;
    let wa = front_a + prefixed(a);
    let wb = front_b + prefixed(b);
    assert(wa.subrange(0, n) =~= front_a);
    assert(wb.subrange(0, n) =~= front_b);
    assert(wa.skip(n + 4) =~= a);
    assert(wb.skip(n + 4) =~= b);
}

proof fn lemma_bodies_unambiguous(a: EventKindModel, b: EventKindModel)
    requires
        a.tag() == b.tag(),
        a.body() == b.body(),
    ensures
        a == b,
{
    match a {
        EventKindModel::PeerDiscovered { peer, nickname, rssi, hops } => {
            let peer_b = b->PeerDiscovered_peer;
            let front_a = peer@ + seq![signed_byte(rssi), hops];
            let front_b = peer_b@ + seq![
                signed_byte(b->PeerDiscovered_rssi),
                b->PeerDiscovered_hops,
            ];
            lemma_prefixed_tail(
                vstd::utf8::encode_utf8(nickname),
                vstd::utf8::encode_utf8(b->nickname),
                front_a,
                front_b,
            );
            lemma_text_unambiguous(nickname, b->nickname);
            assert(front_a.subrange(0, 32) =~= peer@);
            assert(front_b.subrange(0, 32) =~= peer_b@);
            assert(peer =~= peer_b);
            assert(front_a[32] == signed_byte(rssi) && front_b[32] == signed_byte(
                b->PeerDiscovered_rssi,
            ));
            assert(front_a[33] == hops && front_b[33] == b->PeerDiscovered_hops);
            assert(rssi == b->PeerDiscovered_rssi);
        },
        EventKindModel::PeerLost { peer } => {
            assert(peer =~= b->PeerLost_peer);
        },
        EventKindModel::MessageReceived {
            sender,
            msg_id,
            ttl,
            hops,
            rssi,
            forward_secret,
            body,
        } => {
            let sender_b = b->sender;
            let id_b = b->MessageReceived_msg_id;
            let front_a = sender@ + msg_id@ + seq![
                ttl,
                hops,
                signed_byte(rssi),
                flag_byte(forward_secret),
            ];
            let front_b = sender_b@ + id_b@ + seq![
                b->ttl,
                b->MessageReceived_hops,
                signed_byte(b->MessageReceived_rssi),
                flag_byte(b->forward_secret),
            ];
            lemma_prefixed_tail(body, b->body, front_a, front_b);
            assert(front_a.subrange(0, 32) =~= sender@);
            assert(front_b.subrange(0, 32) =~= sender_b@);
            assert(front_a.subrange(32, 48) =~= msg_id@);
            assert(front_b.subrange(32, 48) =~= id_b@);
            assert(sender =~= sender_b);
            assert(msg_id =~= id_b);
            assert(front_a[48] == front_b[48] && front_a[49] == front_b[49] && front_a[50]
                == front_b[50] && front_a[51] == front_b[51]);
        },
        EventKindModel::MessageDelivered { msg_id, direct } => {
            let id_b = b->MessageDelivered_msg_id;
            assert(a.body().subrange(0, 16) =~= msg_id@);
            assert(b.body().subrange(0, 16) =~= id_b@);
            assert(msg_id =~= id_b);
            assert(a.body()[16] == flag_byte(direct));
            assert(b.body()[16] == flag_byte(b->direct));
        },
        EventKindModel::TransportState { running } => {
            assert(a.body()[0] == b.body()[0]);
        },
        EventKindModel::Error { message } => {
            let none = Seq::<u8>::empty();
            let text_a = vstd::utf8::encode_utf8(message);
            let text_b = vstd::utf8::encode_utf8(b->message);
            assert(none + prefixed(text_a) =~= prefixed(text_a));
            assert(none + prefixed(text_b) =~= prefixed(text_b));
            lemma_prefixed_tail(text_a, text_b, none, none);
            lemma_text_unambiguous(message, b->message);
        },
        EventKindModel::MessageExpired { msg_id, reason } => {
            let id_b = b->MessageExpired_msg_id;
            let text_a = vstd::utf8::encode_utf8(reason);
            let text_b = vstd::utf8::encode_utf8(b->reason);
            lemma_prefixed_tail(text_a, text_b, msg_id@, id_b@);
            lemma_text_unambiguous(reason, b->reason);
            assert(msg_id =~= id_b);
        },
    }
}

/// The number that stands for a kind of event, and the version in front of it.
pub proof fn law_event_numbers_are_fixed(event: EventModel)
    ensures
        event.wire()[0] == 3,
        event.wire()[1] == match event.kind {
            EventKindModel::PeerDiscovered { .. } => 1int,
            EventKindModel::PeerLost { .. } => 2,
            EventKindModel::MessageReceived { .. } => 3,
            EventKindModel::MessageDelivered { .. } => 4,
            EventKindModel::TransportState { .. } => 5,
            EventKindModel::Error { .. } => 6,
            EventKindModel::MessageExpired { .. } => 7,
        },
        event.wire()[2] == 0,
        event.wire()[3] == 0,
        bytes::le_value(event.wire().subrange(4, 8)) == event.seq,
        bytes::le_value(event.wire().subrange(8, 16)) == event.ts_ms,
{
    law_header_layout(event);
    bytes::lemma_le_limits();
    bytes::lemma_le_round_trip(event.seq as nat, 4);
    bytes::lemma_le_round_trip(event.ts_ms as nat, 8);
}

/// Text or bytes behind their length.
proof fn lemma_prefixed(front: Seq<u8>, data: Seq<u8>)
    requires
        data.len() <= u32::MAX,
    ensures
        ({
            let n = front.len() as int;
            let wire = front + prefixed(data);
            &&& wire.len() == n + 4 + data.len()
            &&& bytes::le_value(wire.subrange(n, n + 4)) == data.len()
            &&& wire.skip(n + 4) == data
            &&& wire.take(n) == front
        }),
{
    let n = front.len() as int;
    let wire = front + prefixed(data);
    bytes::lemma_le_limits();
    bytes::lemma_le_bytes_len(data.len(), 4);
    bytes::lemma_le_round_trip(data.len(), 4);
    assert(wire.subrange(n, n + 4) =~= bytes::le_bytes(data.len(), 4));
    assert(wire.skip(n + 4) =~= data);
    assert(wire.take(n) =~= front);
}

/// Where each field of a received message stands behind the header.
pub proof fn law_received_message_layout(
    sender: PeerId,
    msg_id: [u8; 16],
    ttl: u8,
    hops: u8,
    rssi: i8,
    forward_secret: bool,
    body: Seq<u8>,
)
    requires
        body.len() <= u32::MAX,
    ensures
        ({
            let wire = (EventKindModel::MessageReceived {
                sender,
                msg_id,
                ttl,
                hops,
                rssi,
                forward_secret,
                body,
            }).body();
            &&& wire.len() == 56 + body.len()
            &&& wire.subrange(0, 32) == sender@
            &&& wire.subrange(32, 48) == msg_id@
            &&& wire[48] == ttl
            &&& wire[49] == hops
            &&& wire[50] == rssi || wire[50] == rssi + 256
            &&& wire[51] == if forward_secret {
                1int
            } else {
                0
            }
            &&& bytes::le_value(wire.subrange(52, 56)) == body.len()
            &&& wire.skip(56) == body
        }),
{
    let front = sender@ + msg_id@ + seq![
        ttl,
        hops,
        signed_byte(rssi),
        flag_byte(forward_secret),
    ];
    let wire = front + prefixed(body);
    lemma_prefixed(front, body);
    assert(wire.subrange(0, 32) =~= sender@);
    assert(wire.subrange(32, 48) =~= msg_id@);
    assert(wire[48] == front[48] && wire[49] == front[49] && wire[50] == front[50] && wire[51]
        == front[51]);
}

/// Where each field of a discovered peer stands behind the header.
pub proof fn law_discovered_peer_layout(peer: PeerId, nickname: Seq<char>, rssi: i8, hops: u8)
    requires
        vstd::utf8::encode_utf8(nickname).len() <= u32::MAX,
    ensures
        ({
            let wire = (EventKindModel::PeerDiscovered { peer, nickname, rssi, hops }).body();
            let text = vstd::utf8::encode_utf8(nickname);
            &&& wire.len() == 38 + text.len()
            &&& wire.subrange(0, 32) == peer@
            &&& wire[32] == rssi || wire[32] == rssi + 256
            &&& wire[33] == hops
            &&& bytes::le_value(wire.subrange(34, 38)) == text.len()
            &&& wire.skip(38) == text
        }),
{
    let text = vstd::utf8::encode_utf8(nickname);
    let front = peer@ + seq![signed_byte(rssi), hops];
    let wire = front + prefixed(text);
    lemma_prefixed(front, text);
    assert(wire.subrange(0, 32) =~= peer@);
    assert(wire[32] == front[32] && wire[33] == front[33]);
}

/// Where the fields of the other events stand behind the header.
pub proof fn law_short_event_layouts(
    peer: PeerId,
    msg_id: [u8; 16],
    flag: bool,
    message: Seq<char>,
)
    requires
        vstd::utf8::encode_utf8(message).len() <= u32::MAX,
    ensures
        ((EventKindModel::PeerLost { peer }).body() == peer@),
        ({
            let wire = (EventKindModel::MessageDelivered { msg_id, direct: flag }).body();
            &&& wire.len() == 20
            &&& wire.subrange(0, 16) == msg_id@
            &&& wire[16] == if flag {
                1int
            } else {
                0
            }
            &&& wire[17] == 0 && wire[18] == 0 && wire[19] == 0
        }),
        ({
            let wire = (EventKindModel::TransportState { running: flag }).body();
            &&& wire.len() == 4
            &&& wire[0] == if flag {
                1int
            } else {
                0
            }
            &&& wire[1] == 0 && wire[2] == 0 && wire[3] == 0
        }),
        ({
            let wire = (EventKindModel::Error { message }).body();
            let text = vstd::utf8::encode_utf8(message);
            &&& wire.len() == 4 + text.len()
            &&& bytes::le_value(wire.subrange(0, 4)) == text.len()
            &&& wire.skip(4) == text
        }),
        ({
            let wire = (EventKindModel::MessageExpired { msg_id, reason: message }).body();
            let text = vstd::utf8::encode_utf8(message);
            &&& wire.len() == 20 + text.len()
            &&& wire.subrange(0, 16) == msg_id@
            &&& bytes::le_value(wire.subrange(16, 20)) == text.len()
            &&& wire.skip(20) == text
        }),
{
    let text = vstd::utf8::encode_utf8(message);
    let none = Seq::<u8>::empty();
    lemma_prefixed(none, text);
    assert(none + prefixed(text) =~= prefixed(text));
    lemma_prefixed(msg_id@, text);
    let delivered = (EventKindModel::MessageDelivered { msg_id, direct: flag }).body();
    assert(delivered.subrange(0, 16) =~= msg_id@);
    let expired = (EventKindModel::MessageExpired { msg_id, reason: message }).body();
    assert(expired.subrange(0, 16) =~= expired.take(16));
}

} // verus!
