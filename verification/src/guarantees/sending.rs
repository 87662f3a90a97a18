//! What a frame of ours says, and what is kept of one that came in.
use vstd::prelude::*;

use crate::bytes;
use crate::crypto;
use crate::crypto::PeerId;
use crate::error::CoreError;
use crate::event::EventKindModel;
use crate::frame;
use crate::frame::{FrameKind, FrameModel};
use crate::outbox;
use crate::outbox::Traffic;
use crate::protocol;
use crate::protocol::{ActionModel, Draw, NodeModel, Step};
use crate::senderkey;
use crate::senderkey::ChainModel;

verus! {

/// What a sealed frame shows of us on the air: our id, our session and our counter,
/// the whole life that frames are given and no hop behind it, whom it is for and under
/// which id, its kind, and which key opens it. A frame to a peer whose prekey we hold
/// is sealed for that prekey; a broadcast goes out on our chain once anybody holds it.
pub proof fn law_frame_shows_who_and_for_whom(
    node: NodeModel,
    recipient: PeerId,
    msg_id: [u8; 16],
    body: Seq<u8>,
    kind: FrameKind,
    draw: Draw,
)
    requires
        node.sealed(recipient, msg_id, body, kind, draw) is Ok,
        draw.full_length(),
        draw.ephemeral matches Some(secret) ==> crypto::x25519_public(secret).len() == 32,
    ensures
        ({
            let wire = node.sealed(recipient, msg_id, body, kind, draw)->Ok_0;
            let everyone = recipient == crypto::BROADCAST_ID;
            let prekey = !everyone && node.peer_prekeys.contains_key(recipient);
            let chain = everyone && node.shared_with.len() > 0 && node.chain.index < u32::MAX;
            &&& wire.len() >= 116
            &&& wire[2] == (match kind {
                FrameKind::Message => 0int,
                FrameKind::Beacon => 1,
                FrameKind::Ack => 2,
                FrameKind::SenderKey => 16,
            }) + (if prekey {
                4int
            } else if chain {
                8
            } else {
                0
            })
            &&& wire[3] == node.ttl
            &&& wire[4] == 0
            &&& wire[5] == 0
            &&& bytes::le_value(wire.subrange(6, 8)) == body.len() + 16
            &&& bytes::le_value(wire.subrange(8, 16)) == node.epoch
            &&& bytes::le_value(wire.subrange(16, 24)) == node.counter
            &&& wire.subrange(24, 56) == node.id@
            &&& wire.subrange(56, 88) == recipient@
            &&& wire.subrange(88, 104) == msg_id@
            &&& wire.subrange(104, 116) == draw.nonce->Some_0
            &&& prekey ==> {
                &&& wire.subrange(116, 148) == crypto::x25519_public(draw.ephemeral->Some_0)
                &&& bytes::le_value(wire.subrange(148, 152))
                    == node.peer_prekeys[recipient].generation
            }
            &&& chain ==> {
                &&& bytes::le_value(wire.subrange(116, 120)) == node.chain.chain_id
                &&& bytes::le_value(wire.subrange(120, 124)) == node.chain.index
            }
        }),
{
    let out = node.outgoing(recipient, msg_id, body, kind, draw.ephemeral->Some_0);
    frame::law_wire_layout(node.seed, node.id@, out, draw.nonce->Some_0);
    lemma_no_name();
}

proof fn lemma_no_name()
    ensures
        frame::nickname_bytes(""@).len() == 0,
{
    reveal_strlit("");
    assert(""@ =~= Seq::<char>::empty());
    assert(vstd::utf8::encode_utf8(""@).len() == 0);
}

/// What a beacon shows of us: it is for everyone and has one hop to live. Under the
/// channel key, which every member has, it carries our current prekey, signed by us.
pub proof fn law_beacon_shows_our_prekey(node: NodeModel, draw: Draw)
    requires
        node.beacon(draw) is Ok,
        draw.full_length(),
    ensures
        ({
            let wire = node.beacon(draw)->Ok_0;
            let current = node.prekeys.current;
            let body = bytes::le_bytes(current.generation as nat, 4) + current.public
                + crypto::ed25519_signature(
                node.seed,
                crypto::prekey_statement(current.generation, current.public),
            );
            let end = 116 + wire[5];
            &&& wire.len() >= end
            &&& wire[2] == 1
            &&& wire[3] == 1
            &&& wire[4] == 0
            &&& bytes::le_value(wire.subrange(8, 16)) == node.epoch
            &&& bytes::le_value(wire.subrange(16, 24)) == node.counter
            &&& wire.subrange(24, 56) == node.id@
            &&& wire.subrange(56, 88) == crypto::BROADCAST_ID@
            &&& wire.subrange(88, 104) == draw.msg_id->Some_0@
            &&& wire.skip(end) == crypto::aead_sealed(
                node.channel_key,
                draw.nonce->Some_0,
                wire.take(end).update(3, 0).update(4, 0),
                body,
            )
        }),
{
    let out = node.announcement(draw.msg_id->Some_0);
    let nonce = draw.nonce->Some_0;
    let wire = node.beacon(draw)->Ok_0;
    frame::law_wire_layout(node.seed, node.id@, out, nonce);
    let prefix = frame::prefix_bytes(node.id@, out, nonce);
    let nick = frame::nickname_bytes(out.nickname);
    frame::lemma_prefix_len(node.id@, out, nonce);
    let end = 116 + wire[5];
    assert(wire[5] == nick.len());
    assert(prefix.len() == end);
    assert(wire.take(end) =~= prefix);
    assert(wire.skip(end) =~= crypto::aead_sealed(
        node.channel_key,
        nonce,
        frame::aad_of(prefix),
        out.body,
    ));
}

/// No counter is used twice: sealing a message, whether it comes to a frame or not,
/// takes the counter it would carry, and a broadcast on the chain takes the position
/// and the key with it. The next frame has the next ones.
pub proof fn law_sending_takes_its_counter(
    step: Step,
    to: Option<PeerId>,
    body: Seq<u8>,
    msg_id: [u8; 16],
    now_ms: u64,
    draw: Draw,
)
    requires
        step.node.running,
        step.node.counter < u64::MAX,
    ensures
        ({
            let (after, result) = step.send(to, body, msg_id, now_ms, draw);
            let on_chain = (to is None || to == Some(crypto::BROADCAST_ID))
                && step.node.shared_with.len() > 0 && step.node.chain.index < u32::MAX;
            &&& after.node.counter == step.node.counter + 1
            &&& on_chain ==> {
                &&& after.node.chain.index == step.node.chain.index + 1
                &&& after.node.chain.chain_id == step.node.chain.chain_id
                &&& after.node.chain.key == crypto::next_chain_key(step.node.chain.key)
            }
            &&& !on_chain ==> after.node.chain == step.node.chain
            &&& result is Ok ==> after.node.seen.contains(msg_id)
            &&& result is Err ==> after.out == step.out && after.node.outbox == step.node.outbox
        }),
{
    let (after, result) = step.send(to, body, msg_id, now_ms, draw);
    let sealed = step.node.after_seal(protocol::addressee(to));
    if result is Ok && !sealed.seen.contains(msg_id) {
        let seen = sealed.remembering(msg_id).seen;
        assert(seen.last() == msg_id);
    }
}

/// What is too long to send is refused, and what is not is sent, as long as there is
/// randomness and a key can be agreed with the recipient.
pub proof fn law_what_can_be_sent(
    step: Step,
    to: Option<PeerId>,
    body: Seq<u8>,
    msg_id: [u8; 16],
    now_ms: u64,
    draw: Draw,
)
    requires
        step.node.running,
        draw.ephemeral is Some,
        draw.nonce is Some,
    ensures
        ({
            let result = step.send(to, body, msg_id, now_ms, draw).1;
            &&& body.len() > 324 ==> result == Err::<(), CoreError>(
                CoreError::InvalidArgument("body exceeds MAX_BODY"),
            )
            &&& body.len() <= 324 && to is None ==> result is Ok
        }),
{
    assert(frame::MAX_BODY == 324);
}

/// A message that comes in is kept, last of all, until the application fetches it. Two
/// hundred and fifty-six are kept; past that the oldest makes room. The application is
/// told of it in the same words.
pub proof fn law_inbox_keeps_the_latest(
    step: Step,
    f: FrameModel,
    body: Seq<u8>,
    rssi: i8,
    now_ms: u64,
    draw: Draw,
)
    ensures
        ({
            let before = step.node.inbox;
            let after = step.accept_message(f, body, rssi, now_ms, draw).0;
            let inbox = after.node.inbox;
            let shift: int = if before.len() >= 256 {
                1
            } else {
                0
            };
            let event = inbox.last();
            &&& inbox.len() == before.len() + 1 - shift
            &&& forall|i: int|
                0 <= i < inbox.len() - 1 ==> #[trigger] inbox[i] == before[i + shift]
            &&& event.seq == step.node.seq
            &&& event.ts_ms == now_ms
            &&& event.kind == (EventKindModel::MessageReceived {
                sender: bytes::array_32(f.sender),
                msg_id: bytes::array_16(f.msg_id),
                ttl: f.ttl,
                hops: f.hops,
                rssi,
                forward_secret: f.fs is Some || f.sk is Some,
                body,
            })
            &&& after.out.len() > step.out.len()
            &&& after.out[step.out.len() as int] == ActionModel::Emit(event)
        }),
{
}

/// A distribution that comes in is answered like a message, and nothing is said of it
/// to the user.
pub proof fn law_distribution_is_acked_in_silence(
    step: Step,
    f: FrameModel,
    body: Seq<u8>,
    draw: Draw,
    wire: Seq<u8>,
)
    requires
        body.len() == 40,
        !f.is_broadcast(),
        f.sender.len() == 32,
        f.msg_id.len() == 16,
        f.sender != crypto::BROADCAST_ID@,
        draw.msg_id is Some,
        step.node.sealed(
            bytes::array_32(f.sender),
            draw.msg_id->Some_0,
            f.msg_id,
            FrameKind::Ack,
            draw,
        ) == Ok::<Seq<u8>, CoreError>(wire),
    ensures
        ({
            let (after, result) = step.accept_chain(f, body, draw);
            &&& result is Ok
            &&& after.out == step.out.push(
                ActionModel::Direct { peer: bytes::array_32(f.sender), wire },
            )
            &&& after.node.inbox == step.node.inbox
        }),
{
    let sender = bytes::array_32(f.sender);
    bytes::lemma_array_32_holds(f.sender);
    bytes::lemma_array_16_holds(f.msg_id);
    let d = ChainModel::decoded(body)->Some_0;
    let installed = NodeModel {
        chains: senderkey::installed(step.node.chains, sender, d).0,
        ..step.node
    };
    assert(installed.sealed(
        sender,
        draw.msg_id->Some_0,
        bytes::array_16(f.msg_id)@,
        FrameKind::Ack,
        draw,
    ) == step.node.sealed(sender, draw.msg_id->Some_0, f.msg_id, FrameKind::Ack, draw));
}

/// Acks, distributions and beacons take a counter each, as messages do, so that no two
/// frames of a session carry the same.
pub proof fn law_every_frame_takes_a_counter(
    step: Step,
    peer: PeerId,
    acked: [u8; 16],
    starting: bool,
    now_ms: u64,
    draw: Draw,
)
    requires
        step.node.counter < u64::MAX,
        draw.msg_id is Some,
    ensures
        step.acknowledge(peer, acked, draw).0.node.counter == step.node.counter + 1,
        step.send_beacon(starting, now_ms, draw).node.counter == step.node.counter + 1,
        step.share_chain(peer, now_ms, draw).0.node.counter == step.node.counter + if peer
            != crypto::BROADCAST_ID && step.node.peer_prekeys.contains_key(peer) {
            1int
        } else {
            0
        },
{
}

/// A distribution is queued as it went out, as a frame of our own, until it is acked.
pub proof fn law_distribution_is_queued(
    step: Step,
    peer: PeerId,
    now_ms: u64,
    draw: Draw,
    wire: Seq<u8>,
)
    requires
        peer != crypto::BROADCAST_ID,
        step.node.peer_prekeys.contains_key(peer),
        draw.msg_id is Some,
        now_ms + 1_000 <= u64::MAX,
        step.node.sealed(
            peer,
            draw.msg_id->Some_0,
            step.node.chain.encoded(),
            FrameKind::SenderKey,
            draw,
        ) == Ok::<Seq<u8>, CoreError>(wire),
    ensures
        ({
            let (after, result) = step.share_chain(peer, now_ms, draw);
            let entry = after.node.outbox.last();
            &&& result is Ok
            &&& after.out.len() > step.out.len()
            &&& after.out[step.out.len() as int] == (ActionModel::Direct { peer, wire })
            &&& after.node.outbox.len() > 0
            &&& entry.msg_id == draw.msg_id->Some_0
            &&& entry.recipient == peer
            &&& entry.wire == wire
            &&& entry.traffic == Traffic::Internal
            &&& entry.attempts == 0
            &&& entry.queued_at_ms == now_ms
            &&& entry.next_attempt_ms == now_ms + 1_000
            &&& after.node.shared_with.contains(peer)
        }),
{
    let (after, result) = step.share_chain(peer, now_ms, draw);
    outbox::law_backoff_grows_and_caps(0, 0);
    if !step.node.shared_with.contains(peer) {
        assert(after.node.shared_with.last() == peer);
    }
}

} // verus!
