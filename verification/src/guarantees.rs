//! What nodes promise each other, whatever the air does.
//!
//! Every law here speaks of the steps that the contracts of
//! [`Worker`](crate::worker::Worker) speak of.
use vstd::prelude::*;

use crate::bytes;
use crate::crypto;
use crate::crypto::PeerId;
use crate::error::CoreError;
use crate::event::{EventKindModel, EventModel};
use crate::frame;
use crate::frame::{FrameKind, FrameModel, SealingModel};
use crate::outbox;
use crate::outbox::{DueModel, PendingModel, Traffic};
use crate::peer::PeerModel;
use crate::prekey;
use crate::prekey::PeerPrekey;
use crate::protocol;
use crate::protocol::{ActionModel, CommandModel, Draw, NodeModel, Step, TickDraw};
use crate::relaycache;
use crate::relaycache::CarriedModel;
use crate::replay::ReplayVerdict;
use crate::senderkey;
use crate::senderkey::{ChainModel, HeldModel, InboundModel};
use crate::seqs;

pub mod events;
pub mod lifecycle;
pub mod peers;
pub mod receipts;
pub mod receiving;
pub mod relaying;
pub mod rotation;
pub mod sending;

verus! {

// ---------------------------------------------------------------------------
// Delivery
// ---------------------------------------------------------------------------

/// `data` is the frame `wire` as it comes off the air after any number of relays:
/// the same in everything but its remaining life and its hops.
pub open spec fn arrives_as(wire: Seq<u8>, data: Seq<u8>) -> bool {
    match (frame::parsed(wire), frame::parsed(data)) {
        (Ok(sent), Ok(f)) => f == (FrameModel { ttl: f.ttl, hops: f.hops, ..sent }),
        _ => false,
    }
}

/// Relaying, once more, is arriving.
pub proof fn law_relayed_frame_arrives(wire: Seq<u8>, data: Seq<u8>)
    requires
        arrives_as(wire, data),
    ensures
        arrives_as(wire, frame::relayed(data)),
{
    frame::law_relaying_preserves_the_frame(data);
}

/// The receiver takes a frame of the sender: it has not seen its id, is not the
/// sender itself, and its replay window for the sender has not passed the counter.
pub open spec fn takes(receiver: NodeModel, sender: NodeModel, msg_id: [u8; 16]) -> bool {
    &&& !receiver.seen.contains(msg_id)
    &&& receiver.id != sender.id
    &&& receiver.verdict(sender.id, sender.epoch, sender.counter) == ReplayVerdict::Fresh
}

/// The receiver has the key that goes with how the sender seals for `recipient`.
pub open spec fn has_key(receiver: NodeModel, sender: NodeModel, recipient: PeerId) -> bool {
    if recipient == crypto::BROADCAST_ID {
        if sender.uses_chain(recipient) {
            match senderkey::position(receiver.chains, sender.id, sender.chain.chain_id) {
                Some(at) => match receiver.chains[at].chain.derived(sender.chain.index) {
                    Some(d) => d.key == crypto::message_key(sender.chain.key),
                    None => false,
                },
                None => false,
            }
        } else {
            receiver.channel_key == sender.channel_key
        }
    } else {
        &&& receiver.id == recipient
        &&& sender.peer_prekeys.contains_key(recipient) ==> {
            let prekey = sender.peer_prekeys[recipient];
            &&& receiver.prekeys.find(prekey.generation) matches Some(pair)
            &&& pair.public == prekey.public@
        }
    }
}

/// What the receiver makes of the sender's frame before it looks inside.
proof fn lemma_opens(
    sender: NodeModel,
    receiver: NodeModel,
    recipient: PeerId,
    msg_id: [u8; 16],
    body: Seq<u8>,
    kind: FrameKind,
    draw: Draw,
    wire: Seq<u8>,
    data: Seq<u8>,
)
    requires
        receiver.well_formed(),
        receiver.keyed(),
        sender.sealed(recipient, msg_id, body, kind, draw) == Ok::<Seq<u8>, CoreError>(wire),
        sender.readable(recipient, msg_id, body, kind, draw),
        has_key(receiver, sender, recipient),
        arrives_as(wire, data),
    ensures
        frame::parsed(data) matches Ok(f) && {
            &&& f.sender == sender.id@
            &&& f.recipient == recipient@
            &&& f.msg_id == msg_id@
            &&& f.epoch == sender.epoch
            &&& f.counter == sender.counter
            &&& f.kind == kind
            &&& f.is_broadcast() == (recipient == crypto::BROADCAST_ID)
            &&& f.is_forward_secret() == (sender.uses_chain(recipient) || sender.needs_ephemeral(
                recipient,
            ))
            &&& receiver.unsealed(f) == Ok::<Seq<u8>, CoreError>(body)
        },
{
    let out = sender.outgoing(recipient, msg_id, body, kind, draw.ephemeral->Some_0);
    assert(crypto::BROADCAST_ID@ =~= bytes::zeros(32));
    assert(recipient@ == bytes::zeros(32) ==> recipient =~= crypto::BROADCAST_ID);
    assert(frame::addressed_well(out));
    let f = frame::parsed(data)->Ok_0;
    let sent = frame::parsed(wire)->Ok_0;
    bytes::lemma_array_32(sender.id);
    assert(frame::opens_for_recipient(out, sent));
    assert(receiver.opening(f) is Ok);
    let opening = receiver.opening(f)->Ok_0;
    assert(frame::opened(receiver.seed, receiver.id@, f, opening) == frame::opened(
        receiver.seed,
        receiver.id@,
        sent,
        opening,
    ));
    if sender.needs_ephemeral(recipient) {
        let generation = sender.peer_prekeys[recipient].generation;
        let pair = receiver.prekeys.find(generation)->Some_0;
        assert(pair.sound());
    }
}

/// The event of a message that came off the air as `f`.
pub open spec fn received(f: FrameModel, body: Seq<u8>, rssi: i8) -> EventKindModel {
    EventKindModel::MessageReceived {
        sender: bytes::array_32(f.sender),
        msg_id: bytes::array_16(f.msg_id),
        ttl: f.ttl,
        hops: f.hops,
        rssi,
        forward_secret: f.is_forward_secret(),
        body,
    }
}

/// A message that was sent is received, word for word, by whoever it was sealed
/// for, however often it was relayed: it lands in the inbox and is told to the
/// application, under the sender's name, and marked forward secret if and only if
/// it was sealed so.
pub proof fn law_sent_message_is_received(
    sender: NodeModel,
    receiver: Step,
    recipient: PeerId,
    msg_id: [u8; 16],
    body: Seq<u8>,
    draw: Draw,
    wire: Seq<u8>,
    data: Seq<u8>,
    rssi: i8,
    now_ms: u64,
    answer: Draw,
)
    requires
        receiver.node.well_formed(),
        receiver.node.keyed(),
        sender.sealed(recipient, msg_id, body, FrameKind::Message, draw) == Ok::<
            Seq<u8>,
            CoreError,
        >(wire),
        sender.readable(recipient, msg_id, body, FrameKind::Message, draw),
        has_key(receiver.node, sender, recipient),
        takes(receiver.node, sender, msg_id),
        arrives_as(wire, data),
    ensures
        ({
            let after = receiver.ingest(rssi, data, now_ms, answer).0;
            let event = after.node.inbox.last();
            &&& after.node.inbox.len() > 0
            &&& after.out.contains(ActionModel::Emit(event))
            &&& event.ts_ms == now_ms
            &&& event.kind == (EventKindModel::MessageReceived {
                sender: sender.id,
                msg_id,
                ttl: frame::parsed(data)->Ok_0.ttl,
                hops: frame::parsed(data)->Ok_0.hops,
                rssi,
                forward_secret: sender.uses_chain(recipient) || sender.needs_ephemeral(recipient),
                body,
            })
        }),
{
    let fresh = receiver.node.remembering(msg_id);
    lemma_opens(
        sender,
        receiver.node,
        recipient,
        msg_id,
        body,
        FrameKind::Message,
        draw,
        wire,
        data,
    );
    let f = frame::parsed(data)->Ok_0;
    bytes::lemma_array_32(sender.id);
    bytes::lemma_array_32(recipient);
    bytes::lemma_array_16(msg_id);
    assert(fresh.unsealed(f) == receiver.node.unsealed(f));
    assert(sender.id@ == receiver.node.id@ ==> sender.id =~= receiver.node.id);
    let judged = Step {
        node: fresh.after_unseal(f).judging(sender.id, f.epoch, f.counter),
        out: receiver.out,
    };
    let heard = judged.touch(sender.id, f.nickname, rssi, f.hops, now_ms);
    protocol::lemma_touch(judged, sender.id, f.nickname, rssi, f.hops, now_ms);
    let event = EventModel {
        seq: heard.node.seq,
        ts_ms: now_ms,
        kind: received(f, body, rssi),
    };
    let (taken, result) = heard.accept_message(f, body, rssi, now_ms, answer);
    let at = heard.out.len() as int;
    assert(taken.out[at] == ActionModel::Emit(event));
    let after = receiver.ingest(rssi, data, now_ms, answer).0;
    assert(after.out[at] == ActionModel::Emit(event));
    assert(after.node.inbox == taken.node.inbox);
}

/// Where the receiver of a directed frame stands once it has authenticated it, and
/// before it looks at what kind of frame it is.
proof fn lemma_heard(
    sender: NodeModel,
    receiver: Step,
    recipient: PeerId,
    msg_id: [u8; 16],
    body: Seq<u8>,
    kind: FrameKind,
    draw: Draw,
    wire: Seq<u8>,
    data: Seq<u8>,
    rssi: i8,
    now_ms: u64,
    answer: Draw,
) -> (heard: Step)
    requires
        receiver.node.well_formed(),
        receiver.node.keyed(),
        sender.sealed(recipient, msg_id, body, kind, draw) == Ok::<Seq<u8>, CoreError>(wire),
        sender.readable(recipient, msg_id, body, kind, draw),
        has_key(receiver.node, sender, recipient),
        takes(receiver.node, sender, msg_id),
        arrives_as(wire, data),
        recipient != crypto::BROADCAST_ID,
        kind == FrameKind::SenderKey || kind == FrameKind::Ack,
    ensures
        heard.node == (NodeModel {
            seq: heard.node.seq,
            peers: heard.node.peers,
            outbox: heard.node.outbox,
            carried: heard.node.carried,
            seen: heard.node.seen,
            replay: heard.node.replay,
            ..receiver.node
        }),
        kind == FrameKind::SenderKey ==> receiver.ingest(rssi, data, now_ms, answer).0
            == heard.accept_chain(frame::parsed(data)->Ok_0, body, answer).0,
        kind == FrameKind::Ack ==> receiver.ingest(rssi, data, now_ms, answer).0
            == heard.accept_ack(sender.id, body, now_ms),
{
    let fresh = receiver.node.remembering(msg_id);
    lemma_opens(sender, receiver.node, recipient, msg_id, body, kind, draw, wire, data);
    frame::law_preambles_agree_with_the_recipient(data);
    let f = frame::parsed(data)->Ok_0;
    bytes::lemma_array_32(sender.id);
    bytes::lemma_array_32(recipient);
    bytes::lemma_array_16(msg_id);
    assert(fresh.unsealed(f) == receiver.node.unsealed(f));
    assert(sender.id@ == receiver.node.id@ ==> sender.id =~= receiver.node.id);
    let judged = Step {
        node: fresh.after_unseal(f).judging(sender.id, f.epoch, f.counter),
        out: receiver.out,
    };
    protocol::lemma_touch(judged, sender.id, f.nickname, rssi, f.hops, now_ms);
    judged.touch(sender.id, f.nickname, rssi, f.hops, now_ms)
}

/// The node does not hold the chain, or stands before its position.
pub open spec fn lacks(node: NodeModel, peer: PeerId, chain: ChainModel) -> bool {
    match senderkey::position(node.chains, peer, chain.chain_id) {
        Some(at) => node.chains[at].chain.index < chain.index,
        None => true,
    }
}

/// A chain that was handed over is held: whoever lacked it now has it as it stood,
/// and with it the key of the sender's next broadcast. Whoever stood there already
/// stays where they are.
pub proof fn law_shared_chain_is_held(
    sender: NodeModel,
    receiver: Step,
    msg_id: [u8; 16],
    draw: Draw,
    wire: Seq<u8>,
    data: Seq<u8>,
    rssi: i8,
    now_ms: u64,
    answer: Draw,
)
    requires
        sender.keyed(),
        receiver.node.well_formed(),
        receiver.node.keyed(),
        receiver.node.id != crypto::BROADCAST_ID,
        sender.chain.index < u32::MAX,
        sender.sealed(
            receiver.node.id,
            msg_id,
            sender.chain.encoded(),
            FrameKind::SenderKey,
            draw,
        ) == Ok::<Seq<u8>, CoreError>(wire),
        sender.readable(
            receiver.node.id,
            msg_id,
            sender.chain.encoded(),
            FrameKind::SenderKey,
            draw,
        ),
        has_key(receiver.node, sender, receiver.node.id),
        takes(receiver.node, sender, msg_id),
        arrives_as(wire, data),
    ensures
        ({
            let after = receiver.ingest(rssi, data, now_ms, answer).0.node;
            let at = senderkey::position(after.chains, sender.id, sender.chain.chain_id);
            let chain = after.chains[at->Some_0].chain;
            &&& at is Some
            &&& lacks(receiver.node, sender.id, sender.chain) ==> {
                &&& chain == InboundModel::starting_at(sender.chain)
                &&& chain.derived(sender.chain.index) is Some
                &&& chain.derived(sender.chain.index)->Some_0.key == crypto::message_key(
                    sender.chain.key,
                )
            }
            &&& !lacks(receiver.node, sender.id, sender.chain) ==> after.chains
                == receiver.node.chains
        }),
{
    let body = sender.chain.encoded();
    let heard = lemma_heard(
        sender,
        receiver,
        receiver.node.id,
        msg_id,
        body,
        FrameKind::SenderKey,
        draw,
        wire,
        data,
        rssi,
        now_ms,
        answer,
    );
    lemma_opens(
        sender,
        receiver.node,
        receiver.node.id,
        msg_id,
        body,
        FrameKind::SenderKey,
        draw,
        wire,
        data,
    );
    let f = frame::parsed(data)->Ok_0;
    bytes::lemma_array_32(sender.id);
    senderkey::law_distribution_round_trips(sender.chain);
    let before = receiver.node.chains;
    let held = HeldModel {
        peer: sender.id,
        chain_id: sender.chain.chain_id,
        chain: InboundModel::starting_at(sender.chain),
    };
    let after = receiver.ingest(rssi, data, now_ms, answer).0.node;
    assert(after.chains == senderkey::installed(before, sender.id, sender.chain).0);
    senderkey::lemma_installed_well_formed(before, sender.id, sender.chain);
    match senderkey::position(before, sender.id, sender.chain.chain_id) {
        Some(at) => {
            assert(after.chains[at].peer == sender.id);
        },
        None => {
            assert(after.chains[0] == held);
        },
    }
}

/// A beacon introduces its sender: whoever is on the same channel sees the peer, and
/// holds its current prekey, or one of a later generation.
pub proof fn law_beacon_introduces_its_sender(
    sender: NodeModel,
    receiver: Step,
    draw: Draw,
    wire: Seq<u8>,
    data: Seq<u8>,
    rssi: i8,
    now_ms: u64,
    answer: Draw,
)
    requires
        receiver.node.well_formed(),
        receiver.node.keyed(),
        sender.beacon(draw) == Ok::<Seq<u8>, CoreError>(wire),
        sender.beacon_readable(draw),
        receiver.node.channel_key == sender.channel_key,
        takes(receiver.node, sender, draw.msg_id->Some_0),
        arrives_as(wire, data),
    ensures
        ({
            let after = receiver.ingest(rssi, data, now_ms, answer).0.node;
            let current = sender.prekeys.current;
            &&& protocol::peer_at(after.peers, sender.id) is Some
            &&& after.peer_prekeys.contains_key(sender.id)
            &&& after.peer_prekeys[sender.id].generation >= current.generation
            &&& receiver.node.is_news(sender.id, current.generation) ==> {
                &&& after.peer_prekeys[sender.id].generation == current.generation
                &&& after.peer_prekeys[sender.id].public == bytes::array_32(current.public)
            }
        }),
{
    let msg_id = draw.msg_id->Some_0;
    let out = sender.announcement(msg_id);
    let fresh = receiver.node.remembering(msg_id);
    assert(crypto::BROADCAST_ID@ =~= bytes::zeros(32));
    assert(frame::addressed_well(out));
    let sent = frame::parsed(wire)->Ok_0;
    let f = frame::parsed(data)->Ok_0;
    bytes::lemma_array_32(sender.id);
    bytes::lemma_array_16(msg_id);
    assert(frame::opens_for_recipient(out, sent));
    let opening = receiver.node.opening(f)->Ok_0;
    assert(frame::opened(receiver.node.seed, receiver.node.id@, f, opening) == frame::opened(
        receiver.node.seed,
        receiver.node.id@,
        sent,
        opening,
    ));
    assert(fresh.unsealed(f) == Ok::<Seq<u8>, CoreError>(out.body));
    assert(sender.id@ == receiver.node.id@ ==> sender.id =~= receiver.node.id);
    let judged = Step {
        node: fresh.after_unseal(f).judging(sender.id, f.epoch, f.counter),
        out: receiver.out,
    };
    let heard = judged.touch(sender.id, f.nickname, rssi, f.hops, now_ms);
    protocol::lemma_touch(judged, sender.id, f.nickname, rssi, f.hops, now_ms);
    lemma_touched_peer_is_known(judged, sender.id, f.nickname, rssi, f.hops, now_ms);
    let current = sender.prekeys.current;
    let known = Step {
        node: NodeModel {
            peer_prekeys: heard.node.peer_prekeys.insert(
                sender.id,
                PeerPrekey {
                    generation: current.generation,
                    public: bytes::array_32(current.public),
                },
            ),
            ..heard.node
        },
        out: heard.out,
    };
    protocol::lemma_share_chain(known, sender.id, now_ms, answer);
    protocol::lemma_share_chain(heard, sender.id, now_ms, answer);
}

/// A peer that was heard is in the table.
proof fn lemma_touched_peer_is_known(
    step: Step,
    id: PeerId,
    nickname: Seq<char>,
    rssi: i8,
    hops: u8,
    now_ms: u64,
)
    ensures
        protocol::peer_at(step.touch(id, nickname, rssi, hops, now_ms).node.peers, id) is Some,
{
    let after = step.touch(id, nickname, rssi, hops, now_ms);
    let peers = step.node.peers;
    match protocol::peer_at(peers, id) {
        Some(at) => {
            assert(after.node.peers[at].id == id);
        },
        None => {
            let greeted = Step {
                node: NodeModel {
                    peers: peers.push(
                        PeerModel { id, nickname, rssi, last_seen_ms: now_ms, hops },
                    ),
                    ..step.node
                },
                out: step.out,
            }.emit(
                now_ms,
                EventKindModel::PeerDiscovered { peer: id, nickname, rssi, hops },
            ).hand_over(id);
            let woken = Step {
                node: NodeModel {
                    outbox: outbox::after_wake(greeted.node.outbox, id, now_ms),
                    ..greeted.node
                },
                out: greeted.out,
            };
            protocol::lemma_flush(woken, now_ms);
            assert(after.node.peers[peers.len() as int].id == id);
        },
    }
}

/// An ack clears what it acknowledges: a message of the user that is still queued for
/// the peer that acks it leaves the queue, and its delivery is reported.
pub proof fn law_ack_clears_the_message(
    sender: NodeModel,
    receiver: Step,
    acked: [u8; 16],
    at: int,
    msg_id: [u8; 16],
    draw: Draw,
    wire: Seq<u8>,
    data: Seq<u8>,
    rssi: i8,
    now_ms: u64,
    answer: Draw,
)
    requires
        receiver.node.well_formed(),
        receiver.node.keyed(),
        receiver.node.id != crypto::BROADCAST_ID,
        sender.sealed(receiver.node.id, msg_id, acked@, FrameKind::Ack, draw) == Ok::<
            Seq<u8>,
            CoreError,
        >(wire),
        sender.readable(receiver.node.id, msg_id, acked@, FrameKind::Ack, draw),
        has_key(receiver.node, sender, receiver.node.id),
        takes(receiver.node, sender, msg_id),
        arrives_as(wire, data),
        protocol::peer_at(receiver.node.peers, sender.id) is Some,
        0 <= at < receiver.node.outbox.len(),
        receiver.node.outbox[at].msg_id == acked,
        receiver.node.outbox[at].recipient == sender.id,
        receiver.node.outbox[at].traffic == Traffic::User,
    ensures
        ({
            let after = receiver.ingest(rssi, data, now_ms, answer).0;
            &&& after.node.outbox == outbox::without(receiver.node.outbox, acked)
            &&& !outbox::queued(after.node.outbox, acked)
            &&& after.out.last() == ActionModel::Emit(
                EventModel {
                    seq: receiver.node.seq,
                    ts_ms: now_ms,
                    kind: EventKindModel::MessageDelivered { msg_id: acked, direct: true },
                },
            )
        }),
{
    let fresh = receiver.node.remembering(msg_id);
    lemma_opens(
        sender,
        receiver.node,
        receiver.node.id,
        msg_id,
        acked@,
        FrameKind::Ack,
        draw,
        wire,
        data,
    );
    frame::law_preambles_agree_with_the_recipient(data);
    let f = frame::parsed(data)->Ok_0;
    bytes::lemma_array_32(sender.id);
    bytes::lemma_array_32(receiver.node.id);
    bytes::lemma_array_16(msg_id);
    bytes::lemma_array_16(acked);
    assert(fresh.unsealed(f) == receiver.node.unsealed(f));
    assert(sender.id@ == receiver.node.id@ ==> sender.id =~= receiver.node.id);
    assert(outbox::queued_for(receiver.node.outbox, acked, sender.id));
    let keep = |p: PendingModel| p.msg_id != acked;
    let after = receiver.ingest(rssi, data, now_ms, answer).0;
    assert(after.node.outbox == receiver.node.outbox.filter(keep));
    assert forall|i: int| 0 <= i < after.node.outbox.len() implies (
    #[trigger] after.node.outbox[i]).msg_id != acked by {
        seqs::lemma_filter_members(receiver.node.outbox, keep, i);
    }
}

/// An ack from anyone but the peer that the message is for does nothing: the queue
/// stays as it is, and nothing is reported or sent. Every member of the channel sees
/// the id of a message go by, and none but the recipient can vouch for its delivery.
pub proof fn law_strangers_ack_changes_nothing(
    sender: NodeModel,
    receiver: Step,
    acked: [u8; 16],
    at: int,
    msg_id: [u8; 16],
    draw: Draw,
    wire: Seq<u8>,
    data: Seq<u8>,
    rssi: i8,
    now_ms: u64,
    answer: Draw,
)
    requires
        receiver.node.well_formed(),
        receiver.node.keyed(),
        receiver.node.id != crypto::BROADCAST_ID,
        sender.sealed(receiver.node.id, msg_id, acked@, FrameKind::Ack, draw) == Ok::<
            Seq<u8>,
            CoreError,
        >(wire),
        sender.readable(receiver.node.id, msg_id, acked@, FrameKind::Ack, draw),
        has_key(receiver.node, sender, receiver.node.id),
        takes(receiver.node, sender, msg_id),
        arrives_as(wire, data),
        protocol::peer_at(receiver.node.peers, sender.id) is Some,
        0 <= at < receiver.node.outbox.len(),
        receiver.node.outbox[at].msg_id == acked,
        receiver.node.outbox[at].recipient != sender.id,
    ensures
        ({
            let (after, result) = receiver.ingest(rssi, data, now_ms, answer);
            &&& result == Ok::<(), CoreError>(())
            &&& after.node.outbox == receiver.node.outbox
            &&& after.out == receiver.out
        }),
{
    let fresh = receiver.node.remembering(msg_id);
    lemma_opens(
        sender,
        receiver.node,
        receiver.node.id,
        msg_id,
        acked@,
        FrameKind::Ack,
        draw,
        wire,
        data,
    );
    frame::law_preambles_agree_with_the_recipient(data);
    let f = frame::parsed(data)->Ok_0;
    bytes::lemma_array_32(sender.id);
    bytes::lemma_array_32(receiver.node.id);
    bytes::lemma_array_16(msg_id);
    bytes::lemma_array_16(acked);
    assert(fresh.unsealed(f) == receiver.node.unsealed(f));
    assert(sender.id@ == receiver.node.id@ ==> sender.id =~= receiver.node.id);
    let queue = receiver.node.outbox;
    assert(!outbox::queued_for(queue, acked, sender.id)) by {
        if outbox::queued_for(queue, acked, sender.id) {
            let i = choose|i: int|
                0 <= i < queue.len() && (#[trigger] queue[i]).msg_id == acked && queue[i].recipient
                    == sender.id;
            assert(queue[i].msg_id == queue[at].msg_id);
        }
    }
}

/// An ack is believed if and only if it comes from the peer that a queued message is
/// for. Then the message leaves the queue, and the user hears of its delivery if and
/// only if it was theirs. Otherwise nothing changes at all.
pub proof fn law_only_the_recipient_acks(step: Step, sender: PeerId, body: Seq<u8>, now_ms: u64)
    requires
        outbox::queue_well_formed(step.node.outbox),
    ensures
        ({
            let acked = bytes::array_16(body);
            let after = step.accept_ack(sender, body, now_ms);
            let believed = body.len() == 16 && outbox::queued_for(
                step.node.outbox,
                acked,
                sender,
            );
            &&& !believed ==> after == step
            &&& believed ==> {
                &&& outbox::queued(step.node.outbox, acked)
                &&& !outbox::queued(after.node.outbox, acked)
                &&& after.node.outbox == outbox::without(step.node.outbox, acked)
                &&& after.out == if awaits(step.node.outbox, acked) {
                    step.out.push(
                        ActionModel::Emit(
                            EventModel {
                                seq: step.node.seq,
                                ts_ms: now_ms,
                                kind: EventKindModel::MessageDelivered {
                                    msg_id: acked,
                                    direct: true,
                                },
                            },
                        ),
                    )
                } else {
                    step.out
                }
            }
        }),
{
    let acked = bytes::array_16(body);
    outbox::law_ack_clears_once(step.node.outbox, acked);
    if outbox::queued_for(step.node.outbox, acked, sender) {
        let i = choose|i: int|
            0 <= i < step.node.outbox.len() && (#[trigger] step.node.outbox[i]).msg_id == acked
                && step.node.outbox[i].recipient == sender;
        assert(step.node.outbox[i].msg_id == acked);
    }
}

// ---------------------------------------------------------------------------
// What the air cannot do
// ---------------------------------------------------------------------------

/// A frame seen before does nothing at all.
pub proof fn law_duplicate_is_dropped(step: Step, rssi: i8, data: Seq<u8>, now_ms: u64, draw: Draw)
    requires
        frame::parsed(data) is Ok,
        step.node.seen.contains(bytes::array_16(frame::parsed(data)->Ok_0.msg_id)),
    ensures
        step.ingest(rssi, data, now_ms, draw) == (step, Ok::<(), CoreError>(())),
{
}

/// A frame of our own that comes back is only remembered.
pub proof fn law_own_frame_is_ignored(step: Step, rssi: i8, data: Seq<u8>, now_ms: u64, draw: Draw)
    requires
        frame::parsed(data) is Ok,
        frame::parsed(data)->Ok_0.sender == step.node.id@,
    ensures
        ({
            let (after, result) = step.ingest(rssi, data, now_ms, draw);
            &&& result == Ok::<(), CoreError>(())
            &&& after.out == step.out
            &&& after.node == (NodeModel { seen: after.node.seen, ..step.node })
        }),
{
}

/// Only what authenticates touches any state. A frame that does not open leaves the
/// node as it was, but for the ids seen, the frames carried for others, and the
/// sequence number of the error that is reported where the frame was addressed to us:
/// no peer appears, no window, chain or prekey moves, nothing is delivered.
pub proof fn law_forged_frame_touches_nothing(
    step: Step,
    rssi: i8,
    data: Seq<u8>,
    now_ms: u64,
    draw: Draw,
)
    requires
        frame::parsed(data) is Ok,
        step.node.unsealed(frame::parsed(data)->Ok_0) is Err,
    ensures
        ({
            let (after, result) = step.ingest(rssi, data, now_ms, draw);
            let f = frame::parsed(data)->Ok_0;
            &&& result == Ok::<(), CoreError>(())
            &&& after.node == (NodeModel {
                seen: after.node.seen,
                carried: after.node.carried,
                seq: after.node.seq,
                ..step.node
            })
            &&& f.is_broadcast() || f.recipient != step.node.id@ ==> after.node.seq
                == step.node.seq
        }),
{
    let f = frame::parsed(data)->Ok_0;
    let fresh = step.node.remembering(bytes::array_16(f.msg_id));
    assert(fresh.unsealed(f) == step.node.unsealed(f));
}

/// A relay needs no key: a frame for somebody else is passed on unopened, and
/// nothing else comes of it.
pub proof fn law_relay_opens_nothing(
    step: Step,
    rssi: i8,
    data: Seq<u8>,
    now_ms: u64,
    draw: Draw,
)
    requires
        frame::parsed(data) is Ok,
        !frame::parsed(data)->Ok_0.is_broadcast(),
        frame::parsed(data)->Ok_0.recipient != step.node.id@,
        frame::parsed(data)->Ok_0.sender != step.node.id@,
        !step.node.seen.contains(bytes::array_16(frame::parsed(data)->Ok_0.msg_id)),
    ensures
        step.ingest(rssi, data, now_ms, draw) == (
            (Step {
                node: step.node.remembering(bytes::array_16(frame::parsed(data)->Ok_0.msg_id)),
                out: step.out,
            }).pass_on(frame::parsed(data)->Ok_0, data, now_ms),
            Ok::<(), CoreError>(()),
        ),
{
}

/// The node no longer takes a frame stamped `(epoch, counter)` by `sender`.
pub open spec fn refuses(node: NodeModel, sender: PeerId, epoch: u64, counter: u64) -> bool {
    node.replay.contains_key(sender) && node.replay[sender].refuses(epoch, counter)
}

/// `after` refuses everything `before` refused.
pub open spec fn refuses_no_less(before: NodeModel, after: NodeModel) -> bool {
    forall|sender: PeerId, epoch: u64, counter: u64|
        refuses(before, sender, epoch, counter) ==> #[trigger] refuses(
            after,
            sender,
            epoch,
            counter,
        )
}

/// `after` holds the prekeys of `before`, or later ones.
pub open spec fn prekeys_no_older(before: NodeModel, after: NodeModel) -> bool {
    forall|peer: PeerId| #[trigger]
        before.peer_prekeys.contains_key(peer) ==> {
            &&& after.peer_prekeys.contains_key(peer)
            &&& before.peer_prekeys[peer].generation <= after.peer_prekeys[peer].generation
        }
}

/// What accepting a frame does to the windows, the prekeys and the inbox.
proof fn lemma_accept(
    step: Step,
    f: FrameModel,
    body: Seq<u8>,
    rssi: i8,
    now_ms: u64,
    draw: Draw,
)
    ensures
        ({
            let sender = bytes::array_32(f.sender);
            let after = step.accept(f, body, rssi, now_ms, draw).0;
            &&& after.node.replay == step.node.judging(sender, f.epoch, f.counter).replay
            &&& prekeys_no_older(step.node, after.node)
            &&& step.node.verdict(sender, f.epoch, f.counter) != ReplayVerdict::Fresh
                || f.kind != FrameKind::Message ==> after.node.inbox == step.node.inbox
            &&& after.node.seen == step.node.seen || (draw.msg_id is Some && after.node.seen
                == step.node.remembering(draw.msg_id->Some_0).seen)
            &&& protocol::extends(after.out, step.out)
        }),
{
    let sender = bytes::array_32(f.sender);
    let judged = Step { node: step.node.judging(sender, f.epoch, f.counter), out: step.out };
    let heard = judged.touch(sender, f.nickname, rssi, f.hops, now_ms);
    protocol::lemma_touch(judged, sender, f.nickname, rssi, f.hops, now_ms);
    match prekey::advertised(sender@, body) {
        Some((generation, public)) => {
            let known = Step {
                node: NodeModel {
                    peer_prekeys: heard.node.peer_prekeys.insert(
                        sender,
                        PeerPrekey { generation, public: bytes::array_32(public) },
                    ),
                    ..heard.node
                },
                out: heard.out,
            };
            protocol::lemma_share_chain(known, sender, now_ms, draw);
            protocol::lemma_share_chain(heard, sender, now_ms, draw);
        },
        None => {},
    }
}

/// What ingesting does to the windows, the prekeys and the inbox.
proof fn lemma_ingest(step: Step, rssi: i8, data: Seq<u8>, now_ms: u64, draw: Draw)
    ensures
        ({
            let after = step.ingest(rssi, data, now_ms, draw).0;
            let f = frame::parsed(data)->Ok_0;
            let sender = bytes::array_32(f.sender);
            &&& after.node.replay == step.node.replay || {
                &&& frame::parsed(data) is Ok
                &&& after.node.replay == step.node.judging(sender, f.epoch, f.counter).replay
            }
            &&& prekeys_no_older(step.node, after.node)
            &&& after.node.inbox != step.node.inbox ==> {
                &&& frame::parsed(data) is Ok
                &&& f.kind == FrameKind::Message
                &&& step.node.verdict(sender, f.epoch, f.counter) == ReplayVerdict::Fresh
                &&& after.node.replay == step.node.judging(sender, f.epoch, f.counter).replay
            }
            &&& protocol::extends(after.out, step.out)
        }),
{
    match frame::parsed(data) {
        Ok(f) => {
            let fresh = Step {
                node: step.node.remembering(bytes::array_16(f.msg_id)),
                out: step.out,
            };
            match fresh.node.unsealed(f) {
                Ok(body) => {
                    let opened = Step { node: fresh.node.after_unseal(f), out: fresh.out };
                    lemma_accept(opened, f, body, rssi, now_ms, draw);
                },
                Err(_) => {},
            }
        },
        Err(_) => {},
    }
}

/// Whatever is ingested, its id counts as seen from then on, so that taking it a
/// second time does nothing.
pub proof fn law_ingested_frame_is_seen(
    step: Step,
    rssi: i8,
    data: Seq<u8>,
    now_ms: u64,
    draw: Draw,
)
    requires
        step.node.well_formed(),
        frame::parsed(data) is Ok,
    ensures
        step.ingest(rssi, data, now_ms, draw).0.node.seen.contains(
            bytes::array_16(frame::parsed(data)->Ok_0.msg_id),
        ),
{
    let f = frame::parsed(data)->Ok_0;
    let msg_id = bytes::array_16(f.msg_id);
    if !step.node.seen.contains(msg_id) {
        let fresh = Step { node: step.node.remembering(msg_id), out: step.out };
        let seen = fresh.node.seen;
        assert(seen.last() == msg_id);
        match fresh.node.unsealed(f) {
            Ok(body) => {
                let opened = Step { node: fresh.node.after_unseal(f), out: fresh.out };
                lemma_accept(opened, f, body, rssi, now_ms, draw);
                let id = draw.msg_id->Some_0;
                let later = opened.node.remembering(id).seen;
                if !seen.contains(id) {
                    assert(later[later.len() - 2] == msg_id);
                }
            },
            Err(_) => {},
        }
    }
}

/// What a window refuses stays refused, whatever comes off the air.
pub proof fn law_refusals_last(step: Step, rssi: i8, data: Seq<u8>, now_ms: u64, draw: Draw)
    requires
        step.node.well_formed(),
    ensures
        refuses_no_less(step.node, step.ingest(rssi, data, now_ms, draw).0.node),
{
    lemma_ingest(step, rssi, data, now_ms, draw);
    let after = step.ingest(rssi, data, now_ms, draw).0.node;
    assert forall|sender: PeerId, epoch: u64, counter: u64|
        refuses(step.node, sender, epoch, counter) implies #[trigger] refuses(
        after,
        sender,
        epoch,
        counter,
    ) by {
        let f = frame::parsed(data)->Ok_0;
        let window = step.node.replay[sender];
        assert(window.well_formed());
        assert(window.after(f.epoch, f.counter).refuses(epoch, counter));
    }
}

/// A message is delivered at most once: what ends up in the inbox is refused from
/// then on, under whatever id it is replayed.
pub proof fn law_message_is_delivered_at_most_once(
    step: Step,
    rssi: i8,
    data: Seq<u8>,
    now_ms: u64,
    draw: Draw,
)
    requires
        step.node.well_formed(),
        step.ingest(rssi, data, now_ms, draw).0.node.inbox != step.node.inbox,
    ensures
        frame::parsed(data) is Ok,
        ({
            let f = frame::parsed(data)->Ok_0;
            let sender = bytes::array_32(f.sender);
            let after = step.ingest(rssi, data, now_ms, draw).0.node;
            &&& !refuses(step.node, sender, f.epoch, f.counter)
            &&& refuses(after, sender, f.epoch, f.counter)
        }),
{
    lemma_ingest(step, rssi, data, now_ms, draw);
    let f = frame::parsed(data)->Ok_0;
    let sender = bytes::array_32(f.sender);
    if step.node.replay.contains_key(sender) {
        let window = step.node.replay[sender];
        assert(window.well_formed());
    }
}

/// A peer's prekey is never exchanged for an older one.
pub proof fn law_prekeys_only_move_forward(
    step: Step,
    rssi: i8,
    data: Seq<u8>,
    now_ms: u64,
    draw: Draw,
)
    ensures
        prekeys_no_older(step.node, step.ingest(rssi, data, now_ms, draw).0.node),
{
    lemma_ingest(step, rssi, data, now_ms, draw);
}

/// A peer that does not hold our chain is offered it at each of its beacons, until it
/// does. An offer that fails is not an error: nothing is sent, queued or reported, and
/// the peer still counts as not holding the chain.
pub proof fn law_chain_is_offered_until_held(
    step: Step,
    sender: PeerId,
    body: Seq<u8>,
    now_ms: u64,
    draw: Draw,
)
    requires
        prekey::advertised(sender@, body) is Some,
        !step.node.shared_with.contains(sender),
    ensures
        ({
            let after = step.accept_beacon(sender, body, now_ms, draw);
            let known = Step {
                node: NodeModel { peer_prekeys: after.node.peer_prekeys, ..step.node },
                out: step.out,
            };
            let (offered, result) = known.share_chain(sender, now_ms, draw);
            &&& after.node.peer_prekeys.contains_key(sender)
            &&& after == offered
            &&& result is Err ==> {
                &&& after.out == step.out
                &&& after.node.outbox == step.node.outbox
                &&& after.node.shared_with == step.node.shared_with
            }
        }),
{
    let (generation, public) = prekey::advertised(sender@, body)->Some_0;
    let known = if step.node.is_news(sender, generation) {
        Step {
            node: NodeModel {
                peer_prekeys: step.node.peer_prekeys.insert(
                    sender,
                    PeerPrekey { generation, public: bytes::array_32(public) },
                ),
                ..step.node
            },
            out: step.out,
        }
    } else {
        step
    };
    protocol::lemma_share_chain(known, sender, now_ms, draw);
    let after = step.accept_beacon(sender, body, now_ms, draw);
    assert(known.node == (NodeModel { peer_prekeys: after.node.peer_prekeys, ..step.node }));
}

/// A prekey is taken only from the peer that signed it. Being on the channel is not
/// enough to speak for somebody else.
pub proof fn law_forged_prekey_is_not_installed(
    step: Step,
    sender: PeerId,
    body: Seq<u8>,
    now_ms: u64,
    draw: Draw,
    peer: PeerId,
)
    requires
        ({
            let after = step.accept_beacon(sender, body, now_ms, draw).node;
            &&& after.peer_prekeys.contains_key(peer)
            &&& step.node.peer_prekeys.contains_key(peer) ==> after.peer_prekeys[peer]
                != step.node.peer_prekeys[peer]
        }),
    ensures
        ({
            let after = step.accept_beacon(sender, body, now_ms, draw).node;
            &&& peer == sender
            &&& crypto::ed25519_verifies(
                peer@,
                crypto::prekey_statement(
                    after.peer_prekeys[peer].generation,
                    after.peer_prekeys[peer].public@,
                ),
                body.subrange(36, 100),
            )
        }),
{
    match prekey::advertised(sender@, body) {
        Some((generation, public)) => {
            let known = Step {
                node: NodeModel {
                    peer_prekeys: step.node.peer_prekeys.insert(
                        sender,
                        PeerPrekey { generation, public: bytes::array_32(public) },
                    ),
                    ..step.node
                },
                out: step.out,
            };
            protocol::lemma_share_chain(known, sender, now_ms, draw);
            protocol::lemma_share_chain(step, sender, now_ms, draw);
            bytes::lemma_array_32_holds(public);
        },
        None => {},
    }
}

// ---------------------------------------------------------------------------
// Receipts
// ---------------------------------------------------------------------------

/// The user waits for word of a message.
pub open spec fn awaits(queue: Seq<PendingModel>, id: [u8; 16]) -> bool {
    exists|i: int|
        0 <= i < queue.len() && (#[trigger] queue[i]).msg_id == id && queue[i].traffic
            == Traffic::User
}

/// The action tells the user what became of a message.
pub open spec fn reports(action: ActionModel, id: [u8; 16]) -> bool {
    match action {
        ActionModel::Emit(event) => match event.kind {
            EventKindModel::MessageDelivered { msg_id, direct } => msg_id == id && direct,
            EventKindModel::MessageExpired { msg_id, reason } => msg_id == id,
            _ => false,
        },
        _ => false,
    }
}

/// The user is told what became of a message.
pub open spec fn reported(out: Seq<ActionModel>, id: [u8; 16]) -> bool {
    exists|i: int| 0 <= i < out.len() && reports(#[trigger] out[i], id)
}

/// Every message the user waited for before is one they still wait for, or one they
/// were told about.
pub open spec fn accounts_for(before: Step, after: Step) -> bool {
    &&& protocol::extends(after.out, before.out)
    &&& forall|id: [u8; 16]| #[trigger]
        awaits(before.node.outbox, id) ==> awaits(after.node.outbox, id) || reported(
            after.out,
            id,
        )
}

/// No message is one the user waits for that was not before.
spec fn awaits_no_more(before: Step, after: Step) -> bool {
    forall|id: [u8; 16]| #[trigger]
        awaits(after.node.outbox, id) ==> awaits(before.node.outbox, id)
}

proof fn lemma_accounts(first: Step, second: Step, third: Step)
    requires
        accounts_for(first, second),
        accounts_for(second, third),
    ensures
        accounts_for(first, third),
{
    assert forall|id: [u8; 16]| #[trigger] awaits(first.node.outbox, id) implies awaits(
        third.node.outbox,
        id,
    ) || reported(third.out, id) by {
        if reported(second.out, id) {
            let i = choose|i: int|
                0 <= i < second.out.len() && reports(#[trigger] second.out[i], id);
            assert(reports(third.out[i], id));
        }
    }
}

/// A step that leaves the queue alone accounts for it.
proof fn lemma_accounts_idle(before: Step, after: Step)
    requires
        before.node.outbox == after.node.outbox,
        protocol::extends(after.out, before.out),
    ensures
        accounts_for(before, after),
{
}

/// Leaving out entries that are not the user's, or not this one, keeps it waiting.
proof fn lemma_awaits_filtered(
    queue: Seq<PendingModel>,
    keep: spec_fn(PendingModel) -> bool,
    id: [u8; 16],
)
    requires
        awaits(queue, id),
        forall|p: PendingModel|
            p.msg_id == id && p.traffic == Traffic::User ==> #[trigger] keep(p),
    ensures
        awaits(queue.filter(keep), id),
{
    let i = choose|i: int|
        0 <= i < queue.len() && (#[trigger] queue[i]).msg_id == id && queue[i].traffic
            == Traffic::User;
    seqs::lemma_filter_keeps(queue, keep, i);
}

proof fn lemma_accounts_queue(
    step: Step,
    msg_id: [u8; 16],
    peer: PeerId,
    wire: Seq<u8>,
    traffic: Traffic,
    now_ms: u64,
)
    requires
        traffic == Traffic::User || !awaits(step.node.outbox, msg_id),
    ensures
        accounts_for(step, step.queue(msg_id, peer, wire, traffic, now_ms)),
{
    let after = step.queue(msg_id, peer, wire, traffic, now_ms);
    let rest = outbox::without(step.node.outbox, msg_id);
    let fresh = PendingModel::fresh(msg_id, peer, wire, traffic, now_ms);
    assert(after.node.outbox == outbox::with_room(rest).push(fresh));
    assert forall|id: [u8; 16]| #[trigger] awaits(step.node.outbox, id) implies awaits(
        after.node.outbox,
        id,
    ) || reported(after.out, id) by {
        if id == msg_id {
            assert(after.node.outbox.last() == fresh);
        } else {
            lemma_awaits_filtered(step.node.outbox, |p: PendingModel| p.msg_id != msg_id, id);
            let i = choose|i: int|
                0 <= i < rest.len() && (#[trigger] rest[i]).msg_id == id && rest[i].traffic
                    == Traffic::User;
            if rest.len() < outbox::CAPACITY {
                assert(after.node.outbox[i] == rest[i]);
            } else if i == 0 {
                assert(reports(after.out.last(), id));
            } else {
                assert(after.node.outbox[i - 1] == rest[i]);
            }
        }
    }
}

/// Every user message among the expired is reported.
proof fn lemma_settle_reports(
    step: Step,
    items: Seq<DueModel>,
    now_ms: u64,
    at: int,
)
    requires
        0 <= at < items.len(),
        items[at].retry is None,
        items[at].traffic == Traffic::User,
    ensures
        reported(step.settle(items, now_ms).out, items[at].msg_id),
    decreases items.len(),
{
    let rest = items.drop_last();
    let before = step.settle(rest, now_ms);
    let after = step.settle(items, now_ms);
    if at == items.len() - 1 {
        assert(reports(after.out.last(), items[at].msg_id));
    } else {
        lemma_settle_reports(step, rest, now_ms, at);
        let i = choose|i: int|
            0 <= i < before.out.len() && reports(#[trigger] before.out[i], items[at].msg_id);
        assert(after.out[i] == before.out[i]);
    }
}

proof fn lemma_accounts_flush(step: Step, now_ms: u64)
    requires
        outbox::queue_well_formed(step.node.outbox),
    ensures
        accounts_for(step, step.flush(now_ms)),
        awaits_no_more(step, step.flush(now_ms)),
        outbox::queue_well_formed(step.flush(now_ms).node.outbox),
{
    let queue = step.node.outbox;
    let after = step.flush(now_ms);
    let due = |p: PendingModel| p.due(now_ms);
    let left = |p: PendingModel| p.after_due(now_ms);
    protocol::lemma_flush(step, now_ms);
    assert forall|id: [u8; 16]| #[trigger] awaits(queue, id) implies awaits(
        after.node.outbox,
        id,
    ) || reported(after.out, id) by {
        let i = choose|i: int|
            0 <= i < queue.len() && (#[trigger] queue[i]).msg_id == id && queue[i].traffic
                == Traffic::User;
        if queue[i].expired(now_ms) {
            seqs::lemma_filter_map_keeps(queue, due, i);
            let items = outbox::all_due(queue, now_ms);
            let at = choose|j: int|
                0 <= j < items.len() && #[trigger] items[j] == due(queue[i])->Some_0;
            let taken = Step {
                node: NodeModel { outbox: outbox::after_due(queue, now_ms), ..step.node },
                out: step.out,
            };
            lemma_settle_reports(taken, items, now_ms, at);
        } else {
            seqs::lemma_filter_map_keeps(queue, left, i);
            let kept = outbox::after_due(queue, now_ms);
            let at = choose|j: int|
                0 <= j < kept.len() && #[trigger] kept[j] == left(queue[i])->Some_0;
            assert(kept[at].msg_id == id);
        }
    }
    outbox::lemma_after_due_well_formed(queue, now_ms);
    assert forall|id: [u8; 16]| #[trigger] awaits(after.node.outbox, id) implies awaits(
        queue,
        id,
    ) by {
        let kept = outbox::after_due(queue, now_ms);
        let i = choose|i: int|
            0 <= i < kept.len() && (#[trigger] kept[i]).msg_id == id && kept[i].traffic
                == Traffic::User;
        assert(kept.contains(kept[i]));
        queue.lemma_filter_map_contains(left, kept[i]);
    }
}

proof fn lemma_accounts_touch(
    step: Step,
    id: PeerId,
    nickname: Seq<char>,
    rssi: i8,
    hops: u8,
    now_ms: u64,
)
    requires
        outbox::queue_well_formed(step.node.outbox),
    ensures
        accounts_for(step, step.touch(id, nickname, rssi, hops, now_ms)),
        awaits_no_more(step, step.touch(id, nickname, rssi, hops, now_ms)),
        outbox::queue_well_formed(
            step.touch(id, nickname, rssi, hops, now_ms).node.outbox,
        ),
{
    if protocol::peer_at(step.node.peers, id) is None {
        let greeted = Step {
            node: NodeModel {
                peers: step.node.peers.push(
                    PeerModel { id, nickname, rssi, last_seen_ms: now_ms, hops },
                ),
                ..step.node
            },
            out: step.out,
        }.emit(now_ms, EventKindModel::PeerDiscovered { peer: id, nickname, rssi, hops }).hand_over(
            id,
        );
        let queue = step.node.outbox;
        let woken = Step {
            node: NodeModel { outbox: outbox::after_wake(queue, id, now_ms), ..greeted.node },
            out: greeted.out,
        };
        assert forall|msg_id: [u8; 16]| #[trigger] awaits(queue, msg_id) implies awaits(
            woken.node.outbox,
            msg_id,
        ) by {
            let i = choose|i: int|
                0 <= i < queue.len() && (#[trigger] queue[i]).msg_id == msg_id && queue[i].traffic
                    == Traffic::User;
            assert(woken.node.outbox[i] == queue[i].woken(id, now_ms));
        }
        assert forall|msg_id: [u8; 16]| #[trigger] awaits(woken.node.outbox, msg_id) implies awaits(
            queue,
            msg_id,
        ) by {
            let i = choose|i: int|
                0 <= i < woken.node.outbox.len() && (#[trigger] woken.node.outbox[i]).msg_id
                    == msg_id && woken.node.outbox[i].traffic == Traffic::User;
            assert(woken.node.outbox[i] == queue[i].woken(id, now_ms));
        }
        assert(outbox::queue_well_formed(woken.node.outbox)) by {
            assert forall|i: int, j: int| 0 <= i < j < queue.len() implies (
            #[trigger] woken.node.outbox[i]).msg_id != (
            #[trigger] woken.node.outbox[j]).msg_id by {
                assert(woken.node.outbox[i] == queue[i].woken(id, now_ms));
                assert(woken.node.outbox[j] == queue[j].woken(id, now_ms));
            }
        }
        lemma_accounts_flush(woken, now_ms);
        lemma_accounts(step, woken, woken.flush(now_ms));
    }
}

/// Queueing a frame of our own makes the user wait for nothing new.
proof fn lemma_queue_origin(
    step: Step,
    msg_id: [u8; 16],
    peer: PeerId,
    wire: Seq<u8>,
    now_ms: u64,
    id: [u8; 16],
)
    requires
        awaits(step.queue(msg_id, peer, wire, Traffic::Internal, now_ms).node.outbox, id),
    ensures
        awaits(step.node.outbox, id),
{
    let keep = |p: PendingModel| p.msg_id != msg_id;
    let rest = step.node.outbox.filter(keep);
    let after = step.queue(msg_id, peer, wire, Traffic::Internal, now_ms).node.outbox;
    let i = choose|i: int|
        0 <= i < after.len() && (#[trigger] after[i]).msg_id == id && after[i].traffic
            == Traffic::User;
    if rest.len() < outbox::CAPACITY {
        assert(after[i] == rest[i]);
        seqs::lemma_filter_members(step.node.outbox, keep, i);
    } else {
        assert(after[i] == rest[i + 1]);
        seqs::lemma_filter_members(step.node.outbox, keep, i + 1);
    }
}

/// The random id drawn for a frame of our own is not that of a message the user
/// waits for.
pub open spec fn fresh_id(node: NodeModel, draw: Draw) -> bool {
    match draw.msg_id {
        Some(id) => !awaits(node.outbox, id),
        None => true,
    }
}

proof fn lemma_accounts_share(step: Step, peer: PeerId, now_ms: u64, draw: Draw)
    requires
        fresh_id(step.node, draw),
    ensures
        accounts_for(step, step.share_chain(peer, now_ms, draw).0),
        awaits_no_more(step, step.share_chain(peer, now_ms, draw).0),
{
    let queue = step.node.outbox;
    if step.node.needs_ephemeral(peer) && draw.msg_id is Some {
        let msg_id = draw.msg_id->Some_0;
        match step.node.sealed(
            peer,
            msg_id,
            step.node.chain.encoded(),
            FrameKind::SenderKey,
            draw,
        ) {
            Ok(wire) => {
                let keep = |p: PendingModel|
                    !(p.traffic == Traffic::Internal && p.recipient == peer);
                let known = step.node.after_seal(peer).remembering(msg_id);
                let cleared = Step {
                    node: NodeModel {
                        outbox: outbox::without_internal(queue, peer),
                        shared_with: if known.shared_with.contains(peer) {
                            known.shared_with
                        } else {
                            known.shared_with.push(peer)
                        },
                        ..known
                    },
                    out: step.out,
                }.transmit(peer, wire);
                assert forall|id: [u8; 16]| #[trigger] awaits(queue, id) implies awaits(
                    cleared.node.outbox,
                    id,
                ) by {
                    lemma_awaits_filtered(queue, keep, id);
                }
                assert(!awaits(cleared.node.outbox, msg_id)) by {
                    if awaits(cleared.node.outbox, msg_id) {
                        let left = queue.filter(keep);
                        let i = choose|i: int|
                            0 <= i < left.len() && (#[trigger] left[i]).msg_id == msg_id
                                && left[i].traffic == Traffic::User;
                        seqs::lemma_filter_members(queue, keep, i);
                    }
                }
                lemma_accounts_queue(cleared, msg_id, peer, wire, Traffic::Internal, now_ms);
                let after = cleared.queue(msg_id, peer, wire, Traffic::Internal, now_ms);
                lemma_accounts(step, cleared, after);
                assert forall|id: [u8; 16]| #[trigger] awaits(after.node.outbox, id) implies awaits(
                    queue,
                    id,
                ) by {
                    lemma_queue_origin(cleared, msg_id, peer, wire, now_ms, id);
                    let left = queue.filter(keep);
                    let i = choose|i: int|
                        0 <= i < left.len() && (#[trigger] left[i]).msg_id == id && left[i].traffic
                            == Traffic::User;
                    seqs::lemma_filter_members(queue, keep, i);
                }
            },
            Err(_) => {},
        }
    }
}

proof fn lemma_accounts_ack(step: Step, sender: PeerId, body: Seq<u8>, now_ms: u64)
    requires
        outbox::queue_well_formed(step.node.outbox),
    ensures
        accounts_for(step, step.accept_ack(sender, body, now_ms)),
{
    let queue = step.node.outbox;
    let acked = bytes::array_16(body);
    let after = step.accept_ack(sender, body, now_ms);
    if body.len() == 16 && outbox::queued_for(queue, acked, sender) {
        assert forall|id: [u8; 16]| #[trigger] awaits(queue, id) implies awaits(
            after.node.outbox,
            id,
        ) || reported(after.out, id) by {
            if id == acked {
                assert(reports(after.out.last(), id));
            } else {
                lemma_awaits_filtered(queue, |p: PendingModel| p.msg_id != acked, id);
            }
        }
    }
}

proof fn lemma_accounts_accept(
    step: Step,
    f: FrameModel,
    body: Seq<u8>,
    rssi: i8,
    now_ms: u64,
    draw: Draw,
)
    requires
        outbox::queue_well_formed(step.node.outbox),
        fresh_id(step.node, draw),
    ensures
        accounts_for(step, step.accept(f, body, rssi, now_ms, draw).0),
{
    let sender = bytes::array_32(f.sender);
    let judged = Step { node: step.node.judging(sender, f.epoch, f.counter), out: step.out };
    let heard = judged.touch(sender, f.nickname, rssi, f.hops, now_ms);
    let after = step.accept(f, body, rssi, now_ms, draw).0;
    if step.node.verdict(sender, f.epoch, f.counter) == ReplayVerdict::Fresh {
        lemma_accounts_touch(judged, sender, f.nickname, rssi, f.hops, now_ms);
        assert(accounts_for(step, heard));
        match f.kind {
            FrameKind::Beacon => {
                match prekey::advertised(sender@, body) {
                    Some((generation, public)) => {
                        let known = if heard.node.is_news(sender, generation) {
                            Step {
                                node: NodeModel {
                                    peer_prekeys: heard.node.peer_prekeys.insert(
                                        sender,
                                        PeerPrekey { generation, public: bytes::array_32(public) },
                                    ),
                                    ..heard.node
                                },
                                out: heard.out,
                            }
                        } else {
                            heard
                        };
                        assert(fresh_id(known.node, draw));
                        lemma_accounts_idle(heard, known);
                        lemma_accounts(step, heard, known);
                        lemma_accounts_share(known, sender, now_ms, draw);
                        lemma_accounts(
                            step,
                            known,
                            known.share_chain(sender, now_ms, draw).0,
                        );
                    },
                    None => {},
                }
            },
            FrameKind::Ack => {
                lemma_accounts_ack(heard, sender, body, now_ms);
                lemma_accounts(step, heard, after);
            },
            FrameKind::SenderKey => {
                lemma_accounts_idle(heard, after);
                lemma_accounts(step, heard, after);
            },
            FrameKind::Message => {
                lemma_accounts_idle(heard, after);
                lemma_accounts(step, heard, after);
            },
        }
    }
}

proof fn lemma_accounts_ingest(step: Step, rssi: i8, data: Seq<u8>, now_ms: u64, draw: Draw)
    requires
        outbox::queue_well_formed(step.node.outbox),
        fresh_id(step.node, draw),
    ensures
        accounts_for(step, step.ingest(rssi, data, now_ms, draw).0),
{
    match frame::parsed(data) {
        Ok(f) => {
            let fresh = Step {
                node: step.node.remembering(bytes::array_16(f.msg_id)),
                out: step.out,
            };
            let after = step.ingest(rssi, data, now_ms, draw).0;
            match fresh.node.unsealed(f) {
                Ok(body) => {
                    let opened = Step { node: fresh.node.after_unseal(f), out: fresh.out };
                    lemma_accounts_accept(opened, f, body, rssi, now_ms, draw);
                    let accepted = opened.accept(f, body, rssi, now_ms, draw).0;
                    lemma_accounts_idle(step, opened);
                    lemma_accounts(step, opened, accepted);
                    lemma_accounts_idle(accepted, accepted.pass_on(f, data, now_ms));
                    lemma_accounts(step, accepted, accepted.pass_on(f, data, now_ms));
                },
                Err(_) => {},
            }
        },
        Err(_) => {},
    }
}

/// A directed message ends in a receipt: as long as the node handles commands, each
/// message the user waits for is waited for still, or was reported delivered or
/// expired. None is lost in silence.
pub proof fn law_no_message_is_lost_in_silence(
    node: NodeModel,
    command: CommandModel,
    now_ms: u64,
    draw: Draw,
)
    requires
        node.well_formed(),
        fresh_id(node, draw),
    ensures
        accounts_for(
            protocol::idle(node),
            protocol::idle(node).handle(command, now_ms, draw),
        ),
{
    let step = protocol::idle(node);
    match command {
        CommandModel::Ingest { rssi, data } => {
            lemma_accounts_ingest(step, rssi, data, now_ms, draw);
            let ingested = step.ingest(rssi, data, now_ms, draw).0;
            let after = step.handle(command, now_ms, draw);
            lemma_accounts_idle(ingested, after);
            lemma_accounts(step, ingested, after);
        },
        CommandModel::Send { to, body, msg_id } => {
            let recipient = protocol::addressee(to);
            match node.sealed(recipient, msg_id, body, FrameKind::Message, draw) {
                Ok(wire) => {
                    let sent = Step {
                        node: node.after_seal(recipient).remembering(msg_id),
                        out: step.out,
                    }.transmit(recipient, wire);
                    lemma_accounts_idle(step, sent);
                    if let Some(peer) = to {
                        lemma_accounts_queue(sent, msg_id, peer, wire, Traffic::User, now_ms);
                        lemma_accounts(
                            step,
                            sent,
                            sent.queue(msg_id, peer, wire, Traffic::User, now_ms),
                        );
                    }
                },
                Err(_) => {},
            }
        },
        _ => {},
    }
}

/// A directed message that was sent is one the user waits for.
pub proof fn law_sent_message_is_awaited(
    step: Step,
    peer: PeerId,
    body: Seq<u8>,
    msg_id: [u8; 16],
    now_ms: u64,
    draw: Draw,
)
    requires
        step.send(Some(peer), body, msg_id, now_ms, draw).1 is Ok,
    ensures
        awaits(step.send(Some(peer), body, msg_id, now_ms, draw).0.node.outbox, msg_id),
{
    let queue = step.send(Some(peer), body, msg_id, now_ms, draw).0.node.outbox;
    assert(queue.last().msg_id == msg_id);
}

proof fn lemma_accounts_share_all(
    step: Step,
    peers: Seq<PeerModel>,
    draws: Seq<Draw>,
    now_ms: u64,
)
    requires
        forall|i: int| 0 <= i < draws.len() ==> fresh_id(step.node, #[trigger] draws[i]),
    ensures
        accounts_for(step, step.share_with_all(peers, draws, now_ms)),
        awaits_no_more(step, step.share_with_all(peers, draws, now_ms)),
    decreases peers.len(),
{
    if peers.len() > 0 {
        let rest = peers.drop_last();
        lemma_accounts_share_all(step, rest, draws, now_ms);
        let before = step.share_with_all(rest, draws, now_ms);
        let draw = protocol::nth_draw(draws, peers.len() - 1);
        assert(fresh_id(step.node, draw));
        assert(fresh_id(before.node, draw));
        let peer = peers.last().id;
        lemma_accounts_share(before, peer, now_ms, draw);
        let shared = before.share_chain(peer, now_ms, draw);
        lemma_accounts(step, before, shared.0);
        let after = Step::reporting(shared, now_ms);
        lemma_accounts_idle(shared.0, after);
        lemma_accounts(step, shared.0, after);
    }
}

/// Housekeeping, too, loses no message in silence.
pub proof fn law_no_message_expires_in_silence(node: NodeModel, now_ms: u64, draw: TickDraw)
    requires
        node.well_formed(),
        forall|i: int| 0 <= i < draw.shares.len() ==> fresh_id(node, #[trigger] draw.shares[i]),
    ensures
        accounts_for(protocol::idle(node), protocol::idle(node).tick(now_ms, draw)),
{
    let step = protocol::idle(node);
    let expired = step.expire_peers(now_ms);
    protocol::lemma_expire_peers(step, now_ms);
    let swept = Step {
        node: NodeModel {
            carried: relaycache::still_fresh(expired.node.carried, now_ms),
            ..expired.node
        },
        out: expired.out,
    };
    lemma_accounts_idle(step, swept);
    if node.running {
        let flushed = swept.flush(now_ms);
        lemma_accounts_flush(swept, now_ms);
        lemma_accounts(step, swept, flushed);
        let rotated = flushed.rotate_prekey(draw.prekey, now_ms);
        let renewed = flushed.node.prekeys.due(now_ms) && draw.prekey is Some;
        let announced = if renewed || now_ms - rotated.node.last_beacon_ms
            >= protocol::BEACON_INTERVAL_MS {
            rotated.send_beacon(false, now_ms, draw.beacon)
        } else {
            rotated
        };
        lemma_accounts_idle(flushed, announced);
        lemma_accounts(step, flushed, announced);
        let after = announced.rotate_chain(draw.chain, draw.shares, now_ms);
        match draw.chain {
            Some(chain) => {
                let replaced = Step {
                    node: NodeModel {
                        chain: ChainModel { chain_id: chain.0, index: 0, key: chain.1 },
                        shared_with: Seq::empty(),
                        chain_since_ms: now_ms,
                        ..announced.node
                    },
                    out: announced.out,
                };
                lemma_accounts_idle(announced, replaced);
                lemma_accounts(step, announced, replaced);
                assert forall|i: int| 0 <= i < draw.shares.len() implies fresh_id(
                    replaced.node,
                    #[trigger] draw.shares[i],
                ) by {
                    assert(fresh_id(node, draw.shares[i]));
                }
                lemma_accounts_share_all(replaced, announced.node.peers, draw.shares, now_ms);
                lemma_accounts(
                    step,
                    replaced,
                    replaced.share_with_all(announced.node.peers, draw.shares, now_ms),
                );
            },
            None => {
                lemma_accounts_idle(announced, after);
                lemma_accounts(step, announced, after);
            },
        }
    }
}

// ---------------------------------------------------------------------------
// Secrecy
// ---------------------------------------------------------------------------

/// A broadcast goes out on the sender chain once somebody holds it, and under the
/// channel key, without the forward-secret flag, until then.
pub proof fn law_broadcasts_become_forward_secret(node: NodeModel, ephemeral: Seq<u8>)
    requires
        node.chain.index < u32::MAX,
    ensures
        node.shared_with.len() > 0 ==> node.sealing(crypto::BROADCAST_ID, ephemeral)
            == (SealingModel::SenderKey {
            chain_id: node.chain.chain_id,
            index: node.chain.index,
            key: crypto::message_key(node.chain.key),
        }),
        node.shared_with.len() == 0 ==> node.sealing(crypto::BROADCAST_ID, ephemeral)
            == (SealingModel::Network { key: node.channel_key }),
{
}

/// A directed frame is forward secret exactly when a verified prekey of its
/// recipient is held.
pub proof fn law_directed_frames_use_the_prekey(
    node: NodeModel,
    recipient: PeerId,
    ephemeral: Seq<u8>,
)
    requires
        recipient != crypto::BROADCAST_ID,
    ensures
        node.sealing(recipient, ephemeral) is ForwardSecret
            == node.peer_prekeys.contains_key(recipient),
        node.sealing(recipient, ephemeral) is Static
            == !node.peer_prekeys.contains_key(recipient),
{
}

/// No message key of a sender chain seals twice: each broadcast on the chain takes
/// its position with it.
pub proof fn law_chain_position_is_used_once(node: NodeModel)
    requires
        node.uses_chain(crypto::BROADCAST_ID),
    ensures
        node.after_seal(crypto::BROADCAST_ID).chain.index == node.chain.index + 1,
        node.after_seal(crypto::BROADCAST_ID).chain.key == crypto::next_chain_key(node.chain.key),
{
}

/// The sender chain is never broadcast. Handing it over puts on the air nothing but
/// one frame, to one peer, sealed forward-secret for that peer; where that cannot
/// be, nothing at all.
pub proof fn law_chain_key_is_never_broadcast(
    step: Step,
    peer: PeerId,
    now_ms: u64,
    draw: Draw,
    at: int,
)
    requires
        step.out.len() <= at < step.share_chain(peer, now_ms, draw).0.out.len(),
    ensures
        ({
            let action = step.share_chain(peer, now_ms, draw).0.out[at];
            ||| action is Emit
            ||| {
                &&& peer != crypto::BROADCAST_ID
                &&& action == ActionModel::Direct {
                    peer,
                    wire: step.node.sealed(
                        peer,
                        draw.msg_id->Some_0,
                        step.node.chain.encoded(),
                        FrameKind::SenderKey,
                        draw,
                    )->Ok_0,
                }
                &&& step.node.sealing(peer, draw.ephemeral->Some_0) is ForwardSecret
            }
        }),
{
}

/// A distribution that was broadcast is not taken.
pub proof fn law_broadcast_chain_is_not_installed(
    step: Step,
    f: FrameModel,
    body: Seq<u8>,
    draw: Draw,
)
    requires
        f.is_broadcast(),
    ensures
        step.accept_chain(f, body, draw) == (step, Ok::<(), CoreError>(())),
{
}

/// Replacing the chain leaves no gap: the fresh chain is in place, unused, and
/// unless nobody at all could be handed it, the next broadcast goes out on it.
pub proof fn law_rotation_leaves_no_gap(
    step: Step,
    chain: (u32, Seq<u8>),
    draws: Seq<Draw>,
    now_ms: u64,
)
    ensures
        ({
            let after = step.replace_chain(chain, draws, now_ms);
            &&& after.node.chain == (ChainModel { chain_id: chain.0, index: 0, key: chain.1 })
            &&& after.node.chain_since_ms == now_ms
            &&& (exists|i: int|
                step.out.len() <= i < after.out.len() && !(#[trigger] after.out[i] is Emit))
                ==> after.node.uses_chain(crypto::BROADCAST_ID)
        }),
{
    let replaced = Step {
        node: NodeModel {
            chain: ChainModel { chain_id: chain.0, index: 0, key: chain.1 },
            shared_with: Seq::empty(),
            chain_since_ms: now_ms,
            ..step.node
        },
        out: step.out,
    };
    lemma_share_with_all(replaced, step.node.peers, draws, now_ms);
}

proof fn lemma_share_with_all(step: Step, peers: Seq<PeerModel>, draws: Seq<Draw>, now_ms: u64)
    ensures
        ({
            let after = step.share_with_all(peers, draws, now_ms);
            &&& after.node.chain == step.node.chain
            &&& after.node.chain_since_ms == step.node.chain_since_ms
            &&& protocol::extends(after.out, step.out)
            &&& after.node.shared_with.len() == 0 ==> forall|i: int|
                step.out.len() <= i < after.out.len() ==> #[trigger] after.out[i] is Emit
        }),
    decreases peers.len(),
{
    if peers.len() > 0 {
        let rest = peers.drop_last();
        lemma_share_with_all(step, rest, draws, now_ms);
        let before = step.share_with_all(rest, draws, now_ms);
        let draw = protocol::nth_draw(draws, peers.len() - 1);
        let peer = peers.last().id;
        protocol::lemma_share_chain(before, peer, now_ms, draw);
        let (shared, result) = before.share_chain(peer, now_ms, draw);
        assert(shared.node.shared_with.len() == 0 ==> shared.out == before.out);
        assert(before.node.shared_with.len() > 0 ==> shared.node.shared_with.len() > 0);
    }
}

// ---------------------------------------------------------------------------
// Carrying
// ---------------------------------------------------------------------------

/// A beacon describes its sender and nobody else: with one hop to live, it is passed
/// on by no one.
pub proof fn law_last_hop_is_not_passed_on(step: Step, f: FrameModel, data: Seq<u8>, now_ms: u64)
    requires
        f.ttl <= 1,
    ensures
        step.pass_on(f, data, now_ms) == step,
{
}

/// Every frame of somebody else's that is new to us, has hops to live and is not for
/// us alone is passed on, with one hop less, whether it opened here or not, and
/// whatever came of it. A broadcast never ends in an error.
pub proof fn law_foreign_frame_is_passed_on(
    step: Step,
    rssi: i8,
    data: Seq<u8>,
    now_ms: u64,
    draw: Draw,
)
    requires
        frame::parsed(data) is Ok,
    ensures
        ({
            let f = frame::parsed(data)->Ok_0;
            let (after, result) = step.ingest(rssi, data, now_ms, draw);
            &&& passes_on(step.node, f) ==> after.out.len() > step.out.len() && after.out.last()
                == ActionModel::Flood { wire: frame::relayed(data) }
            &&& f.is_broadcast() ==> result == Ok::<(), CoreError>(())
        }),
{
    let f = frame::parsed(data)->Ok_0;
    let fresh = Step { node: step.node.remembering(bytes::array_16(f.msg_id)), out: step.out };
    bytes::lemma_array_32(step.node.id);
    bytes::lemma_array_32_holds(f.recipient);
    match fresh.node.unsealed(f) {
        Ok(body) => {
            let opened = Step { node: fresh.node.after_unseal(f), out: fresh.out };
            lemma_accept(opened, f, body, rssi, now_ms, draw);
            lemma_accept_keeps_the_name(opened, f, body, rssi, now_ms, draw);
        },
        Err(_) => {},
    }
}

/// Whether a node passes a frame on.
pub open spec fn passes_on(node: NodeModel, f: FrameModel) -> bool {
    &&& !node.seen.contains(bytes::array_16(f.msg_id))
    &&& f.sender != node.id@
    &&& f.recipient != node.id@
    &&& f.ttl > 1
}

/// Accepting a frame does not change who we are.
proof fn lemma_accept_keeps_the_name(
    step: Step,
    f: FrameModel,
    body: Seq<u8>,
    rssi: i8,
    now_ms: u64,
    draw: Draw,
)
    ensures
        step.accept(f, body, rssi, now_ms, draw).0.node.id == step.node.id,
{
    let sender = bytes::array_32(f.sender);
    let judged = Step { node: step.node.judging(sender, f.epoch, f.counter), out: step.out };
    protocol::lemma_touch(judged, sender, f.nickname, rssi, f.hops, now_ms);
}

/// Nothing that `after` adds to `before` is flooded.
pub open spec fn floods_nothing(before: Seq<ActionModel>, after: Seq<ActionModel>) -> bool {
    &&& protocol::extends(after, before)
    &&& forall|i: int| before.len() <= i < after.len() ==> !(#[trigger] after[i] is Flood)
}

/// Whether every frame in the queue is for one peer, as directed frames are.
pub open spec fn queue_is_directed(queue: Seq<PendingModel>) -> bool {
    forall|i: int|
        0 <= i < queue.len() ==> (#[trigger] queue[i]).recipient != crypto::BROADCAST_ID
}

proof fn lemma_settle_floods_nothing(step: Step, items: Seq<DueModel>, now_ms: u64)
    requires
        forall|i: int|
            0 <= i < items.len() ==> (#[trigger] items[i]).recipient != crypto::BROADCAST_ID,
    ensures
        floods_nothing(step.out, step.settle(items, now_ms).out),
    decreases items.len(),
{
    if items.len() > 0 {
        let rest = items.drop_last();
        assert forall|i: int| 0 <= i < rest.len() implies (#[trigger] rest[i]).recipient
            != crypto::BROADCAST_ID by {
            assert(rest[i] == items[i]);
        }
        lemma_settle_floods_nothing(step, rest, now_ms);
        assert(items[items.len() - 1].recipient != crypto::BROADCAST_ID);
    }
}

proof fn lemma_touch_floods_nothing(
    step: Step,
    id: PeerId,
    nickname: Seq<char>,
    rssi: i8,
    hops: u8,
    now_ms: u64,
)
    requires
        id != crypto::BROADCAST_ID,
        queue_is_directed(step.node.outbox),
    ensures
        floods_nothing(step.out, step.touch(id, nickname, rssi, hops, now_ms).out),
{
    if protocol::peer_at(step.node.peers, id) is None {
        let handed = Step {
            node: NodeModel {
                peers: step.node.peers.push(
                    PeerModel { id, nickname, rssi, last_seen_ms: now_ms, hops },
                ),
                ..step.node
            },
            out: step.out,
        }.emit(
            now_ms,
            EventKindModel::PeerDiscovered { peer: id, nickname, rssi, hops },
        ).hand_over(id);
        let woken = outbox::after_wake(step.node.outbox, id, now_ms);
        let due = |p: PendingModel| p.due(now_ms);
        let items = outbox::all_due(woken, now_ms);
        assert forall|i: int| 0 <= i < items.len() implies (#[trigger] items[i]).recipient
            != crypto::BROADCAST_ID by {
            assert(items.contains(items[i]));
            woken.lemma_filter_map_contains(due, items[i]);
            let p = choose|p: PendingModel| #[trigger]
                woken.contains(p) && due(p) == Some(items[i]);
            let k = choose|k: int| 0 <= k < woken.len() && woken[k] == p;
            assert(woken[k] == step.node.outbox[k].woken(id, now_ms));
        }
        let taken = Step {
            node: NodeModel { outbox: outbox::after_due(woken, now_ms), ..handed.node },
            out: handed.out,
        };
        lemma_settle_floods_nothing(taken, items, now_ms);
    }
}

/// A frame is passed on once, and flooding it is all the flooding there is: what the
/// node sends of its own accord on hearing a frame goes to one peer at a time. What
/// is not passed on is not flooded at all.
pub proof fn law_passing_on_is_the_only_flood(
    step: Step,
    rssi: i8,
    data: Seq<u8>,
    now_ms: u64,
    draw: Draw,
)
    requires
        frame::parsed(data) is Ok,
        bytes::array_32(frame::parsed(data)->Ok_0.sender) != crypto::BROADCAST_ID,
        queue_is_directed(step.node.outbox),
    ensures
        ({
            let f = frame::parsed(data)->Ok_0;
            let after = step.ingest(rssi, data, now_ms, draw).0;
            &&& passes_on(step.node, f) ==> floods_nothing(step.out, after.out.drop_last())
            &&& !passes_on(step.node, f) ==> floods_nothing(step.out, after.out)
        }),
{
    let f = frame::parsed(data)->Ok_0;
    let sender = bytes::array_32(f.sender);
    let fresh = Step { node: step.node.remembering(bytes::array_16(f.msg_id)), out: step.out };
    law_foreign_frame_is_passed_on(step, rssi, data, now_ms, draw);
    bytes::lemma_array_32(step.node.id);
    bytes::lemma_array_32_holds(f.recipient);
    match fresh.node.unsealed(f) {
        Ok(body) => {
            let opened = Step { node: fresh.node.after_unseal(f), out: fresh.out };
            let judged = Step {
                node: opened.node.judging(sender, f.epoch, f.counter),
                out: opened.out,
            };
            lemma_touch_floods_nothing(judged, sender, f.nickname, rssi, f.hops, now_ms);
            lemma_accept_keeps_the_name(opened, f, body, rssi, now_ms, draw);
            let accepted = opened.accept(f, body, rssi, now_ms, draw).0;
            assert(floods_nothing(step.out, accepted.out));
        },
        Err(_) => {},
    }
}

/// What is carried: directed frames with hops to live, for a peer that is neither
/// us nor in sight. Anything else leaves the cache alone.
pub proof fn law_what_is_carried(step: Step, f: FrameModel, data: Seq<u8>, now_ms: u64)
    requires
        !relaycache::carries(step.node.carried, bytes::array_16(f.msg_id)),
    ensures
        ({
            let recipient = bytes::array_32(f.recipient);
            let wanted = f.ttl > 1 && !f.is_broadcast() && recipient != step.node.id
                && protocol::peer_at(step.node.peers, recipient) is None;
            let after = step.pass_on(f, data, now_ms).node;
            &&& wanted == relaycache::carries(after.carried, bytes::array_16(f.msg_id))
            &&& !wanted ==> after.carried == step.node.carried
            &&& wanted ==> {
                &&& after.carried.last().recipient == recipient
                &&& after.carried.last().wire == frame::relayed(data)
            }
        }),
{
    let recipient = bytes::array_32(f.recipient);
    let after = step.pass_on(f, data, now_ms).node;
    if f.ttl > 1 && !f.is_broadcast() && recipient != step.node.id && protocol::peer_at(
        step.node.peers,
        recipient,
    ) is None {
        let place = after.carried.len() - 1;
        assert(after.carried[place].msg_id == bytes::array_16(f.msg_id));
    }
}

/// A peer that comes into sight is handed everything carried for it, and nothing of
/// that is kept.
pub proof fn law_discovery_hands_over(
    step: Step,
    id: PeerId,
    nickname: Seq<char>,
    rssi: i8,
    hops: u8,
    now_ms: u64,
    at: int,
)
    requires
        protocol::peer_at(step.node.peers, id) is None,
        0 <= at < step.node.carried.len(),
        step.node.carried[at].recipient == id,
    ensures
        ({
            let after = step.touch(id, nickname, rssi, hops, now_ms);
            &&& after.out.contains(protocol::transmission(id, step.node.carried[at].wire))
            &&& after.node.carried == relaycache::held_for_others(step.node.carried, id)
        }),
{
    let greeted = Step {
        node: NodeModel {
            peers: step.node.peers.push(
                PeerModel { id, nickname, rssi, last_seen_ms: now_ms, hops },
            ),
            ..step.node
        },
        out: step.out,
    }.emit(now_ms, EventKindModel::PeerDiscovered { peer: id, nickname, rssi, hops });
    let handed = greeted.hand_over(id);
    let keep = |entry: CarriedModel| entry.recipient == id;
    let held = relaycache::held_for(step.node.carried, id);
    seqs::lemma_filter_keeps(step.node.carried, keep, at);
    let j = choose|j: int| 0 <= j < held.len() && #[trigger] held[j] == step.node.carried[at];
    let action = protocol::transmission(id, step.node.carried[at].wire);
    let place = greeted.out.len() + j;
    assert(relaycache::frames_of(held)[j] == step.node.carried[at].wire);
    assert(handed.out[place] == action);
    let woken = Step {
        node: NodeModel {
            outbox: outbox::after_wake(handed.node.outbox, id, now_ms),
            ..handed.node
        },
        out: handed.out,
    };
    protocol::lemma_flush(woken, now_ms);
    let after = step.touch(id, nickname, rssi, hops, now_ms);
    assert(after.out[place] == action);
}

/// A peer that comes into sight is sent at once what was queued for it and waiting
/// out its backoff, unless its deadline has passed.
pub proof fn law_discovery_flushes_the_queue(
    step: Step,
    id: PeerId,
    nickname: Seq<char>,
    rssi: i8,
    hops: u8,
    now_ms: u64,
    at: int,
)
    requires
        protocol::peer_at(step.node.peers, id) is None,
        0 <= at < step.node.outbox.len(),
        step.node.outbox[at].sleeps_for(id, now_ms),
        !step.node.outbox[at].expired(now_ms),
    ensures
        step.touch(id, nickname, rssi, hops, now_ms).out.contains(
            protocol::transmission(id, step.node.outbox[at].wire),
        ),
{
    let queue = step.node.outbox;
    let handed = Step {
        node: NodeModel {
            peers: step.node.peers.push(
                PeerModel { id, nickname, rssi, last_seen_ms: now_ms, hops },
            ),
            ..step.node
        },
        out: step.out,
    }.emit(
        now_ms,
        EventKindModel::PeerDiscovered { peer: id, nickname, rssi, hops },
    ).hand_over(id);
    let asleep = |p: PendingModel| p.sleeps_for(id, now_ms);
    seqs::lemma_filter_keeps(queue, asleep, at);
    let woken = outbox::after_wake(queue, id, now_ms);
    assert(woken[at] == queue[at].woken(id, now_ms));
    let due = |p: PendingModel| p.due(now_ms);
    seqs::lemma_filter_map_keeps(woken, due, at);
    let items = outbox::all_due(woken, now_ms);
    let j = choose|j: int|
        0 <= j < items.len() && #[trigger] items[j] == due(woken[at])->Some_0;
    let taken = Step {
        node: NodeModel { outbox: outbox::after_due(woken, now_ms), ..handed.node },
        out: handed.out,
    };
    lemma_settle_transmits(taken, items, now_ms, j);
}

/// Discovery takes nothing from the queue that it does not send: where it woke
/// anything, every frame that is due by now goes out, whichever peer it is for; where
/// it woke nothing, the queue is left alone.
pub proof fn law_discovery_sends_what_it_takes(
    step: Step,
    id: PeerId,
    nickname: Seq<char>,
    rssi: i8,
    hops: u8,
    now_ms: u64,
    at: int,
)
    requires
        protocol::peer_at(step.node.peers, id) is None,
        0 <= at < step.node.outbox.len(),
        step.node.outbox[at].woken(id, now_ms).retries(now_ms),
    ensures
        ({
            let after = step.touch(id, nickname, rssi, hops, now_ms);
            ||| after.node.outbox == step.node.outbox
            ||| after.out.contains(
                protocol::transmission(
                    step.node.outbox[at].recipient,
                    step.node.outbox[at].wire,
                ),
            )
        }),
{
    let queue = step.node.outbox;
    let handed = Step {
        node: NodeModel {
            peers: step.node.peers.push(
                PeerModel { id, nickname, rssi, last_seen_ms: now_ms, hops },
            ),
            ..step.node
        },
        out: step.out,
    }.emit(
        now_ms,
        EventKindModel::PeerDiscovered { peer: id, nickname, rssi, hops },
    ).hand_over(id);
    let asleep = |p: PendingModel| p.sleeps_for(id, now_ms);
    let woken = Step {
        node: NodeModel { outbox: outbox::after_wake(queue, id, now_ms), ..handed.node },
        out: handed.out,
    };
    assert(woken.node.outbox[at] == queue[at].woken(id, now_ms));
    law_unacked_message_is_retried(woken, now_ms, at);
    if queue.filter(asleep).len() == 0 {
        assert forall|i: int| 0 <= i < queue.len() implies #[trigger] woken.node.outbox[i]
            == queue[i] by {
            if asleep(queue[i]) {
                seqs::lemma_filter_keeps(queue, asleep, i);
            }
        }
        assert(woken.node.outbox =~= queue);
    }
}

/// Every retry that is due is transmitted.
proof fn lemma_settle_transmits(
    step: Step,
    items: Seq<DueModel>,
    now_ms: u64,
    at: int,
)
    requires
        0 <= at < items.len(),
        items[at].retry is Some,
    ensures
        step.settle(items, now_ms).out.contains(
            protocol::transmission(items[at].recipient, items[at].retry->Some_0),
        ),
    decreases items.len(),
{
    let rest = items.drop_last();
    let before = step.settle(rest, now_ms);
    let after = step.settle(items, now_ms);
    let action = protocol::transmission(items[at].recipient, items[at].retry->Some_0);
    if at == items.len() - 1 {
        assert(after.out.last() == action);
    } else {
        lemma_settle_transmits(step, rest, now_ms, at);
        let i = choose|i: int| 0 <= i < before.out.len() && before.out[i] == action;
        assert(after.out[i] == action);
    }
}

/// A message that is not acked is tried again: each time its attempt is due, the
/// frame goes out once more, byte for byte.
pub proof fn law_unacked_message_is_retried(step: Step, now_ms: u64, at: int)
    requires
        0 <= at < step.node.outbox.len(),
        step.node.outbox[at].retries(now_ms),
    ensures
        step.flush(now_ms).out.contains(
            protocol::transmission(
                step.node.outbox[at].recipient,
                step.node.outbox[at].wire,
            ),
        ),
{
    let queue = step.node.outbox;
    let due = |p: PendingModel| p.due(now_ms);
    seqs::lemma_filter_map_keeps(queue, due, at);
    let items = outbox::all_due(queue, now_ms);
    let j = choose|j: int|
        0 <= j < items.len() && #[trigger] items[j] == due(queue[at])->Some_0;
    let taken = Step {
        node: NodeModel { outbox: outbox::after_due(queue, now_ms), ..step.node },
        out: step.out,
    };
    lemma_settle_transmits(taken, items, now_ms, j);
}

/// A node that is not running sends nothing.
pub proof fn law_stopped_node_sends_nothing(
    step: Step,
    to: Option<PeerId>,
    body: Seq<u8>,
    msg_id: [u8; 16],
    now_ms: u64,
    draw: Draw,
)
    requires
        !step.node.running,
    ensures
        step.send(to, body, msg_id, now_ms, draw) == (
            step,
            Err::<(), CoreError>(CoreError::NotRunning),
        ),
{
}

/// A broadcast draws no ack: taking one asks for nothing but that the application be
/// told.
pub proof fn law_broadcast_draws_no_ack(
    step: Step,
    f: FrameModel,
    body: Seq<u8>,
    rssi: i8,
    now_ms: u64,
    draw: Draw,
)
    requires
        f.is_broadcast(),
    ensures
        step.accept_message(f, body, rssi, now_ms, draw).0.out == step.out.push(
            ActionModel::Emit(
                EventModel {
                    seq: step.node.seq,
                    ts_ms: now_ms,
                    kind: received(f, body, rssi),
                },
            ),
        ),
        step.accept_message(f, body, rssi, now_ms, draw).0.node.counter == step.node.counter,
{
}

// ---------------------------------------------------------------------------
// Housekeeping
// ---------------------------------------------------------------------------

/// A clock that went backwards makes nothing due: no peer is lost, no message
/// expires, and neither prekey nor chain is replaced.
pub proof fn law_backwards_clock_makes_nothing_due(
    step: Step,
    now_ms: u64,
    secret: Option<Seq<u8>>,
    chain: Option<(u32, Seq<u8>)>,
    draws: Seq<Draw>,
)
    requires
        now_ms < step.node.chain_since_ms,
        step.node.chain_rotate_ms > 0,
        now_ms < step.node.prekeys.rotated_at_ms,
        forall|i: int|
            0 <= i < step.node.peers.len() ==> now_ms < (
            #[trigger] step.node.peers[i]).last_seen_ms,
        forall|i: int|
            0 <= i < step.node.outbox.len() ==> now_ms < (
            #[trigger] step.node.outbox[i]).queued_at_ms,
    ensures
        step.expire_peers(now_ms) == step,
        step.rotate_prekey(secret, now_ms) == step,
        step.rotate_chain(chain, draws, now_ms) == step,
        forall|i: int|
            0 <= i < step.node.outbox.len() ==> !(#[trigger] step.node.outbox[i]).expired(now_ms),
{
    let gone = |p: PeerModel| p.gone(now_ms);
    let stays = |p: PeerModel| !p.gone(now_ms);
    seqs::lemma_filter_none(step.node.peers, gone);
    seqs::lemma_filter_all(step.node.peers, stays);
}

/// A peer is lost exactly when it has been silent for too long.
pub proof fn law_silent_peers_are_lost(step: Step, now_ms: u64, at: int)
    requires
        0 <= at < step.node.peers.len(),
    ensures
        step.node.peers[at].gone(now_ms) ==> !step.expire_peers(now_ms).node.peers.contains(
            step.node.peers[at],
        ),
        !step.node.peers[at].gone(now_ms) ==> step.expire_peers(now_ms).node.peers.contains(
            step.node.peers[at],
        ),
{
    let peers = step.node.peers;
    let gone = |p: PeerModel| p.gone(now_ms);
    let stays = |p: PeerModel| !p.gone(now_ms);
    let left = Step {
        node: NodeModel { peers: peers.filter(stays), ..step.node },
        out: step.out,
    };
    protocol::lemma_announce_lost(left, peers.filter(gone), now_ms);
    if stays(peers[at]) {
        seqs::lemma_filter_keeps(peers, stays, at);
    } else if peers.filter(stays).contains(peers[at]) {
        let i = choose|i: int| 0 <= i < peers.filter(stays).len() && peers.filter(stays)[i]
            == peers[at];
        seqs::lemma_filter_members(peers, stays, i);
    }
}

/// A prekey that is replaced is announced in the same tick: the beacon that goes
/// out carries the fresh one, or its failure is reported.
pub proof fn law_fresh_prekey_is_announced_at_once(node: NodeModel, now_ms: u64, draw: TickDraw)
    requires
        node.running,
        node.prekeys.due(now_ms),
        draw.prekey is Some,
    ensures
        exists|i: int, announcer: NodeModel|
            {
                &&& 0 <= i < protocol::idle(node).tick(now_ms, draw).out.len()
                &&& announcer.prekeys == node.prekeys.rotated(draw.prekey->Some_0, now_ms)
                &&& match #[trigger] announcer.beacon(draw.beacon) {
                    Ok(wire) => #[trigger] protocol::idle(node).tick(now_ms, draw).out[i]
                        == (ActionModel::Beacon { wire, starting: false }),
                    Err(_) => protocol::idle(node).tick(now_ms, draw).out[i] is Emit,
                }
            },
{
    let step = protocol::idle(node);
    let expired = step.expire_peers(now_ms);
    protocol::lemma_expire_peers(step, now_ms);
    let swept = Step {
        node: NodeModel {
            carried: relaycache::still_fresh(expired.node.carried, now_ms),
            ..expired.node
        },
        out: expired.out,
    };
    let flushed = swept.flush(now_ms);
    protocol::lemma_flush(swept, now_ms);
    let rotated = flushed.rotate_prekey(draw.prekey, now_ms);
    let announced = rotated.send_beacon(false, now_ms, draw.beacon);
    let place = rotated.out.len() as int;
    let after = step.tick(now_ms, draw);
    match draw.chain {
        Some(chain) => {
            let replaced = Step {
                node: NodeModel {
                    chain: ChainModel { chain_id: chain.0, index: 0, key: chain.1 },
                    shared_with: Seq::empty(),
                    chain_since_ms: now_ms,
                    ..announced.node
                },
                out: announced.out,
            };
            lemma_share_with_all(replaced, announced.node.peers, draw.shares, now_ms);
        },
        None => {},
    }
    assert(protocol::extends(after.out, announced.out));
    assert(after.out[place] == announced.out[place]);
    let announcer = rotated.node;
    assert(announcer.prekeys == node.prekeys.rotated(draw.prekey->Some_0, now_ms));
    assert(announcer.beacon(draw.beacon) is Ok || after.out[place] is Emit);
}

/// A fresh distribution supersedes the one before it: at most one is queued for a
/// peer, and it is the one just handed over.
pub proof fn law_distribution_supersedes(
    step: Step,
    peer: PeerId,
    now_ms: u64,
    draw: Draw,
    at: int,
)
    requires
        step.node.needs_ephemeral(peer),
        step.share_chain(peer, now_ms, draw).1 is Ok,
        0 <= at < step.share_chain(peer, now_ms, draw).0.node.outbox.len(),
    ensures
        ({
            let entry = step.share_chain(peer, now_ms, draw).0.node.outbox[at];
            entry.traffic == Traffic::Internal && entry.recipient == peer ==> entry.msg_id
                == draw.msg_id->Some_0
        }),
{
    let msg_id = draw.msg_id->Some_0;
    let keep = |p: PendingModel| !(p.traffic == Traffic::Internal && p.recipient == peer);
    let other = |p: PendingModel| p.msg_id != msg_id;
    let cleared = step.node.outbox.filter(keep);
    let rest = cleared.filter(other);
    let after = step.share_chain(peer, now_ms, draw).0.node.outbox;
    assert(after.drop_last() =~= outbox::with_room(rest));
    if at < after.len() - 1 {
        let i = if rest.len() >= outbox::CAPACITY {
            at + 1
        } else {
            at
        };
        assert(after[at] == rest[i]);
        seqs::lemma_filter_members(cleared, other, i);
        let j = choose|j: int| 0 <= j < cleared.len() && cleared[j] == rest[i];
        seqs::lemma_filter_members(step.node.outbox, keep, j);
    }
}

} // verus!
