//! What the user hears of messages, and on what grounds.
use vstd::prelude::*;

use super::events;
use crate::bytes;
use crate::crypto;
use crate::crypto::PeerId;
use crate::error::CoreError;
use crate::event::{EventKindModel, EventModel};
use crate::frame;
use crate::frame::{FrameKind, FrameModel};
use crate::outbox;
use crate::outbox::{PendingModel, Traffic};
use crate::peer::PeerModel;
use crate::prekey;
use crate::prekey::PeerPrekey;
use crate::protocol;
use crate::protocol::{ActionModel, CommandModel, Draw, NodeModel, Step, TickDraw};
use crate::replay::ReplayVerdict;
use crate::seqs;

verus! {

/// The action tells the user that a message was delivered, and how.
pub open spec fn tells_delivery(action: ActionModel) -> bool {
    action matches ActionModel::Emit(event) && event.kind is MessageDelivered
}

// ---------------------------------------------------------------------------
// Sending
// ---------------------------------------------------------------------------

/// A broadcast is flooded, and reported once, under its own id, as on the air and not
/// as acknowledged: there is nobody in particular to acknowledge it. Nothing of it is
/// queued.
pub proof fn law_broadcast_is_reported_on_the_air(
    step: Step,
    body: Seq<u8>,
    msg_id: [u8; 16],
    now_ms: u64,
    draw: Draw,
)
    requires
        step.send(None, body, msg_id, now_ms, draw).1 is Ok,
    ensures
        ({
            let after = step.send(None, body, msg_id, now_ms, draw).0;
            let n = step.out.len() as int;
            &&& after.out.len() == n + 2
            &&& forall|i: int| 0 <= i < n ==> #[trigger] after.out[i] == step.out[i]
            &&& step.node.sealed(
                crypto::BROADCAST_ID,
                msg_id,
                body,
                FrameKind::Message,
                draw,
            ) matches Ok(wire)
            &&& after.out[n] == (ActionModel::Flood { wire })
            &&& after.out[n + 1] == ActionModel::Emit(
                EventModel {
                    seq: step.node.seq,
                    ts_ms: now_ms,
                    kind: EventKindModel::MessageDelivered { msg_id, direct: false },
                },
            )
            &&& after.node.outbox == step.node.outbox
        }),
{
}

/// A directed message goes out once, to its recipient, and is queued as it went out,
/// to be tried again a second later. Its delivery is not reported.
pub proof fn law_directed_message_is_sent_and_queued(
    step: Step,
    peer: PeerId,
    body: Seq<u8>,
    msg_id: [u8; 16],
    now_ms: u64,
    draw: Draw,
)
    requires
        peer != crypto::BROADCAST_ID,
        now_ms + 1_000 <= u64::MAX,
        step.send(Some(peer), body, msg_id, now_ms, draw).1 is Ok,
    ensures
        ({
            let after = step.send(Some(peer), body, msg_id, now_ms, draw).0;
            let n = step.out.len() as int;
            let entry = after.node.outbox.last();
            &&& after.out.len() > n
            &&& after.node.outbox.len() > 0
            &&& after.out[n] == ActionModel::Direct { peer, wire: entry.wire }
            &&& step.node.sealed(peer, msg_id, body, FrameKind::Message, draw) == Ok::<
                Seq<u8>,
                CoreError,
            >(entry.wire)
            &&& entry.msg_id == msg_id
            &&& entry.recipient == peer
            &&& entry.traffic == Traffic::User
            &&& entry.attempts == 0
            &&& entry.queued_at_ms == now_ms
            &&& entry.next_attempt_ms == now_ms + 1_000
            &&& forall|i: int|
                n < i < after.out.len() ==> match #[trigger] after.out[i] {
                    ActionModel::Emit(event) => event.kind is MessageExpired,
                    _ => false,
                }
        }),
{
    let sent = Step {
        node: step.node.after_seal(peer).remembering(msg_id),
        out: step.out,
    }.transmit(
        peer,
        step.node.sealed(peer, msg_id, body, FrameKind::Message, draw)->Ok_0,
    );
    assert(outbox::backoff_ms(0) == 1_000) by {
        outbox::law_backoff_grows_and_caps(0, 0);
    }
}

/// What the queue gives up to make room is its oldest message, and the user hears of
/// it; everything else that is queued stays, in its order.
pub proof fn law_full_queue_drops_its_oldest(
    step: Step,
    msg_id: [u8; 16],
    peer: PeerId,
    wire: Seq<u8>,
    traffic: Traffic,
    now_ms: u64,
)
    requires
        forall|i: int|
            0 <= i < step.node.outbox.len() ==> (#[trigger] step.node.outbox[i]).msg_id != msg_id,
    ensures
        ({
            let before = step.node.outbox;
            let after = step.queue(msg_id, peer, wire, traffic, now_ms);
            let queue = after.node.outbox;
            let full = before.len() >= 256;
            let shift: int = if full {
                1
            } else {
                0
            };
            &&& queue.len() == before.len() + 1 - shift
            &&& queue.last().msg_id == msg_id
            &&& queue.last().wire == wire
            &&& queue.last().recipient == peer
            &&& queue.last().traffic == traffic
            &&& forall|i: int|
                0 <= i < queue.len() - 1 ==> #[trigger] queue[i] == before[i + shift]
            &&& after.out == if full && before[0].traffic == Traffic::User {
                step.out.push(
                    ActionModel::Emit(
                        EventModel {
                            seq: step.node.seq,
                            ts_ms: now_ms,
                            kind: EventKindModel::MessageExpired {
                                msg_id: before[0].msg_id,
                                reason: "outbox full"@,
                            },
                        },
                    ),
                )
            } else {
                step.out
            }
        }),
{
    seqs::lemma_filter_all(step.node.outbox, |p: PendingModel| p.msg_id != msg_id);
}

// ---------------------------------------------------------------------------
// Delivery
// ---------------------------------------------------------------------------

/// Every entry of the one queue comes from an entry of the other, for the same
/// message and the same peer.
spec fn stems_from(after: Seq<PendingModel>, before: Seq<PendingModel>) -> bool {
    forall|i: int|
        0 <= i < after.len() ==> exists|j: int|
            0 <= j < before.len() && #[trigger] before[j].msg_id == (
            #[trigger] after[i]).msg_id && before[j].recipient == after[i].recipient
}

proof fn lemma_after_due_stems(queue: Seq<PendingModel>, now_ms: u64)
    ensures
        stems_from(outbox::after_due(queue, now_ms), queue),
{
    let stays = |p: PendingModel| p.after_due(now_ms);
    let after = outbox::after_due(queue, now_ms);
    assert forall|i: int| 0 <= i < after.len() implies exists|j: int|
        0 <= j < queue.len() && #[trigger] queue[j].msg_id == (#[trigger] after[i]).msg_id
            && queue[j].recipient == after[i].recipient by {
        assert(after.contains(after[i]));
        queue.lemma_filter_map_contains(stays, after[i]);
        let p = choose|p: PendingModel| #[trigger]
            queue.contains(p) && stays(p) == Some(after[i]);
        let j = choose|j: int| 0 <= j < queue.len() && queue[j] == p;
        assert(queue[j].msg_id == after[i].msg_id);
    }
}

proof fn lemma_touch_stems(
    step: Step,
    id: PeerId,
    nickname: Seq<char>,
    rssi: i8,
    hops: u8,
    now_ms: u64,
)
    ensures
        stems_from(
            step.touch(id, nickname, rssi, hops, now_ms).node.outbox,
            step.node.outbox,
        ),
{
    let queue = step.node.outbox;
    let after = step.touch(id, nickname, rssi, hops, now_ms).node.outbox;
    if protocol::peer_at(step.node.peers, id) is None {
        let handed = Step {
            node: NodeModel {
                peers: step.node.peers.push(
                    PeerModel { id, nickname, rssi, last_seen_ms: now_ms, hops },
                ),
                ..step.node
            },
            out: step.out,
        }.emit(
            now_ms,
            EventKindModel::PeerDiscovered { peer: id, nickname, rssi, hops },
        ).hand_over(id);
        let woken = outbox::after_wake(queue, id, now_ms);
        let step_woken = Step {
            node: NodeModel { outbox: woken, ..handed.node },
            out: handed.out,
        };
        protocol::lemma_flush(step_woken, now_ms);
        lemma_after_due_stems(woken, now_ms);
        assert forall|i: int| 0 <= i < after.len() implies exists|j: int|
            0 <= j < queue.len() && #[trigger] queue[j].msg_id == (#[trigger] after[i]).msg_id
                && queue[j].recipient == after[i].recipient by {
            if after == woken {
                assert(woken[i] == queue[i].woken(id, now_ms));
                assert(queue[i].msg_id == after[i].msg_id);
            } else {
                let j = choose|j: int|
                    0 <= j < woken.len() && #[trigger] woken[j].msg_id == after[i].msg_id
                        && woken[j].recipient == after[i].recipient;
                assert(woken[j] == queue[j].woken(id, now_ms));
                assert(queue[j].msg_id == after[i].msg_id);
            }
        }
    } else {
        assert forall|i: int| 0 <= i < after.len() implies exists|j: int|
            0 <= j < queue.len() && #[trigger] queue[j].msg_id == (#[trigger] after[i]).msg_id
                && queue[j].recipient == after[i].recipient by {
            assert(queue[i].msg_id == after[i].msg_id);
        }
    }
}

/// Hearing a peer delivers nothing.
proof fn lemma_touch_delivers_nothing(
    step: Step,
    id: PeerId,
    nickname: Seq<char>,
    rssi: i8,
    hops: u8,
    now_ms: u64,
)
    ensures
        ({
            let after = step.touch(id, nickname, rssi, hops, now_ms);
            &&& protocol::extends(after.out, step.out)
            &&& forall|i: int|
                step.out.len() <= i < after.out.len() ==> !tells_delivery(#[trigger] after.out[i])
        }),
{
    if protocol::peer_at(step.node.peers, id) is None {
        let announced = Step {
            node: NodeModel {
                peers: step.node.peers.push(
                    PeerModel { id, nickname, rssi, last_seen_ms: now_ms, hops },
                ),
                ..step.node
            },
            out: step.out,
        }.emit(now_ms, EventKindModel::PeerDiscovered { peer: id, nickname, rssi, hops });
        events::lemma_orderly_greeting(announced, id, now_ms);
        let after = step.touch(id, nickname, rssi, hops, now_ms);
        assert forall|i: int| step.out.len() <= i < after.out.len() implies !tells_delivery(
            #[trigger] after.out[i],
        ) by {
            if i < announced.out.len() {
                assert(after.out[i] == announced.out[i]);
            } else {
                assert(events::routine(after.out[i]));
            }
        }
    }
}

/// The message is queued, and for the peer with this id.
pub open spec fn awaits_ack_of(node: NodeModel, msg_id: [u8; 16], peer: Seq<u8>) -> bool {
    exists|j: int|
        0 <= j < node.outbox.len() && (#[trigger] node.outbox[j]).msg_id == msg_id
            && node.outbox[j].recipient@ == peer
}

proof fn lemma_accept_delivers(
    step: Step,
    f: FrameModel,
    body: Seq<u8>,
    rssi: i8,
    now_ms: u64,
    draw: Draw,
    i: int,
)
    requires
        f.sender.len() == 32,
        step.out.len() <= i < step.accept(f, body, rssi, now_ms, draw).0.out.len(),
        tells_delivery(step.accept(f, body, rssi, now_ms, draw).0.out[i]),
    ensures
        ({
            let event = step.accept(f, body, rssi, now_ms, draw).0.out[i]->Emit_0;
            &&& f.kind == FrameKind::Ack
            &&& body.len() == 16
            &&& event.kind == (EventKindModel::MessageDelivered {
                msg_id: bytes::array_16(body),
                direct: true,
            })
            &&& awaits_ack_of(step.node, bytes::array_16(body), f.sender)
        }),
{
    let sender = bytes::array_32(f.sender);
    let judged = Step { node: step.node.judging(sender, f.epoch, f.counter), out: step.out };
    let heard = judged.touch(sender, f.nickname, rssi, f.hops, now_ms);
    let after = step.accept(f, body, rssi, now_ms, draw).0;
    lemma_touch_delivers_nothing(judged, sender, f.nickname, rssi, f.hops, now_ms);
    bytes::lemma_array_32_holds(f.sender);
    if i < heard.out.len() {
        super::lemma_accept(step, f, body, rssi, now_ms, draw);
    }
    match f.kind {
        FrameKind::Beacon => {
            if let Some((generation, public)) = prekey::advertised(sender@, body) {
                let known = if heard.node.is_news(sender, generation) {
                    Step {
                        node: NodeModel {
                            peer_prekeys: heard.node.peer_prekeys.insert(
                                sender,
                                PeerPrekey { generation, public: bytes::array_32(public) },
                            ),
                            ..heard.node
                        },
                        out: heard.out,
                    }
                } else {
                    heard
                };
                events::lemma_orderly_share(known, sender, now_ms, draw);
                let shared = known.share_chain(sender, now_ms, draw).0;
                if heard.out.len() <= i < shared.out.len() {
                    assert(events::routine(shared.out[i]));
                }
                if i < heard.out.len() {
                    assert(shared.out[i] == heard.out[i]);
                }
            }
        },
        FrameKind::Ack => {
            let acked = bytes::array_16(body);
            lemma_touch_stems(judged, sender, f.nickname, rssi, f.hops, now_ms);
            if outbox::queued_for(heard.node.outbox, acked, sender) {
                let k = choose|k: int|
                    0 <= k < heard.node.outbox.len() && (#[trigger] heard.node.outbox[k]).msg_id
                        == acked && heard.node.outbox[k].recipient == sender;
                let j = choose|j: int|
                    0 <= j < step.node.outbox.len() && #[trigger] step.node.outbox[j].msg_id
                        == heard.node.outbox[k].msg_id && step.node.outbox[j].recipient
                        == heard.node.outbox[k].recipient;
                assert(step.node.outbox[j].msg_id == acked);
            }
        },
        _ => {},
    }
}

/// Delivery is reported as acknowledged only on the recipient's word: the bytes that
/// came in are an ack that opened for us, it names the message, and the message was
/// queued for the peer that sent the ack.
pub proof fn law_direct_delivery_takes_an_ack(
    node: NodeModel,
    command: CommandModel,
    now_ms: u64,
    draw: Draw,
    i: int,
    msg_id: [u8; 16],
)
    requires
        0 <= i < protocol::idle(node).handle(command, now_ms, draw).out.len(),
        protocol::idle(node).handle(command, now_ms, draw).out[i] matches ActionModel::Emit(event)
            && event.kind == (EventKindModel::MessageDelivered { msg_id, direct: true }),
    ensures
        command matches CommandModel::Ingest { rssi, data } && frame::parsed(data) matches Ok(f)
            && {
            &&& f.kind == FrameKind::Ack
            &&& !node.seen.contains(bytes::array_16(f.msg_id))
            &&& node.unsealed(f) matches Ok(body)
            &&& body.len() == 16
            &&& bytes::array_16(body) == msg_id
            &&& awaits_ack_of(node, msg_id, f.sender)
        },
{
    let step = protocol::idle(node);
    match command {
        CommandModel::Send { to, body, msg_id: id } => {
            if let Some(peer) = to {
                let wire = node.sealed(peer, id, body, FrameKind::Message, draw)->Ok_0;
                let sent = Step {
                    node: node.after_seal(peer).remembering(id),
                    out: step.out,
                }.transmit(peer, wire);
                events::lemma_orderly_queue(sent, id, peer, wire, Traffic::User, now_ms);
                let queued = sent.queue(id, peer, wire, Traffic::User, now_ms);
                if sent.out.len() <= i < queued.out.len() {
                    assert(events::routine(queued.out[i]));
                }
            }
        },
        CommandModel::Ingest { rssi, data } => {
            if let Ok(f) = frame::parsed(data) {
                let fresh = Step {
                    node: node.remembering(bytes::array_16(f.msg_id)),
                    out: step.out,
                };
                assert(fresh.node.unsealed(f) == node.unsealed(f));
                if let Ok(body) = fresh.node.unsealed(f) {
                    let opened = Step { node: fresh.node.after_unseal(f), out: fresh.out };
                    let accepted = opened.accept(f, body, rssi, now_ms, draw).0;
                    if i < accepted.out.len() && tells_delivery(accepted.out[i]) {
                        lemma_accept_delivers(opened, f, body, rssi, now_ms, draw, i);
                        assert(awaits_ack_of(opened.node, bytes::array_16(body), f.sender));
                    }
                }
            }
        },
        _ => {},
    }
}

/// Housekeeping reports nothing delivered.
pub proof fn law_tick_delivers_nothing(node: NodeModel, now_ms: u64, draw: TickDraw, i: int)
    requires
        0 <= i < protocol::idle(node).tick(now_ms, draw).out.len(),
    ensures
        !tells_delivery(protocol::idle(node).tick(now_ms, draw).out[i]),
{
    let step = protocol::idle(node);
    let swept = events::tick_swept(step, now_ms);
    let after = step.tick(now_ms, draw);
    events::lemma_tick(step, now_ms, draw);
    if i < swept.out.len() {
        assert(after.out[i] == swept.out[i]);
        lemma_lost_only(step, now_ms, i);
    } else {
        assert(events::routine(after.out[i]));
    }
}

/// Forgetting silent peers tells of lost peers and of nothing else.
pub(super) proof fn lemma_lost_only(step: Step, now_ms: u64, i: int)
    requires
        step.out.len() <= i < step.expire_peers(now_ms).out.len(),
    ensures
        step.expire_peers(now_ms).out[i] matches ActionModel::Emit(event)
            && event.kind is PeerLost,
{
    let left = Step {
        node: NodeModel {
            peers: step.node.peers.filter(|p: PeerModel| !p.gone(now_ms)),
            ..step.node
        },
        out: step.out,
    };
    lemma_announced_only(left, step.node.peers.filter(|p: PeerModel| p.gone(now_ms)), now_ms, i);
}

proof fn lemma_announced_only(step: Step, gone: Seq<PeerModel>, now_ms: u64, i: int)
    requires
        step.out.len() <= i < step.announce_lost(gone, now_ms).out.len(),
    ensures
        step.announce_lost(gone, now_ms).out[i] matches ActionModel::Emit(event)
            && event.kind is PeerLost,
    decreases gone.len(),
{
    if gone.len() > 0 && i < step.announce_lost(gone.drop_last(), now_ms).out.len() {
        lemma_announced_only(step, gone.drop_last(), now_ms, i);
    }
}

// ---------------------------------------------------------------------------
// Acks
// ---------------------------------------------------------------------------

/// A directed message that arrives is answered: an ack, sealed for the sender and
/// naming the message, goes to the sender, and to nobody else. Where it cannot be
/// sealed, that is the outcome of the step.
pub proof fn law_directed_message_is_acked(
    step: Step,
    rssi: i8,
    data: Seq<u8>,
    now_ms: u64,
    draw: Draw,
)
    requires
        frame::parsed(data) is Ok,
        ({
            let f = frame::parsed(data)->Ok_0;
            &&& f.kind == FrameKind::Message
            &&& f.recipient == step.node.id@
            &&& !f.is_broadcast()
            &&& f.sender != step.node.id@
            &&& f.sender != crypto::BROADCAST_ID@
            &&& !step.node.seen.contains(bytes::array_16(f.msg_id))
            &&& step.node.unsealed(f) is Ok
            &&& step.node.verdict(bytes::array_32(f.sender), f.epoch, f.counter)
                == ReplayVerdict::Fresh
        }),
        draw.msg_id is Some,
    ensures
        ({
            let f = frame::parsed(data)->Ok_0;
            let sender = bytes::array_32(f.sender);
            let (after, result) = step.ingest(rssi, data, now_ms, draw);
            match step.node.sealed(
                sender,
                draw.msg_id->Some_0,
                f.msg_id,
                FrameKind::Ack,
                draw,
            ) {
                Ok(wire) => {
                    &&& result is Ok
                    &&& after.out.last() == ActionModel::Direct { peer: sender, wire }
                },
                Err(error) => result == Err::<(), CoreError>(error),
            }
        }),
{
    let f = frame::parsed(data)->Ok_0;
    let sender = bytes::array_32(f.sender);
    let fresh = Step { node: step.node.remembering(bytes::array_16(f.msg_id)), out: step.out };
    assert(fresh.node.unsealed(f) == step.node.unsealed(f));
    let body = fresh.node.unsealed(f)->Ok_0;
    let opened = Step { node: fresh.node.after_unseal(f), out: fresh.out };
    let judged = Step {
        node: opened.node.judging(sender, f.epoch, f.counter),
        out: opened.out,
    };
    protocol::lemma_touch(judged, sender, f.nickname, rssi, f.hops, now_ms);
    let heard = judged.touch(sender, f.nickname, rssi, f.hops, now_ms);
    bytes::lemma_array_32_holds(f.sender);
    bytes::lemma_array_32(step.node.id);
    bytes::lemma_array_16_holds(f.msg_id);
    let acked = bytes::array_16(f.msg_id);
    let msg_id = draw.msg_id->Some_0;
    let delivered = Step {
        node: NodeModel {
            inbox: heard.accept_message(f, body, rssi, now_ms, draw).0.node.inbox,
            ..heard.node
        },
        out: heard.out,
    }.emit(now_ms, super::received(f, body, rssi));
    assert(delivered.node.sealed(sender, msg_id, acked@, FrameKind::Ack, draw)
        == step.node.sealed(sender, msg_id, f.msg_id, FrameKind::Ack, draw));
}

} // verus!
