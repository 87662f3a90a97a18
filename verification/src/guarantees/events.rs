//! What the application is told: in which order, under which numbers, and of what.
use vstd::prelude::*;

use crate::bytes;
use crate::crypto::PeerId;
use crate::error::CoreError;
use crate::event::EventKindModel;
use crate::frame;
use crate::frame::{FrameKind, FrameModel};
use crate::outbox;
use crate::outbox::{DueModel, Traffic};
use crate::peer::PeerModel;
use crate::prekey;
use crate::prekey::PeerPrekey;
use crate::protocol;
use crate::protocol::{ActionModel, CommandModel, Draw, NodeModel, Step, TickDraw};
use crate::relaycache;
use crate::replay::ReplayVerdict;
use crate::senderkey::ChainModel;

verus! {

// ---------------------------------------------------------------------------
// Numbering
// ---------------------------------------------------------------------------

/// How many events there are among some actions.
pub open spec fn events_in(out: Seq<ActionModel>) -> nat
    decreases out.len(),
{
    if out.len() == 0 {
        0
    } else if out.last() is Emit {
        events_in(out.drop_last()) + 1
    } else {
        events_in(out.drop_last())
    }
}

/// From `before` to `after`, events were numbered one after another, from the number
/// that `before` stands at to the one that `after` stands at, and stamped with the
/// time. Numbers are 32 bits wide and wrap around.
pub open spec fn numbered(before: Step, after: Step, now_ms: u64) -> bool {
    let from = before.out.len() as int;
    &&& protocol::extends(after.out, before.out)
    &&& forall|i: int|
        from <= i < after.out.len() ==> match #[trigger] after.out[i] {
            ActionModel::Emit(event) => {
                &&& event.ts_ms == now_ms
                &&& event.seq == (before.node.seq + events_in(after.out.subrange(from, i)))
                    % 0x1_0000_0000
            },
            _ => true,
        }
    &&& after.node.seq == (before.node.seq + events_in(
        after.out.subrange(from, after.out.len() as int),
    )) % 0x1_0000_0000
}

proof fn lemma_events_in_sum(a: Seq<ActionModel>, b: Seq<ActionModel>)
    ensures
        events_in(a + b) == events_in(a) + events_in(b),
    decreases b.len(),
{
    if b.len() == 0 {
        assert(a + b =~= a);
    } else {
        lemma_events_in_sum(a, b.drop_last());
        assert((a + b).drop_last() =~= a + b.drop_last());
        assert((a + b).last() == b.last());
    }
}

/// Numbering goes on from step to step.
proof fn lemma_numbered(a: Step, b: Step, c: Step, now_ms: u64)
    requires
        numbered(a, b, now_ms),
        numbered(b, c, now_ms),
    ensures
        numbered(a, c, now_ms),
{
    let m = a.out.len() as int;
    let n = b.out.len() as int;
    let first = b.out.subrange(m, n);
    assert forall|i: int| n <= i <= c.out.len() implies #[trigger] events_in(c.out.subrange(m, i))
        == events_in(first) + events_in(c.out.subrange(n, i)) by {
        lemma_events_in_sum(first, c.out.subrange(n, i));
        assert(c.out.subrange(m, i) =~= first + c.out.subrange(n, i));
    }
    assert forall|i: int| m <= i < c.out.len() implies match #[trigger] c.out[i] {
        ActionModel::Emit(event) => {
            &&& event.ts_ms == now_ms
            &&& event.seq == (a.node.seq + events_in(c.out.subrange(m, i))) % 0x1_0000_0000
        },
        _ => true,
    } by {
        if i < n {
            assert(c.out[i] == b.out[i]);
            assert(c.out.subrange(m, i) =~= b.out.subrange(m, i));
        } else {
            assert(events_in(c.out.subrange(m, i)) == events_in(first) + events_in(
                c.out.subrange(n, i),
            ));
        }
    }
    assert(events_in(c.out.subrange(m, c.out.len() as int)) == events_in(first) + events_in(
        c.out.subrange(n, c.out.len() as int),
    ));
}

/// What is not told to the application takes no number.
proof fn lemma_numbered_quiet(before: Step, after: Step, now_ms: u64)
    requires
        protocol::extends(after.out, before.out),
        forall|i: int|
            before.out.len() <= i < after.out.len() ==> !(#[trigger] after.out[i] is Emit),
        after.node.seq == before.node.seq,
    ensures
        numbered(before, after, now_ms),
{
    let from = before.out.len() as int;
    assert forall|i: int| from <= i <= after.out.len() implies #[trigger] events_in(
        after.out.subrange(from, i),
    ) == 0 by {
        lemma_no_events(after.out.subrange(from, i));
    }
    assert(events_in(after.out.subrange(from, after.out.len() as int)) == 0);
}

proof fn lemma_no_events(out: Seq<ActionModel>)
    requires
        forall|i: int| 0 <= i < out.len() ==> !(#[trigger] out[i] is Emit),
    ensures
        events_in(out) == 0,
    decreases out.len(),
{
    if out.len() > 0 {
        let rest = out.drop_last();
        assert forall|i: int| 0 <= i < rest.len() implies !(#[trigger] rest[i] is Emit) by {
            assert(rest[i] == out[i]);
        }
        assert(!(out[out.len() - 1] is Emit));
        lemma_no_events(rest);
    }
}

proof fn lemma_numbered_emit(step: Step, now_ms: u64, kind: EventKindModel)
    ensures
        numbered(step, step.emit(now_ms, kind), now_ms),
{
    let after = step.emit(now_ms, kind);
    let n = step.out.len() as int;
    assert(after.out.subrange(n, n) =~= Seq::<ActionModel>::empty());
    let last = after.out.subrange(n, n + 1);
    assert(last =~= seq![after.out[n]]);
    assert(last.drop_last() =~= Seq::<ActionModel>::empty());
    assert(events_in(last.drop_last()) == 0);
    assert(events_in(last) == 1);
}

// ---------------------------------------------------------------------------
// Routine
// ---------------------------------------------------------------------------

/// What housekeeping comes to: frames on the air, a beacon that starts nothing, and
/// word of expired messages and of failures.
pub open spec fn routine(action: ActionModel) -> bool {
    match action {
        ActionModel::Flood { .. } => true,
        ActionModel::Direct { .. } => true,
        ActionModel::Beacon { wire, starting } => !starting,
        ActionModel::Emit(event) => event.kind is MessageExpired || event.kind is Error,
        _ => false,
    }
}

/// From `before` to `after` there was nothing but routine, and its events were
/// numbered in order.
pub open spec fn orderly(before: Step, after: Step, now_ms: u64) -> bool {
    &&& numbered(before, after, now_ms)
    &&& forall|i: int|
        before.out.len() <= i < after.out.len() ==> routine(#[trigger] after.out[i])
}

pub(super) proof fn lemma_orderly(a: Step, b: Step, c: Step, now_ms: u64)
    requires
        orderly(a, b, now_ms),
        orderly(b, c, now_ms),
    ensures
        orderly(a, c, now_ms),
{
    lemma_numbered(a, b, c, now_ms);
    assert forall|i: int| a.out.len() <= i < c.out.len() implies routine(#[trigger] c.out[i]) by {
        if i < b.out.len() {
            assert(c.out[i] == b.out[i]);
        }
    }
}

/// A step that puts frames on the air, and no more, is orderly.
pub(super) proof fn lemma_orderly_quiet(before: Step, after: Step, now_ms: u64)
    requires
        protocol::extends(after.out, before.out),
        forall|i: int|
            before.out.len() <= i < after.out.len() ==> !(#[trigger] after.out[i] is Emit)
                && routine(after.out[i]),
        after.node.seq == before.node.seq,
    ensures
        orderly(before, after, now_ms),
{
    lemma_numbered_quiet(before, after, now_ms);
}

pub(super) proof fn lemma_orderly_emit(step: Step, now_ms: u64, kind: EventKindModel)
    requires
        kind is MessageExpired || kind is Error,
    ensures
        orderly(step, step.emit(now_ms, kind), now_ms),
{
    lemma_numbered_emit(step, now_ms, kind);
}

pub(super) proof fn lemma_orderly_queue(
    step: Step,
    msg_id: [u8; 16],
    peer: PeerId,
    wire: Seq<u8>,
    traffic: Traffic,
    now_ms: u64,
)
    ensures
        orderly(step, step.queue(msg_id, peer, wire, traffic, now_ms), now_ms),
{
    let rest = outbox::without(step.node.outbox, msg_id);
    let after = step.queue(msg_id, peer, wire, traffic, now_ms);
    let queued = Step { node: NodeModel { outbox: after.node.outbox, ..step.node }, out: step.out };
    lemma_orderly_quiet(step, queued, now_ms);
    if rest.len() >= outbox::CAPACITY && rest[0].traffic == Traffic::User {
        let kind = EventKindModel::MessageExpired {
            msg_id: rest[0].msg_id,
            reason: "outbox full"@,
        };
        lemma_orderly_emit(queued, now_ms, kind);
        lemma_orderly(step, queued, queued.emit(now_ms, kind), now_ms);
    }
}

pub(super) proof fn lemma_orderly_settle(step: Step, items: Seq<DueModel>, now_ms: u64)
    ensures
        orderly(step, step.settle(items, now_ms), now_ms),
    decreases items.len(),
{
    if items.len() == 0 {
        lemma_orderly_quiet(step, step, now_ms);
    } else {
        let before = step.settle(items.drop_last(), now_ms);
        let item = items.last();
        let after = step.settle(items, now_ms);
        lemma_orderly_settle(step, items.drop_last(), now_ms);
        if item.retry is None && item.traffic == Traffic::User {
            lemma_orderly_emit(
                before,
                now_ms,
                EventKindModel::MessageExpired { msg_id: item.msg_id, reason: "no ack"@ },
            );
        } else {
            lemma_orderly_quiet(before, after, now_ms);
        }
        lemma_orderly(step, before, after, now_ms);
    }
}

pub(super) proof fn lemma_orderly_flush(step: Step, now_ms: u64)
    ensures
        orderly(step, step.flush(now_ms), now_ms),
{
    let taken = Step {
        node: NodeModel { outbox: outbox::after_due(step.node.outbox, now_ms), ..step.node },
        out: step.out,
    };
    lemma_orderly_quiet(step, taken, now_ms);
    lemma_orderly_settle(taken, outbox::all_due(step.node.outbox, now_ms), now_ms);
    lemma_orderly(step, taken, step.flush(now_ms), now_ms);
}

/// What follows the announcement of a new peer is routine.
pub(super) proof fn lemma_orderly_greeting(step: Step, id: PeerId, now_ms: u64)
    ensures
        orderly(step, step.hand_over(id).wake(id, now_ms), now_ms),
{
    let handed = step.hand_over(id);
    let woken = Step {
        node: NodeModel {
            outbox: outbox::after_wake(handed.node.outbox, id, now_ms),
            ..handed.node
        },
        out: handed.out,
    };
    lemma_orderly_quiet(step, woken, now_ms);
    lemma_orderly_flush(woken, now_ms);
    lemma_orderly(step, woken, woken.flush(now_ms), now_ms);
}

pub(super) proof fn lemma_orderly_share(step: Step, peer: PeerId, now_ms: u64, draw: Draw)
    ensures
        orderly(step, step.share_chain(peer, now_ms, draw).0, now_ms),
{
    let after = step.share_chain(peer, now_ms, draw).0;
    if step.node.needs_ephemeral(peer) && draw.msg_id is Some {
        let msg_id = draw.msg_id->Some_0;
        match step.node.sealed(
            peer,
            msg_id,
            step.node.chain.encoded(),
            FrameKind::SenderKey,
            draw,
        ) {
            Ok(wire) => {
                let known = step.node.after_seal(peer).remembering(msg_id);
                let cleared = Step {
                    node: NodeModel {
                        outbox: outbox::without_internal(known.outbox, peer),
                        shared_with: if known.shared_with.contains(peer) {
                            known.shared_with
                        } else {
                            known.shared_with.push(peer)
                        },
                        ..known
                    },
                    out: step.out,
                }.transmit(peer, wire);
                lemma_orderly_quiet(step, cleared, now_ms);
                lemma_orderly_queue(cleared, msg_id, peer, wire, Traffic::Internal, now_ms);
                lemma_orderly(step, cleared, after, now_ms);
            },
            Err(_) => {
                lemma_orderly_quiet(step, after, now_ms);
            },
        }
    } else {
        lemma_orderly_quiet(step, after, now_ms);
    }
}

/// A failure that is reported is one more event.
pub(super) proof fn lemma_orderly_reporting(
    start: Step,
    outcome: (Step, Result<(), CoreError>),
    now_ms: u64,
)
    requires
        orderly(start, outcome.0, now_ms),
    ensures
        orderly(start, Step::reporting(outcome, now_ms), now_ms),
{
    match outcome.1 {
        Ok(_) => {},
        Err(error) => {
            let kind = EventKindModel::Error { message: error.message_chars() };
            lemma_orderly_emit(outcome.0, now_ms, kind);
            lemma_orderly(start, outcome.0, outcome.0.fail(now_ms, error), now_ms);
        },
    }
}

pub(super) proof fn lemma_orderly_share_all(
    step: Step,
    peers: Seq<PeerModel>,
    draws: Seq<Draw>,
    now_ms: u64,
)
    ensures
        orderly(step, step.share_with_all(peers, draws, now_ms), now_ms),
    decreases peers.len(),
{
    if peers.len() == 0 {
        lemma_orderly_quiet(step, step, now_ms);
    } else {
        let before = step.share_with_all(peers.drop_last(), draws, now_ms);
        let draw = protocol::nth_draw(draws, peers.len() - 1);
        let shared = before.share_chain(peers.last().id, now_ms, draw);
        lemma_orderly_share_all(step, peers.drop_last(), draws, now_ms);
        lemma_orderly_share(before, peers.last().id, now_ms, draw);
        lemma_orderly_reporting(before, shared, now_ms);
        lemma_orderly(step, before, step.share_with_all(peers, draws, now_ms), now_ms);
    }
}

pub(super) proof fn lemma_orderly_fail(step: Step, now_ms: u64, error: CoreError)
    ensures
        orderly(step, step.fail(now_ms, error), now_ms),
{
    lemma_orderly_emit(step, now_ms, EventKindModel::Error { message: error.message_chars() });
}

pub(super) proof fn lemma_orderly_beacon(step: Step, now_ms: u64, draw: Draw)
    ensures
        orderly(step, step.send_beacon(false, now_ms, draw), now_ms),
{
    let after = Step {
        node: NodeModel { counter: (step.node.counter + 1) as u64, ..step.node },
        out: step.out,
    };
    lemma_orderly_quiet(step, after, now_ms);
    match step.node.beacon(draw) {
        Ok(_) => {
            lemma_orderly_quiet(step, step.send_beacon(false, now_ms, draw), now_ms);
        },
        Err(error) => {
            lemma_orderly_fail(after, now_ms, error);
            lemma_orderly(step, after, after.fail(now_ms, error), now_ms);
        },
    }
}

pub(super) proof fn lemma_orderly_rotations(
    step: Step,
    prekey: Option<Seq<u8>>,
    chain: Option<(u32, Seq<u8>)>,
    draws: Seq<Draw>,
    now_ms: u64,
)
    ensures
        orderly(step, step.rotate_prekey(prekey, now_ms), now_ms),
        orderly(step, step.rotate_chain(chain, draws, now_ms), now_ms),
{
    lemma_orderly_fail(step, now_ms, protocol::no_randomness());
    lemma_orderly_quiet(step, step, now_ms);
    if let Some(fresh) = prekey {
        let rotated = Step {
            node: NodeModel { prekeys: step.node.prekeys.rotated(fresh, now_ms), ..step.node },
            out: step.out,
        };
        lemma_orderly_quiet(step, rotated, now_ms);
    }
    if let Some(fresh) = chain {
        let replaced = Step {
            node: NodeModel {
                chain: ChainModel { chain_id: fresh.0, index: 0, key: fresh.1 },
                shared_with: Seq::empty(),
                chain_since_ms: now_ms,
                ..step.node
            },
            out: step.out,
        };
        lemma_orderly_quiet(step, replaced, now_ms);
        lemma_orderly_share_all(replaced, step.node.peers, draws, now_ms);
        lemma_orderly(step, replaced, step.replace_chain(fresh, draws, now_ms), now_ms);
    }
}

// ---------------------------------------------------------------------------
// Whole steps
// ---------------------------------------------------------------------------

proof fn lemma_numbered_touch(
    step: Step,
    id: PeerId,
    nickname: Seq<char>,
    rssi: i8,
    hops: u8,
    now_ms: u64,
)
    ensures
        numbered(step, step.touch(id, nickname, rssi, hops, now_ms), now_ms),
{
    let after = step.touch(id, nickname, rssi, hops, now_ms);
    match protocol::peer_at(step.node.peers, id) {
        Some(_) => {
            lemma_numbered_quiet(step, after, now_ms);
        },
        None => {
            let listed = Step {
                node: NodeModel {
                    peers: step.node.peers.push(
                        PeerModel { id, nickname, rssi, last_seen_ms: now_ms, hops },
                    ),
                    ..step.node
                },
                out: step.out,
            };
            let kind = EventKindModel::PeerDiscovered { peer: id, nickname, rssi, hops };
            let announced = listed.emit(now_ms, kind);
            lemma_numbered_quiet(step, listed, now_ms);
            lemma_numbered_emit(listed, now_ms, kind);
            lemma_numbered(step, listed, announced, now_ms);
            lemma_orderly_greeting(announced, id, now_ms);
            lemma_numbered(step, announced, after, now_ms);
        },
    }
}

proof fn lemma_numbered_acknowledge(
    step: Step,
    to: PeerId,
    acked: [u8; 16],
    draw: Draw,
    now_ms: u64,
)
    ensures
        numbered(step, step.acknowledge(to, acked, draw).0, now_ms),
{
    lemma_numbered_quiet(step, step.acknowledge(to, acked, draw).0, now_ms);
}

proof fn lemma_numbered_accept(
    step: Step,
    f: FrameModel,
    body: Seq<u8>,
    rssi: i8,
    now_ms: u64,
    draw: Draw,
)
    ensures
        numbered(step, step.accept(f, body, rssi, now_ms, draw).0, now_ms),
{
    let sender = bytes::array_32(f.sender);
    let judged = Step { node: step.node.judging(sender, f.epoch, f.counter), out: step.out };
    let heard = judged.touch(sender, f.nickname, rssi, f.hops, now_ms);
    let after = step.accept(f, body, rssi, now_ms, draw).0;
    lemma_numbered_quiet(step, judged, now_ms);
    if step.node.verdict(sender, f.epoch, f.counter) == ReplayVerdict::Fresh {
        lemma_numbered_touch(judged, sender, f.nickname, rssi, f.hops, now_ms);
        lemma_numbered(step, judged, heard, now_ms);
        match f.kind {
            FrameKind::Beacon => {
                match prekey::advertised(sender@, body) {
                    Some((generation, public)) => {
                        let known = if heard.node.is_news(sender, generation) {
                            Step {
                                node: NodeModel {
                                    peer_prekeys: heard.node.peer_prekeys.insert(
                                        sender,
                                        PeerPrekey { generation, public: bytes::array_32(public) },
                                    ),
                                    ..heard.node
                                },
                                out: heard.out,
                            }
                        } else {
                            heard
                        };
                        lemma_numbered_quiet(heard, known, now_ms);
                        lemma_numbered(step, heard, known, now_ms);
                        lemma_orderly_share(known, sender, now_ms, draw);
                        lemma_numbered(
                            step,
                            known,
                            known.share_chain(sender, now_ms, draw).0,
                            now_ms,
                        );
                    },
                    None => {},
                }
            },
            FrameKind::Ack => {
                let acked = bytes::array_16(body);
                let cleared = Step {
                    node: NodeModel { outbox: after.node.outbox, ..heard.node },
                    out: heard.out,
                };
                let kind = EventKindModel::MessageDelivered { msg_id: acked, direct: true };
                lemma_numbered_quiet(heard, cleared, now_ms);
                lemma_numbered(step, heard, cleared, now_ms);
                lemma_numbered_emit(cleared, now_ms, kind);
                lemma_numbered(step, cleared, cleared.emit(now_ms, kind), now_ms);
            },
            FrameKind::SenderKey => {
                lemma_numbered_quiet(heard, after, now_ms);
                lemma_numbered(step, heard, after, now_ms);
            },
            FrameKind::Message => {
                let kind = super::received(f, body, rssi);
                let stored = Step {
                    node: NodeModel { inbox: after.node.inbox, ..heard.node },
                    out: heard.out,
                };
                let delivered = stored.emit(now_ms, kind);
                lemma_numbered_quiet(heard, stored, now_ms);
                lemma_numbered(step, heard, stored, now_ms);
                lemma_numbered_emit(stored, now_ms, kind);
                lemma_numbered(step, stored, delivered, now_ms);
                lemma_numbered_acknowledge(
                    delivered,
                    sender,
                    bytes::array_16(f.msg_id),
                    draw,
                    now_ms,
                );
                lemma_numbered(
                    step,
                    delivered,
                    delivered.acknowledge(sender, bytes::array_16(f.msg_id), draw).0,
                    now_ms,
                );
            },
        }
    }
}

proof fn lemma_numbered_ingest(step: Step, rssi: i8, data: Seq<u8>, now_ms: u64, draw: Draw)
    ensures
        numbered(step, step.ingest(rssi, data, now_ms, draw).0, now_ms),
{
    lemma_numbered_quiet(step, step, now_ms);
    if let Ok(f) = frame::parsed(data) {
        let fresh = Step {
            node: step.node.remembering(bytes::array_16(f.msg_id)),
            out: step.out,
        };
        lemma_numbered_quiet(step, fresh, now_ms);
        lemma_numbered_quiet(step, fresh.pass_on(f, data, now_ms), now_ms);
        match fresh.node.unsealed(f) {
            Ok(body) => {
                let opened = Step { node: fresh.node.after_unseal(f), out: fresh.out };
                let accepted = opened.accept(f, body, rssi, now_ms, draw).0;
                lemma_numbered_quiet(step, opened, now_ms);
                lemma_numbered_accept(opened, f, body, rssi, now_ms, draw);
                lemma_numbered(step, opened, accepted, now_ms);
                lemma_numbered_quiet(accepted, accepted.pass_on(f, data, now_ms), now_ms);
                lemma_numbered(step, accepted, accepted.pass_on(f, data, now_ms), now_ms);
            },
            Err(error) => {
                let failed = fresh.fail(now_ms, error);
                lemma_orderly_fail(fresh, now_ms, error);
                lemma_numbered(step, fresh, failed, now_ms);
                lemma_numbered_quiet(failed, failed.pass_on(f, data, now_ms), now_ms);
                lemma_numbered(step, failed, failed.pass_on(f, data, now_ms), now_ms);
            },
        }
    }
}

proof fn lemma_numbered_send(
    step: Step,
    to: Option<PeerId>,
    body: Seq<u8>,
    msg_id: [u8; 16],
    now_ms: u64,
    draw: Draw,
)
    ensures
        numbered(step, step.send(to, body, msg_id, now_ms, draw).0, now_ms),
{
    let recipient = protocol::addressee(to);
    let after = step.send(to, body, msg_id, now_ms, draw).0;
    lemma_numbered_quiet(step, step, now_ms);
    match step.node.sealed(recipient, msg_id, body, FrameKind::Message, draw) {
        Err(_) => {
            if step.node.running {
                lemma_numbered_quiet(step, after, now_ms);
            }
        },
        Ok(wire) => {
            let sent = Step {
                node: step.node.after_seal(recipient).remembering(msg_id),
                out: step.out,
            }.transmit(recipient, wire);
            lemma_numbered_quiet(step, sent, now_ms);
            match to {
                Some(peer) => {
                    lemma_orderly_queue(sent, msg_id, peer, wire, Traffic::User, now_ms);
                },
                None => {
                    lemma_numbered_emit(
                        sent,
                        now_ms,
                        EventKindModel::MessageDelivered { msg_id, direct: false },
                    );
                },
            }
            if step.node.running {
                lemma_numbered(step, sent, after, now_ms);
            }
        },
    }
}

/// Events are numbered: whatever the node is told to do, the events that come of it
/// carry consecutive numbers, from where the node stood, and the time of the step.
pub proof fn law_events_are_numbered(
    node: NodeModel,
    command: CommandModel,
    now_ms: u64,
    draw: Draw,
)
    ensures
        numbered(
            protocol::idle(node),
            protocol::idle(node).handle(command, now_ms, draw),
            now_ms,
        ),
{
    let step = protocol::idle(node);
    match command {
        CommandModel::Ingest { rssi, data } => {
            lemma_numbered_ingest(step, rssi, data, now_ms, draw);
            let (after, result) = step.ingest(rssi, data, now_ms, draw);
            if let Err(error) = result {
                lemma_orderly_fail(after, now_ms, error);
                lemma_numbered(step, after, after.fail(now_ms, error), now_ms);
            }
        },
        CommandModel::Send { to, body, msg_id } => {
            lemma_numbered_send(step, to, body, msg_id, now_ms, draw);
            let (after, result) = step.send(to, body, msg_id, now_ms, draw);
            if let Err(error) = result {
                lemma_orderly_fail(after, now_ms, error);
                lemma_numbered(step, after, after.fail(now_ms, error), now_ms);
            }
        },
        _ => {
            lemma_numbered_quiet(step, step.handle(command, now_ms, draw), now_ms);
        },
    }
}

/// The housekeeping of a running node, up to the rotation of its chain.
pub(super) open spec fn tick_announced(swept: Step, now_ms: u64, draw: TickDraw) -> Step {
    let flushed = swept.flush(now_ms);
    let rotated = flushed.rotate_prekey(draw.prekey, now_ms);
    let renewed = flushed.node.prekeys.due(now_ms) && draw.prekey is Some;
    if renewed || now_ms - rotated.node.last_beacon_ms >= protocol::BEACON_INTERVAL_MS {
        rotated.send_beacon(false, now_ms, draw.beacon)
    } else {
        rotated
    }
}

/// Housekeeping, once silent peers and stale frames are gone.
pub(super) open spec fn tick_swept(step: Step, now_ms: u64) -> Step {
    let expired = step.expire_peers(now_ms);
    Step {
        node: NodeModel {
            carried: relaycache::still_fresh(expired.node.carried, now_ms),
            ..expired.node
        },
        out: expired.out,
    }
}

/// A tick is what its parts are, one after another, and after the sweep all of it is
/// routine.
pub(super) proof fn lemma_tick(step: Step, now_ms: u64, draw: TickDraw)
    ensures
        ({
            let swept = tick_swept(step, now_ms);
            let announced = tick_announced(swept, now_ms, draw);
            let after = step.tick(now_ms, draw);
            &&& swept.node.running == step.node.running
            &&& !step.node.running ==> after == swept
            &&& step.node.running ==> {
                &&& after == announced.rotate_chain(draw.chain, draw.shares, now_ms)
                &&& orderly(swept, swept.flush(now_ms), now_ms)
                &&& orderly(swept.flush(now_ms), announced, now_ms)
                &&& orderly(announced, after, now_ms)
            }
            &&& orderly(swept, after, now_ms)
        }),
{
    let swept = tick_swept(step, now_ms);
    let flushed = swept.flush(now_ms);
    let rotated = flushed.rotate_prekey(draw.prekey, now_ms);
    let announced = tick_announced(swept, now_ms, draw);
    let after = step.tick(now_ms, draw);
    protocol::lemma_expire_peers(step, now_ms);
    if step.node.running {
        lemma_orderly_flush(swept, now_ms);
        lemma_orderly_rotations(flushed, draw.prekey, draw.chain, draw.shares, now_ms);
        lemma_orderly_beacon(rotated, now_ms, draw.beacon);
        if announced != rotated {
            lemma_orderly(flushed, rotated, announced, now_ms);
        }
        lemma_orderly_rotations(announced, draw.prekey, draw.chain, draw.shares, now_ms);
        lemma_orderly(swept, flushed, announced, now_ms);
        lemma_orderly(swept, announced, after, now_ms);
    } else {
        lemma_orderly_quiet(swept, after, now_ms);
    }
}

/// Handing the chain to peers changes nothing but the counter, the ids seen, the
/// queue, who holds the chain, and the sequence number.
pub(super) proof fn lemma_share_all_leaves(
    step: Step,
    peers: Seq<PeerModel>,
    draws: Seq<Draw>,
    now_ms: u64,
)
    ensures
        ({
            let after = step.share_with_all(peers, draws, now_ms).node;
            after == (NodeModel {
                counter: after.counter,
                seen: after.seen,
                outbox: after.outbox,
                shared_with: after.shared_with,
                seq: after.seq,
                ..step.node
            })
        }),
    decreases peers.len(),
{
    if peers.len() > 0 {
        let before = step.share_with_all(peers.drop_last(), draws, now_ms);
        lemma_share_all_leaves(step, peers.drop_last(), draws, now_ms);
        protocol::lemma_share_chain(
            before,
            peers.last().id,
            now_ms,
            protocol::nth_draw(draws, peers.len() - 1),
        );
    }
}

/// What a tick leaves as the sweep left it.
pub(super) proof fn lemma_tick_leaves(step: Step, now_ms: u64, draw: TickDraw)
    ensures
        ({
            let swept = tick_swept(step, now_ms).node;
            let after = step.tick(now_ms, draw).node;
            after == (NodeModel {
                seq: after.seq,
                counter: after.counter,
                seen: after.seen,
                outbox: after.outbox,
                prekeys: after.prekeys,
                chain: after.chain,
                shared_with: after.shared_with,
                chain_since_ms: after.chain_since_ms,
                peers: swept.peers,
                carried: swept.carried,
                ..step.node
            })
        }),
{
    let swept = tick_swept(step, now_ms);
    let announced = tick_announced(swept, now_ms, draw);
    protocol::lemma_expire_peers(step, now_ms);
    protocol::lemma_flush(swept, now_ms);
    lemma_tick(step, now_ms, draw);
    if let Some(chain) = draw.chain {
        let replaced = Step {
            node: NodeModel {
                chain: ChainModel { chain_id: chain.0, index: 0, key: chain.1 },
                shared_with: Seq::empty(),
                chain_since_ms: now_ms,
                ..announced.node
            },
            out: announced.out,
        };
        lemma_share_all_leaves(replaced, announced.node.peers, draw.shares, now_ms);
    }
}

proof fn lemma_numbered_lost(step: Step, gone: Seq<PeerModel>, now_ms: u64)
    ensures
        numbered(step, step.announce_lost(gone, now_ms), now_ms),
    decreases gone.len(),
{
    if gone.len() == 0 {
        lemma_numbered_quiet(step, step, now_ms);
    } else {
        let before = step.announce_lost(gone.drop_last(), now_ms);
        let kind = EventKindModel::PeerLost { peer: gone.last().id };
        lemma_numbered_lost(step, gone.drop_last(), now_ms);
        lemma_numbered_emit(before, now_ms, kind);
        lemma_numbered(step, before, before.emit(now_ms, kind), now_ms);
    }
}

/// The events of housekeeping are numbered too.
pub proof fn law_tick_events_are_numbered(node: NodeModel, now_ms: u64, draw: TickDraw)
    ensures
        numbered(protocol::idle(node), protocol::idle(node).tick(now_ms, draw), now_ms),
{
    let step = protocol::idle(node);
    let swept = tick_swept(step, now_ms);
    let left = Step {
        node: NodeModel {
            peers: node.peers.filter(|p: PeerModel| !p.gone(now_ms)),
            ..node
        },
        out: step.out,
    };
    let expired = step.expire_peers(now_ms);
    lemma_tick(step, now_ms, draw);
    lemma_numbered_quiet(step, left, now_ms);
    lemma_numbered_lost(left, node.peers.filter(|p: PeerModel| p.gone(now_ms)), now_ms);
    lemma_numbered(step, left, expired, now_ms);
    lemma_numbered_quiet(expired, swept, now_ms);
    lemma_numbered(step, expired, swept, now_ms);
    lemma_numbered(step, swept, step.tick(now_ms, draw), now_ms);
}

} // verus!
