//! Starting, stopping, and what goes on in between.
use vstd::prelude::*;

use super::events;
use super::receipts;
use crate::crypto;
use crate::crypto::PeerId;
use crate::error::CoreError;
use crate::event::{EventKindModel, EventModel};
use crate::frame;
use crate::outbox;
use crate::outbox::{DueModel, PendingModel, Traffic};
use crate::peer::PeerModel;
use crate::protocol;
use crate::protocol::{ActionModel, CommandModel, Draw, NodeModel, Step, TickDraw};
use crate::senderkey::ChainModel;
use crate::seqs;

verus! {

/// The action tells the application of the error.
pub open spec fn tells_error(action: ActionModel, error: CoreError) -> bool {
    action matches ActionModel::Emit(event) && event.kind == (EventKindModel::Error {
        message: error.message_chars(),
    })
}

// ---------------------------------------------------------------------------
// Start and stop
// ---------------------------------------------------------------------------

/// A command asks for one thing: starting for the scan, stopping for the end of the
/// advertising, and shutting down for nothing. None of them changes the node.
pub proof fn law_what_commands_ask_for(node: NodeModel, now_ms: u64, draw: Draw)
    ensures
        protocol::idle(node).handle(CommandModel::Start, now_ms, draw) == (Step {
            node,
            out: seq![ActionModel::StartScanning],
        }),
        protocol::idle(node).handle(CommandModel::Stop, now_ms, draw) == (Step {
            node,
            out: seq![ActionModel::StopAdvertising],
        }),
        protocol::idle(node).handle(CommandModel::Shutdown, now_ms, draw) == (Step {
            node,
            out: Seq::empty(),
        }),
{
    let step = protocol::idle(node);
    assert(step.handle(CommandModel::Start, now_ms, draw).out =~= seq![ActionModel::StartScanning]);
    assert(step.handle(CommandModel::Stop, now_ms, draw).out =~= seq![
        ActionModel::StopAdvertising,
    ]);
}

/// A start takes two steps of the radio. With the scan under way the node runs and
/// asks for its beacon, as the one that completes the start; once that is on the air,
/// the application hears that the transport is up, and the time of the beacon is
/// noted. Where a step fails the error is told, and nothing else changes.
pub proof fn law_start_is_completed_by_the_beacon(
    node: NodeModel,
    result: Result<(), CoreError>,
    now_ms: u64,
    draw: Draw,
)
    ensures
        ({
            let after = protocol::idle(node).scanning_started(result, now_ms, draw);
            &&& result is Ok ==> {
                &&& after.node.running
                &&& after.out.len() == 1
                &&& match node.beacon(draw) {
                    Ok(wire) => after.out[0] == (ActionModel::Beacon { wire, starting: true }),
                    Err(error) => tells_error(after.out[0], error),
                }
            }
            &&& result matches Err(error) ==> {
                &&& after.node == (NodeModel { seq: after.node.seq, ..node })
                &&& after.out.len() == 1
                &&& tells_error(after.out[0], error)
            }
        }),
        ({
            let after = protocol::idle(node).beacon_sent(result, true, now_ms);
            &&& result is Ok ==> {
                &&& after.node.last_beacon_ms == now_ms
                &&& after.out == seq![
                    ActionModel::Emit(
                        EventModel {
                            seq: node.seq,
                            ts_ms: now_ms,
                            kind: EventKindModel::TransportState { running: true },
                        },
                    ),
                ]
            }
        }),
        ({
            let after = protocol::idle(node).beacon_sent(result, false, now_ms);
            result is Ok ==> after == (Step {
                node: NodeModel { last_beacon_ms: now_ms, ..node },
                out: Seq::empty(),
            })
        }),
        forall|starting: bool|
            result matches Err(error) ==> {
                let after = #[trigger] protocol::idle(node).beacon_sent(result, starting, now_ms);
                &&& after.node == (NodeModel { seq: after.node.seq, ..node })
                &&& after.out.len() == 1
                &&& tells_error(after.out[0], error)
            },
{
    let step = protocol::idle(node);
    let running = NodeModel { running: true, ..node };
    assert(running.beacon(draw) == node.beacon(draw));
    if result is Ok {
        assert(step.beacon_sent(result, true, now_ms).out =~= seq![
            ActionModel::Emit(
                EventModel {
                    seq: node.seq,
                    ts_ms: now_ms,
                    kind: EventKindModel::TransportState { running: true },
                },
            ),
        ]);
    }
}

/// A stop takes two steps of the radio, too. Once the advertising has ended the scan is
/// ended, and only then the node no longer runs, and the application hears of it.
/// Where a step fails the error is told, and the node runs on.
pub proof fn law_stop_is_completed_by_the_scan(
    node: NodeModel,
    result: Result<(), CoreError>,
    now_ms: u64,
)
    ensures
        result is Ok ==> protocol::idle(node).advertising_stopped(result, now_ms) == (Step {
            node,
            out: seq![ActionModel::StopScanning],
        }),
        ({
            let after = protocol::idle(node).scanning_stopped(result, now_ms);
            &&& result is Ok ==> {
                &&& !after.node.running
                &&& after.out == seq![
                    ActionModel::Emit(
                        EventModel {
                            seq: node.seq,
                            ts_ms: now_ms,
                            kind: EventKindModel::TransportState { running: false },
                        },
                    ),
                ]
            }
            &&& result matches Err(error) ==> {
                &&& after.node == (NodeModel { seq: after.node.seq, ..node })
                &&& after.out.len() == 1
                &&& tells_error(after.out[0], error)
            }
        }),
        result matches Err(error) ==> {
            let after = protocol::idle(node).advertising_stopped(result, now_ms);
            &&& after.node == (NodeModel { seq: after.node.seq, ..node })
            &&& after.out.len() == 1
            &&& tells_error(after.out[0], error)
        },
{
    let step = protocol::idle(node);
    if result is Ok {
        assert(step.advertising_stopped(result, now_ms).out =~= seq![ActionModel::StopScanning]);
        assert(step.scanning_stopped(result, now_ms).out =~= seq![
            ActionModel::Emit(
                EventModel {
                    seq: node.seq,
                    ts_ms: now_ms,
                    kind: EventKindModel::TransportState { running: false },
                },
            ),
        ]);
    }
}

/// A command that fails is told to the application: last of all, in the words of the
/// error.
pub proof fn law_failures_are_told(
    node: NodeModel,
    to: Option<PeerId>,
    body: Seq<u8>,
    msg_id: [u8; 16],
    rssi: i8,
    data: Seq<u8>,
    now_ms: u64,
    draw: Draw,
)
    ensures
        ({
            let step = protocol::idle(node);
            let after = step.handle(CommandModel::Send { to, body, msg_id }, now_ms, draw);
            match step.send(to, body, msg_id, now_ms, draw).1 {
                Err(error) => after.out.len() == 1 && tells_error(after.out[0], error),
                Ok(_) => after == step.send(to, body, msg_id, now_ms, draw).0,
            }
        }),
        ({
            let step = protocol::idle(node);
            let after = step.handle(CommandModel::Ingest { rssi, data }, now_ms, draw);
            &&& frame::parsed(data) matches Err(error) ==> {
                &&& after.out.len() == 1
                &&& tells_error(after.out[0], CoreError::Frame(error))
                &&& after.node == (NodeModel { seq: after.node.seq, ..node })
            }
            &&& match step.ingest(rssi, data, now_ms, draw).1 {
                Err(error) => after.out.len() > 0 && tells_error(after.out.last(), error),
                Ok(_) => after == step.ingest(rssi, data, now_ms, draw).0,
            }
        }),
        !node.running ==> {
            let after = protocol::idle(node).handle(
                CommandModel::Send { to, body, msg_id },
                now_ms,
                draw,
            );
            &&& after.out.len() == 1
            &&& tells_error(after.out[0], CoreError::NotRunning)
            &&& after.node == (NodeModel { seq: after.node.seq, ..node })
        },
{
}

// ---------------------------------------------------------------------------
// Housekeeping
// ---------------------------------------------------------------------------

/// A node that is not running keeps quiet: its tick puts nothing on the air, takes
/// nothing from the queue, and says nothing but that peers were lost.
pub proof fn law_stopped_node_keeps_quiet(node: NodeModel, now_ms: u64, draw: TickDraw)
    requires
        !node.running,
    ensures
        ({
            let after = protocol::idle(node).tick(now_ms, draw);
            &&& after.node == (NodeModel {
                seq: after.node.seq,
                peers: after.node.peers,
                carried: after.node.carried,
                ..node
            })
            &&& forall|i: int|
                0 <= i < after.out.len() ==> match #[trigger] after.out[i] {
                    ActionModel::Emit(event) => event.kind is PeerLost,
                    _ => false,
                }
        }),
{
    let step = protocol::idle(node);
    let after = step.tick(now_ms, draw);
    protocol::lemma_expire_peers(step, now_ms);
    assert forall|i: int| 0 <= i < after.out.len() implies match #[trigger] after.out[i] {
        ActionModel::Emit(event) => event.kind is PeerLost,
        _ => false,
    } by {
        receipts::lemma_lost_only(step, now_ms, i);
    }
}

/// The action puts a beacon on the air.
pub open spec fn is_beacon(action: ActionModel) -> bool {
    action is Beacon
}

/// A running node announces itself again two seconds after it last did, or as soon as
/// its prekey is replaced, and not otherwise. What goes out is the beacon of the node
/// with its prekey of that moment, and it starts nothing.
pub proof fn law_beacon_goes_out_in_time(node: NodeModel, now_ms: u64, draw: TickDraw)
    requires
        node.running,
    ensures
        ({
            let after = protocol::idle(node).tick(now_ms, draw);
            let renewed = now_ms - node.prekeys.rotated_at_ms >= 60_000 && draw.prekey is Some;
            let due = renewed || now_ms - node.last_beacon_ms >= 2_000;
            let announcer = NodeModel { prekeys: after.node.prekeys, ..node };
            &&& due ==> match announcer.beacon(draw.beacon) {
                Ok(wire) => after.out.contains(ActionModel::Beacon { wire, starting: false }),
                Err(error) => exists|i: int|
                    0 <= i < after.out.len() && tells_error(#[trigger] after.out[i], error),
            }
            &&& !due ==> forall|i: int|
                0 <= i < after.out.len() ==> !is_beacon(#[trigger] after.out[i])
            &&& forall|i: int, j: int|
                0 <= i < j < after.out.len() && is_beacon(#[trigger] after.out[i])
                    ==> !is_beacon(#[trigger] after.out[j])
        }),
{
    let step = protocol::idle(node);
    let swept = events::tick_swept(step, now_ms);
    let flushed = swept.flush(now_ms);
    let rotated = flushed.rotate_prekey(draw.prekey, now_ms);
    let announced = events::tick_announced(swept, now_ms, draw);
    let after = step.tick(now_ms, draw);
    protocol::lemma_expire_peers(step, now_ms);
    protocol::lemma_flush(swept, now_ms);
    events::lemma_tick(step, now_ms, draw);
    if let Some(chain) = draw.chain {
        let replaced = Step {
            node: NodeModel {
                chain: ChainModel { chain_id: chain.0, index: 0, key: chain.1 },
                shared_with: Seq::empty(),
                chain_since_ms: now_ms,
                ..announced.node
            },
            out: announced.out,
        };
        events::lemma_share_all_leaves(replaced, announced.node.peers, draw.shares, now_ms);
    }
    let announcer = NodeModel { prekeys: after.node.prekeys, ..node };
    assert(rotated.node.prekeys == after.node.prekeys);
    assert(announcer.beacon(draw.beacon) == rotated.node.beacon(draw.beacon));
    let place = rotated.out.len() as int;
    if announced.out.len() > place {
        assert(after.out[place] == announced.out[place]);
        if let Ok(wire) = announcer.beacon(draw.beacon) {
            assert(after.out[place] == (ActionModel::Beacon { wire, starting: false }));
        }
    }
    assert forall|i: int| 0 <= i < after.out.len() && is_beacon(#[trigger] after.out[i]) implies i
        == place && announced.out.len() > place by {
        if i < swept.out.len() {
            assert(after.out[i] == swept.out[i]);
            receipts::lemma_lost_only(step, now_ms, i);
        } else if i < flushed.out.len() {
            assert(after.out[i] == flushed.out[i]);
            lemma_flush_sends_what_is_due(swept, now_ms, i);
        } else if i < rotated.out.len() {
            events::lemma_orderly_rotations(flushed, draw.prekey, draw.chain, draw.shares, now_ms);
            assert(after.out[i] == announced.out[i]);
            assert(announced.out[i] == rotated.out[i]);
        } else if i >= announced.out.len() {
            if let Some(chain) = draw.chain {
                if i < announced.replace_chain(chain, draw.shares, now_ms).out.len() {
                    super::rotation::law_rotation_is_directed(
                        announced,
                        chain,
                        draw.shares,
                        now_ms,
                        i,
                    );
                }
            }
        }
    }
}

/// What flushing puts out: the frames of entries that are due, to those they are for,
/// and word of those that have expired.
pub(super) proof fn lemma_flush_sends_what_is_due(step: Step, now_ms: u64, k: int)
    requires
        step.out.len() <= k < step.flush(now_ms).out.len(),
    ensures
        match step.flush(now_ms).out[k] {
            ActionModel::Emit(event) => event.kind is MessageExpired,
            action => exists|i: int|
                0 <= i < step.node.outbox.len() && (#[trigger] step.node.outbox[i]).retries(now_ms)
                    && action == protocol::transmission(
                    step.node.outbox[i].recipient,
                    step.node.outbox[i].wire,
                ),
        },
{
    let queue = step.node.outbox;
    let due = |p: PendingModel| p.due(now_ms);
    let items = outbox::all_due(queue, now_ms);
    let taken = Step {
        node: NodeModel { outbox: outbox::after_due(queue, now_ms), ..step.node },
        out: step.out,
    };
    lemma_settle_sends_its_items(taken, items, now_ms, k);
    let action = step.flush(now_ms).out[k];
    if !(action is Emit) {
        let j = choose|j: int|
            0 <= j < items.len() && (#[trigger] items[j]).retry is Some && action
                == protocol::transmission(items[j].recipient, items[j].retry->Some_0);
        assert(items.contains(items[j]));
        queue.lemma_filter_map_contains(due, items[j]);
        let p = choose|p: PendingModel| #[trigger] queue.contains(p) && due(p) == Some(items[j]);
        let i = choose|i: int| 0 <= i < queue.len() && queue[i] == p;
        assert(queue[i].retries(now_ms));
    }
}

proof fn lemma_settle_sends_its_items(step: Step, items: Seq<DueModel>, now_ms: u64, k: int)
    requires
        step.out.len() <= k < step.settle(items, now_ms).out.len(),
    ensures
        match step.settle(items, now_ms).out[k] {
            ActionModel::Emit(event) => event.kind is MessageExpired,
            action => exists|j: int|
                0 <= j < items.len() && (#[trigger] items[j]).retry is Some && action
                    == protocol::transmission(items[j].recipient, items[j].retry->Some_0),
        },
    decreases items.len(),
{
    if items.len() > 0 {
        let rest = items.drop_last();
        let before = step.settle(rest, now_ms);
        let after = step.settle(items, now_ms);
        if k < before.out.len() {
            assert(after.out[k] == before.out[k]);
            lemma_settle_sends_its_items(step, rest, now_ms, k);
            if !(after.out[k] is Emit) {
                let j = choose|j: int|
                    0 <= j < rest.len() && (#[trigger] rest[j]).retry is Some && after.out[k]
                        == protocol::transmission(rest[j].recipient, rest[j].retry->Some_0);
                assert(items[j] == rest[j]);
            }
        } else {
            assert(items[items.len() - 1] == items.last());
        }
    }
}

/// The queue is seen to in each tick of a running node. What has waited two minutes is
/// given up, and the user hears of it if it was theirs. What is due goes out once more,
/// as it first did, to its recipient.
pub proof fn law_tick_sees_to_the_queue(node: NodeModel, now_ms: u64, draw: TickDraw, at: int)
    requires
        node.running,
        0 <= at < node.outbox.len(),
    ensures
        ({
            let entry = node.outbox[at];
            let after = protocol::idle(node).tick(now_ms, draw);
            let given_up = now_ms - entry.queued_at_ms >= 120_000;
            &&& given_up && entry.traffic == Traffic::User ==> exists|i: int|
                0 <= i < after.out.len() && tells_expiry(#[trigger] after.out[i], entry.msg_id)
            &&& !given_up && now_ms >= entry.next_attempt_ms ==> after.out.contains(
                if entry.recipient == crypto::BROADCAST_ID {
                    ActionModel::Flood { wire: entry.wire }
                } else {
                    ActionModel::Direct { peer: entry.recipient, wire: entry.wire }
                },
            )
        }),
{
    let step = protocol::idle(node);
    let swept = events::tick_swept(step, now_ms);
    let flushed = swept.flush(now_ms);
    let announced = events::tick_announced(swept, now_ms, draw);
    let after = step.tick(now_ms, draw);
    let entry = node.outbox[at];
    protocol::lemma_expire_peers(step, now_ms);
    events::lemma_tick(step, now_ms, draw);
    assert(swept.node.outbox == node.outbox);
    assert forall|i: int| 0 <= i < flushed.out.len() implies #[trigger] after.out[i]
        == flushed.out[i] by {
        assert(announced.out[i] == flushed.out[i]);
    }
    if entry.retries(now_ms) {
        super::law_unacked_message_is_retried(swept, now_ms, at);
        let action = protocol::transmission(entry.recipient, entry.wire);
        let i = choose|i: int| 0 <= i < flushed.out.len() && flushed.out[i] == action;
        assert(after.out[i] == action);
    }
    if entry.expired(now_ms) && entry.traffic == Traffic::User {
        let due = |p: PendingModel| p.due(now_ms);
        let items = outbox::all_due(node.outbox, now_ms);
        seqs::lemma_filter_map_keeps(node.outbox, due, at);
        let j = choose|j: int|
            0 <= j < items.len() && #[trigger] items[j] == due(node.outbox[at])->Some_0;
        let taken = Step {
            node: NodeModel { outbox: outbox::after_due(node.outbox, now_ms), ..swept.node },
            out: swept.out,
        };
        lemma_settle_tells_expiry(taken, items, now_ms, j);
        let i = choose|i: int|
            0 <= i < flushed.out.len() && tells_expiry(#[trigger] flushed.out[i], entry.msg_id);
        assert(after.out[i] == flushed.out[i]);
    }
}

/// The action tells the user that nobody acked the message in time.
pub open spec fn tells_expiry(action: ActionModel, msg_id: [u8; 16]) -> bool {
    action matches ActionModel::Emit(event) && event.kind == (EventKindModel::MessageExpired {
        msg_id,
        reason: "no ack"@,
    })
}

proof fn lemma_settle_tells_expiry(step: Step, items: Seq<DueModel>, now_ms: u64, at: int)
    requires
        0 <= at < items.len(),
        items[at].retry is None,
        items[at].traffic == Traffic::User,
    ensures
        exists|i: int|
            0 <= i < step.settle(items, now_ms).out.len() && tells_expiry(
                #[trigger] step.settle(items, now_ms).out[i],
                items[at].msg_id,
            ),
    decreases items.len(),
{
    let rest = items.drop_last();
    let before = step.settle(rest, now_ms);
    let after = step.settle(items, now_ms);
    if at == items.len() - 1 {
        assert(tells_expiry(after.out[after.out.len() - 1], items[at].msg_id));
    } else {
        assert(rest[at] == items[at]);
        lemma_settle_tells_expiry(step, rest, now_ms, at);
        let i = choose|i: int|
            0 <= i < before.out.len() && tells_expiry(#[trigger] before.out[i], items[at].msg_id);
        assert(after.out[i] == before.out[i]);
    }
}

/// A tick sends nothing of the queue that is not due: as long as the chain is not
/// replaced, every frame that goes out, but the beacon, is that of an entry whose time
/// has come and whose two minutes are not over.
pub proof fn law_tick_sends_only_what_is_due(
    node: NodeModel,
    now_ms: u64,
    draw: TickDraw,
    k: int,
)
    requires
        node.running,
        now_ms - node.chain_since_ms < node.chain_rotate_ms,
        0 <= k < protocol::idle(node).tick(now_ms, draw).out.len(),
        ({
            let action = protocol::idle(node).tick(now_ms, draw).out[k];
            action is Direct || action is Flood
        }),
    ensures
        exists|i: int| {
            &&& 0 <= i < node.outbox.len()
            &&& now_ms >= (#[trigger] node.outbox[i]).next_attempt_ms
            &&& now_ms - node.outbox[i].queued_at_ms < 120_000
            &&& protocol::idle(node).tick(now_ms, draw).out[k] == if node.outbox[i].recipient
                == crypto::BROADCAST_ID {
                ActionModel::Flood { wire: node.outbox[i].wire }
            } else {
                ActionModel::Direct {
                    peer: node.outbox[i].recipient,
                    wire: node.outbox[i].wire,
                }
            }
        },
{
    let step = protocol::idle(node);
    let swept = events::tick_swept(step, now_ms);
    let flushed = swept.flush(now_ms);
    let rotated = flushed.rotate_prekey(draw.prekey, now_ms);
    let announced = events::tick_announced(swept, now_ms, draw);
    let after = step.tick(now_ms, draw);
    protocol::lemma_expire_peers(step, now_ms);
    protocol::lemma_flush(swept, now_ms);
    events::lemma_tick(step, now_ms, draw);
    assert(swept.node.outbox == node.outbox);
    assert(after == announced);
    if k < swept.out.len() {
        assert(after.out[k] == swept.out[k]);
        receipts::lemma_lost_only(step, now_ms, k);
    } else if k < flushed.out.len() {
        assert(after.out[k] == flushed.out[k]);
        lemma_flush_sends_what_is_due(swept, now_ms, k);
    } else {
        assert(k < rotated.out.len() ==> after.out[k] == rotated.out[k]);
    }
}

/// What a tick leaves of the queue, as long as the chain is not replaced: what has
/// waited two minutes is gone; what was tried waits twice as long as before, up to a
/// quarter of a minute; everything else is as it was.
pub proof fn law_tick_leaves_the_rest_queued(
    node: NodeModel,
    now_ms: u64,
    draw: TickDraw,
    at: int,
)
    requires
        node.running,
        now_ms - node.chain_since_ms < node.chain_rotate_ms,
        outbox::queue_well_formed(node.outbox),
        0 <= at < node.outbox.len(),
        node.outbox[at].attempts < u32::MAX,
        now_ms + 15_000 <= u64::MAX,
    ensures
        ({
            let entry = node.outbox[at];
            let queue = protocol::idle(node).tick(now_ms, draw).node.outbox;
            let given_up = now_ms - entry.queued_at_ms >= 120_000;
            let tried = !given_up && now_ms >= entry.next_attempt_ms;
            &&& given_up ==> forall|i: int|
                0 <= i < queue.len() ==> (#[trigger] queue[i]).msg_id != entry.msg_id
            &&& tried ==> exists|i: int| {
                &&& 0 <= i < queue.len()
                &&& #[trigger] queue[i] == (PendingModel {
                    attempts: (entry.attempts + 1) as u32,
                    next_attempt_ms: queue[i].next_attempt_ms,
                    ..entry
                })
                &&& queue[i].next_attempt_ms == now_ms + outbox::backoff_ms(
                    (entry.attempts + 1) as u32,
                )
            }
            &&& !given_up && !tried ==> queue.contains(entry)
        }),
{
    let step = protocol::idle(node);
    let swept = events::tick_swept(step, now_ms);
    let flushed = swept.flush(now_ms);
    let entry = node.outbox[at];
    let stays = |p: PendingModel| p.after_due(now_ms);
    let queue = step.tick(now_ms, draw).node.outbox;
    protocol::lemma_expire_peers(step, now_ms);
    protocol::lemma_flush(swept, now_ms);
    events::lemma_tick(step, now_ms, draw);
    assert(queue == outbox::after_due(node.outbox, now_ms));
    outbox::law_backoff_grows_and_caps(0, (entry.attempts + 1) as u32);
    if entry.expired(now_ms) {
        assert forall|i: int| 0 <= i < queue.len() implies (#[trigger] queue[i]).msg_id
            != entry.msg_id by {
            assert(queue.contains(queue[i]));
            node.outbox.lemma_filter_map_contains(stays, queue[i]);
            let p = choose|p: PendingModel| #[trigger]
                node.outbox.contains(p) && stays(p) == Some(queue[i]);
            let j = choose|j: int| 0 <= j < node.outbox.len() && node.outbox[j] == p;
            if node.outbox[j].msg_id == entry.msg_id {
                assert(node.outbox[j].msg_id == node.outbox[at].msg_id);
            }
        }
    } else {
        seqs::lemma_filter_map_keeps(node.outbox, stays, at);
        let i = choose|i: int|
            0 <= i < queue.len() && #[trigger] queue[i] == stays(node.outbox[at])->Some_0;
        assert(queue[i] == entry.after_due(now_ms)->Some_0);
    }
}

/// A node starts as it was set up: named, with the life it gives its frames and the
/// time it keeps a chain; in the session it was given, or one named by the clock; with
/// the keys that were drawn; and knowing nobody and nothing else.
pub proof fn law_node_starts_with_nothing(
    config: crate::config::Config,
    seed: Seq<u8>,
    id: PeerId,
    prekey: Seq<u8>,
    chain_id: u32,
    chain_key: Seq<u8>,
    now_ms: u64,
)
    ensures
        ({
            let epoch = protocol::session_epoch(config.epoch, now_ms);
            let node = NodeModel::started(
                config,
                seed,
                id,
                epoch,
                prekey,
                chain_id,
                chain_key,
                now_ms,
            );
            &&& epoch == (if config.epoch is Some {
                config.epoch->Some_0
            } else {
                now_ms
            })
            &&& node.epoch == epoch
            &&& node.nickname == config.nickname@
            &&& node.ttl == config.ttl
            &&& node.chain_rotate_ms == config.chain_rotate_ms
            &&& node.channel_key == crypto::channel_key(config.channel_secret@)
            &&& node.seed == seed
            &&& node.id == id
            &&& !node.running
            &&& node.counter == 0
            &&& node.seq == 0
            &&& node.last_beacon_ms == 0
            &&& node.peers.len() == 0
            &&& node.inbox.len() == 0
            &&& node.outbox.len() == 0
            &&& node.seen.len() == 0
            &&& node.carried.len() == 0
            &&& node.chains.len() == 0
            &&& node.shared_with.len() == 0
            &&& forall|peer: PeerId| !(#[trigger] node.peer_prekeys.contains_key(peer))
            &&& forall|peer: PeerId| !(#[trigger] node.replay.contains_key(peer))
            &&& node.chain.chain_id == chain_id
            &&& node.chain.index == 0
            &&& node.chain.key == chain_key
            &&& node.chain_since_ms == now_ms
            &&& node.prekeys.current.secret == prekey
            &&& node.prekeys.current.public == crypto::x25519_public(prekey)
            &&& node.prekeys.current.generation == 0
            &&& node.prekeys.next_generation == 1
            &&& node.prekeys.retired.len() == 0
            &&& node.prekeys.rotated_at_ms == now_ms
        }),
{
}

/// Only the user's messages are given up aloud: where a tick says that nobody acked a
/// message, it was the user's, it was queued, and its two minutes were over.
pub proof fn law_only_user_messages_expire_aloud(
    node: NodeModel,
    now_ms: u64,
    draw: TickDraw,
    k: int,
    msg_id: [u8; 16],
)
    requires
        0 <= k < protocol::idle(node).tick(now_ms, draw).out.len(),
        tells_expiry(protocol::idle(node).tick(now_ms, draw).out[k], msg_id),
    ensures
        exists|i: int|
            0 <= i < node.outbox.len() && (#[trigger] node.outbox[i]).msg_id == msg_id
                && node.outbox[i].traffic == Traffic::User && now_ms
                - node.outbox[i].queued_at_ms >= 120_000,
{
    let step = protocol::idle(node);
    let swept = events::tick_swept(step, now_ms);
    let flushed = swept.flush(now_ms);
    let rotated = flushed.rotate_prekey(draw.prekey, now_ms);
    let announced = events::tick_announced(swept, now_ms, draw);
    let after = step.tick(now_ms, draw);
    protocol::lemma_expire_peers(step, now_ms);
    protocol::lemma_flush(swept, now_ms);
    events::lemma_tick(step, now_ms, draw);
    if k < swept.out.len() {
        assert(after.out[k] == swept.out[k]);
        receipts::lemma_lost_only(step, now_ms, k);
    } else if k < flushed.out.len() {
        assert(announced.out[k] == flushed.out[k]);
        assert(after.out[k] == flushed.out[k]);
        let due = |p: PendingModel| p.due(now_ms);
        let items = outbox::all_due(node.outbox, now_ms);
        let taken = Step {
            node: NodeModel { outbox: outbox::after_due(node.outbox, now_ms), ..swept.node },
            out: swept.out,
        };
        lemma_settle_expires_its_items(taken, items, now_ms, k, msg_id);
        let j = choose|j: int|
            0 <= j < items.len() && (#[trigger] items[j]).retry is None && items[j].msg_id
                == msg_id && items[j].traffic == Traffic::User;
        assert(items.contains(items[j]));
        node.outbox.lemma_filter_map_contains(due, items[j]);
        let p = choose|p: PendingModel| #[trigger]
            node.outbox.contains(p) && due(p) == Some(items[j]);
        let i = choose|i: int| 0 <= i < node.outbox.len() && node.outbox[i] == p;
        assert(node.outbox[i].msg_id == msg_id);
    } else if k < announced.out.len() {
        assert(after.out[k] == announced.out[k]);
        assert(k < rotated.out.len() ==> announced.out[k] == rotated.out[k]);
    } else {
        lemma_rotation_expires_nothing_unacked(announced, draw, now_ms, k, msg_id);
    }
}

proof fn lemma_settle_expires_its_items(
    step: Step,
    items: Seq<DueModel>,
    now_ms: u64,
    k: int,
    msg_id: [u8; 16],
)
    requires
        step.out.len() <= k < step.settle(items, now_ms).out.len(),
        tells_expiry(step.settle(items, now_ms).out[k], msg_id),
    ensures
        exists|j: int|
            0 <= j < items.len() && (#[trigger] items[j]).retry is None && items[j].msg_id
                == msg_id && items[j].traffic == Traffic::User,
    decreases items.len(),
{
    if items.len() > 0 {
        let rest = items.drop_last();
        let before = step.settle(rest, now_ms);
        let after = step.settle(items, now_ms);
        if k < before.out.len() {
            assert(after.out[k] == before.out[k]);
            lemma_settle_expires_its_items(step, rest, now_ms, k, msg_id);
            let j = choose|j: int|
                0 <= j < rest.len() && (#[trigger] rest[j]).retry is None && rest[j].msg_id
                    == msg_id && rest[j].traffic == Traffic::User;
            assert(items[j] == rest[j]);
        } else {
            assert(items[items.len() - 1] == items.last());
        }
    }
}

/// Handing out the chain may crowd a message out of the queue; that is another reason,
/// and told as such.
proof fn lemma_rotation_expires_nothing_unacked(
    step: Step,
    draw: TickDraw,
    now_ms: u64,
    k: int,
    msg_id: [u8; 16],
)
    requires
        step.out.len() <= k < step.rotate_chain(draw.chain, draw.shares, now_ms).out.len(),
    ensures
        !tells_expiry(step.rotate_chain(draw.chain, draw.shares, now_ms).out[k], msg_id),
{
    lemma_reasons_differ();
    if let Some(chain) = draw.chain {
        let replaced = Step {
            node: NodeModel {
                chain: ChainModel { chain_id: chain.0, index: 0, key: chain.1 },
                shared_with: Seq::empty(),
                chain_since_ms: now_ms,
                ..step.node
            },
            out: step.out,
        };
        if k < replaced.share_with_all(step.node.peers, draw.shares, now_ms).out.len() {
            lemma_sharing_expires_nothing_unacked(
                replaced,
                step.node.peers,
                draw.shares,
                now_ms,
                k,
                msg_id,
            );
        }
    }
}

proof fn lemma_reasons_differ()
    ensures
        "no ack"@ != "outbox full"@,
{
    reveal_strlit("no ack");
    reveal_strlit("outbox full");
    assert("no ack"@.len() != "outbox full"@.len());
}

proof fn lemma_sharing_expires_nothing_unacked(
    step: Step,
    peers: Seq<PeerModel>,
    draws: Seq<Draw>,
    now_ms: u64,
    k: int,
    msg_id: [u8; 16],
)
    requires
        step.out.len() <= k < step.share_with_all(peers, draws, now_ms).out.len(),
    ensures
        !tells_expiry(step.share_with_all(peers, draws, now_ms).out[k], msg_id),
    decreases peers.len(),
{
    lemma_reasons_differ();
    if peers.len() > 0 {
        let rest = peers.drop_last();
        let before = step.share_with_all(rest, draws, now_ms);
        let draw = protocol::nth_draw(draws, peers.len() - 1);
        let shared = before.share_chain(peers.last().id, now_ms, draw).0;
        let after = step.share_with_all(peers, draws, now_ms);
        events::lemma_orderly_share(before, peers.last().id, now_ms, draw);
        if k < before.out.len() {
            lemma_sharing_expires_nothing_unacked(step, rest, draws, now_ms, k, msg_id);
            assert(after.out[k] == before.out[k]);
        } else if k < shared.out.len() {
            assert(after.out[k] == shared.out[k]);
        }
    }
}

/// The limits and intervals that nodes of one mesh have to agree on, or that their
/// users are promised.
pub proof fn law_limits_are_as_published()
    ensures
        crate::config::DEFAULT_TTL == 6,
        protocol::TICK_MS == 250,
        protocol::BEACON_INTERVAL_MS == 2_000,
        protocol::PEER_TTL_MS == 30_000,
        protocol::INBOX_CAPACITY == 256,
        protocol::DEDUP_CAPACITY == 4096,
        outbox::BASE_BACKOFF_MS == 1_000,
        outbox::MAX_BACKOFF_MS == 15_000,
        outbox::DEADLINE_MS == 120_000,
        outbox::CAPACITY == 256,
        crate::relaycache::TTL_MS == 120_000,
        crate::relaycache::CAPACITY == 128,
        crate::prekey::ROTATE_INTERVAL_MS == 60_000,
        crate::prekey::RETAINED == 3,
        crate::senderkey::ROTATE_INTERVAL_MS == 60_000,
        crate::senderkey::MAX_SKIP == 64,
        crate::senderkey::SKIPPED_CAP == 128,
        crate::replay::WINDOW == 64,
        frame::MAX_FRAME == 512,
        frame::MAX_NICKNAME == 20,
{
}

} // verus!
