//! Who is in sight.
use vstd::prelude::*;

use super::events;
use crate::bytes;
use crate::crypto::PeerId;
use crate::event::{EventKindModel, EventModel};
use crate::frame;
use crate::frame::FrameModel;
use crate::outbox;
use crate::peer::PeerModel;
use crate::prekey;
use crate::prekey::PeerPrekey;
use crate::protocol;
use crate::protocol::{ActionModel, Draw, NodeModel, Step, TickDraw};
use crate::replay::ReplayVerdict;
use crate::seqs;

verus! {

/// No peer is listed twice.
pub open spec fn listed_once(peers: Seq<PeerModel>) -> bool {
    forall|i: int, j: int|
        0 <= i < j < peers.len() ==> (#[trigger] peers[i]).id != (#[trigger] peers[j]).id
}

/// The peer is listed.
pub open spec fn listed(peers: Seq<PeerModel>, id: PeerId) -> bool {
    exists|i: int| 0 <= i < peers.len() && (#[trigger] peers[i]).id == id
}

/// The peer is listed as it was last heard, at `now_ms`.
pub open spec fn listed_as_heard(
    peers: Seq<PeerModel>,
    id: PeerId,
    rssi: i8,
    hops: u8,
    now_ms: u64,
) -> bool {
    exists|i: int|
        0 <= i < peers.len() && (#[trigger] peers[i]).id == id && peers[i].last_seen_ms == now_ms
            && peers[i].rssi == rssi && peers[i].hops == hops
}

// ---------------------------------------------------------------------------
// Hearing
// ---------------------------------------------------------------------------

/// The table once a peer was heard.
proof fn lemma_touched_table(
    step: Step,
    id: PeerId,
    nickname: Seq<char>,
    rssi: i8,
    hops: u8,
    now_ms: u64,
)
    ensures
        step.touch(id, nickname, rssi, hops, now_ms).node.peers == match protocol::peer_at(
            step.node.peers,
            id,
        ) {
            Some(at) => step.node.peers.update(
                at,
                step.node.peers[at].heard(nickname, rssi, hops, now_ms),
            ),
            None => step.node.peers.push(
                PeerModel { id, nickname, rssi, last_seen_ms: now_ms, hops },
            ),
        },
{
    if protocol::peer_at(step.node.peers, id) is None {
        let handed = Step {
            node: NodeModel {
                peers: step.node.peers.push(
                    PeerModel { id, nickname, rssi, last_seen_ms: now_ms, hops },
                ),
                ..step.node
            },
            out: step.out,
        }.emit(
            now_ms,
            EventKindModel::PeerDiscovered { peer: id, nickname, rssi, hops },
        ).hand_over(id);
        let woken = Step {
            node: NodeModel {
                outbox: outbox::after_wake(handed.node.outbox, id, now_ms),
                ..handed.node
            },
            out: handed.out,
        };
        protocol::lemma_flush(woken, now_ms);
    }
}

/// Hearing a peer refreshes it: its row says that it was seen now, how strongly and
/// how far off. A name replaces the one we had; no name leaves it. A peer that was
/// not listed is listed last. Every other row stays as it is.
pub proof fn law_hearing_refreshes_the_peer(
    step: Step,
    id: PeerId,
    nickname: Seq<char>,
    rssi: i8,
    hops: u8,
    now_ms: u64,
)
    requires
        listed_once(step.node.peers),
    ensures
        ({
            let before = step.node.peers;
            let after = step.touch(id, nickname, rssi, hops, now_ms).node.peers;
            &&& listed_once(after)
            &&& listed_as_heard(after, id, rssi, hops, now_ms)
            &&& forall|i: int|
                0 <= i < before.len() ==> {
                    &&& (#[trigger] before[i]).id != id ==> after[i] == before[i]
                    &&& before[i].id == id ==> {
                        &&& after[i].id == id
                        &&& after[i].last_seen_ms == now_ms
                        &&& after[i].rssi == rssi
                        &&& after[i].hops == hops
                        &&& after[i].nickname == if nickname.len() > 0 {
                            nickname
                        } else {
                            before[i].nickname
                        }
                    }
                }
            &&& listed(before, id) ==> after.len() == before.len()
            &&& !listed(before, id) ==> {
                &&& after.len() == before.len() + 1
                &&& after.last().id == id
                &&& after.last().nickname == nickname
            }
        }),
{
    let before = step.node.peers;
    let after = step.touch(id, nickname, rssi, hops, now_ms).node.peers;
    lemma_touched_table(step, id, nickname, rssi, hops, now_ms);
    match protocol::peer_at(before, id) {
        Some(at) => {
            assert(before[at].id == id);
            assert(after[at].id == id);
        },
        None => {
            assert(after[before.len() as int].id == id);
        },
    }
}

/// A peer is announced when it is first heard, with what was heard of it, and at no
/// other time.
pub proof fn law_discovery_is_announced_once(
    step: Step,
    id: PeerId,
    nickname: Seq<char>,
    rssi: i8,
    hops: u8,
    now_ms: u64,
)
    ensures
        ({
            let after = step.touch(id, nickname, rssi, hops, now_ms);
            let n = step.out.len() as int;
            &&& listed(step.node.peers, id) ==> after.out == step.out
            &&& !listed(step.node.peers, id) ==> {
                &&& after.out.len() > n
                &&& after.out[n] == ActionModel::Emit(
                    EventModel {
                        seq: step.node.seq,
                        ts_ms: now_ms,
                        kind: EventKindModel::PeerDiscovered { peer: id, nickname, rssi, hops },
                    },
                )
                &&& forall|i: int|
                    n < i < after.out.len() ==> match #[trigger] after.out[i] {
                        ActionModel::Emit(event) => event.kind is MessageExpired,
                        ActionModel::Direct { .. } => true,
                        ActionModel::Flood { .. } => true,
                        _ => false,
                    }
            }
        }),
{
    if protocol::peer_at(step.node.peers, id) is None {
        let announced = Step {
            node: NodeModel {
                peers: step.node.peers.push(
                    PeerModel { id, nickname, rssi, last_seen_ms: now_ms, hops },
                ),
                ..step.node
            },
            out: step.out,
        }.emit(now_ms, EventKindModel::PeerDiscovered { peer: id, nickname, rssi, hops });
        let handed = announced.hand_over(id);
        let woken = Step {
            node: NodeModel {
                outbox: outbox::after_wake(handed.node.outbox, id, now_ms),
                ..handed.node
            },
            out: handed.out,
        };
        protocol::lemma_flush(woken, now_ms);
        lemma_flush_tells_of_expiry(woken, now_ms);
    }
}

proof fn lemma_flush_tells_of_expiry(step: Step, now_ms: u64)
    ensures
        forall|i: int|
            step.out.len() <= i < step.flush(now_ms).out.len() ==> match #[trigger] step.flush(
                now_ms,
            ).out[i] {
                ActionModel::Emit(event) => event.kind is MessageExpired,
                ActionModel::Direct { .. } => true,
                ActionModel::Flood { .. } => true,
                _ => false,
            },
{
    let taken = Step {
        node: NodeModel { outbox: outbox::after_due(step.node.outbox, now_ms), ..step.node },
        out: step.out,
    };
    lemma_settle_tells_of_expiry(taken, outbox::all_due(step.node.outbox, now_ms), now_ms);
}

proof fn lemma_settle_tells_of_expiry(step: Step, items: Seq<outbox::DueModel>, now_ms: u64)
    ensures
        forall|i: int|
            step.out.len() <= i < step.settle(items, now_ms).out.len() ==> match #[trigger] step.settle(
                items,
                now_ms,
            ).out[i] {
                ActionModel::Emit(event) => event.kind is MessageExpired,
                ActionModel::Direct { .. } => true,
                ActionModel::Flood { .. } => true,
                _ => false,
            },
    decreases items.len(),
{
    if items.len() > 0 {
        let before = step.settle(items.drop_last(), now_ms);
        lemma_settle_tells_of_expiry(step, items.drop_last(), now_ms);
        protocol::lemma_settle(step, items.drop_last(), now_ms);
        let after = step.settle(items, now_ms);
        assert forall|i: int| step.out.len() <= i < after.out.len() implies match #[trigger] after.out[i] {
            ActionModel::Emit(event) => event.kind is MessageExpired,
            ActionModel::Direct { .. } => true,
            ActionModel::Flood { .. } => true,
            _ => false,
        } by {
            if i < before.out.len() {
                assert(after.out[i] == before.out[i]);
            }
        }
    }
}

/// Accepting a frame does to the table what hearing its sender does.
proof fn lemma_accepted_table(
    step: Step,
    f: FrameModel,
    body: Seq<u8>,
    rssi: i8,
    now_ms: u64,
    draw: Draw,
)
    requires
        step.node.verdict(bytes::array_32(f.sender), f.epoch, f.counter) == ReplayVerdict::Fresh,
    ensures
        step.accept(f, body, rssi, now_ms, draw).0.node.peers == (Step {
            node: step.node.judging(bytes::array_32(f.sender), f.epoch, f.counter),
            out: step.out,
        }).touch(bytes::array_32(f.sender), f.nickname, rssi, f.hops, now_ms).node.peers,
{
    let sender = bytes::array_32(f.sender);
    let judged = Step { node: step.node.judging(sender, f.epoch, f.counter), out: step.out };
    let heard = judged.touch(sender, f.nickname, rssi, f.hops, now_ms);
    if let Some((generation, public)) = prekey::advertised(sender@, body) {
        let known = Step {
            node: NodeModel {
                peer_prekeys: heard.node.peer_prekeys.insert(
                    sender,
                    PeerPrekey { generation, public: bytes::array_32(public) },
                ),
                ..heard.node
            },
            out: heard.out,
        };
        protocol::lemma_share_chain(known, sender, now_ms, draw);
        protocol::lemma_share_chain(heard, sender, now_ms, draw);
    }
}

/// A frame that is new, opens and is no replay keeps its sender in sight: whether the
/// sender was listed or not, it now is, as seen at this moment, with the strength and
/// the hops of the frame.
pub proof fn law_frame_keeps_its_sender_in_sight(
    step: Step,
    rssi: i8,
    data: Seq<u8>,
    now_ms: u64,
    draw: Draw,
)
    requires
        listed_once(step.node.peers),
        frame::parsed(data) is Ok,
        ({
            let f = frame::parsed(data)->Ok_0;
            &&& !step.node.seen.contains(bytes::array_16(f.msg_id))
            &&& f.sender != step.node.id@
            &&& f.recipient == step.node.id@ || f.is_broadcast()
            &&& step.node.unsealed(f) is Ok
            &&& step.node.verdict(bytes::array_32(f.sender), f.epoch, f.counter)
                == ReplayVerdict::Fresh
        }),
    ensures
        ({
            let f = frame::parsed(data)->Ok_0;
            let after = step.ingest(rssi, data, now_ms, draw).0.node.peers;
            &&& listed_once(after)
            &&& listed_as_heard(after, bytes::array_32(f.sender), rssi, f.hops, now_ms)
            &&& forall|i: int|
                0 <= i < step.node.peers.len() && (#[trigger] step.node.peers[i]).id@ != f.sender
                    ==> after[i] == step.node.peers[i]
        }),
{
    let f = frame::parsed(data)->Ok_0;
    let sender = bytes::array_32(f.sender);
    let fresh = Step { node: step.node.remembering(bytes::array_16(f.msg_id)), out: step.out };
    assert(fresh.node.unsealed(f) == step.node.unsealed(f));
    let body = fresh.node.unsealed(f)->Ok_0;
    let opened = Step { node: fresh.node.after_unseal(f), out: fresh.out };
    let judged = Step {
        node: opened.node.judging(sender, f.epoch, f.counter),
        out: opened.out,
    };
    lemma_accepted_table(opened, f, body, rssi, now_ms, draw);
    law_hearing_refreshes_the_peer(judged, sender, f.nickname, rssi, f.hops, now_ms);
    bytes::lemma_array_32_holds(f.sender);
}

// ---------------------------------------------------------------------------
// Losing
// ---------------------------------------------------------------------------

/// The peer's loss is announced.
pub open spec fn announces_loss(action: ActionModel, id: PeerId) -> bool {
    action matches ActionModel::Emit(event) && event.kind == (EventKindModel::PeerLost { peer: id })
}

proof fn lemma_announcements(step: Step, gone: Seq<PeerModel>, now_ms: u64)
    ensures
        ({
            let after = step.announce_lost(gone, now_ms);
            let n = step.out.len() as int;
            &&& after.out.len() == n + gone.len()
            &&& forall|i: int| 0 <= i < n ==> #[trigger] after.out[i] == step.out[i]
            &&& forall|k: int|
                #![trigger gone[k]]
                0 <= k < gone.len() ==> announces_loss(after.out[n + k], gone[k].id)
        }),
    decreases gone.len(),
{
    if gone.len() > 0 {
        let rest = gone.drop_last();
        lemma_announcements(step, rest, now_ms);
        let n = step.out.len() as int;
        let after = step.announce_lost(gone, now_ms);
        assert forall|k: int| 0 <= k < gone.len() implies announces_loss(
            #[trigger] after.out[n + k],
            gone[k].id,
        ) by {
            if k < rest.len() {
                assert(rest[k] == gone[k]);
            }
        }
    }
}

/// A peer that has been silent for thirty seconds is lost at the next tick, and its
/// loss announced; one that was heard since is kept as it is, and nothing is said of
/// it. That is so whether the node is running or not. Nobody appears by a tick.
pub proof fn law_silence_loses_a_peer(node: NodeModel, now_ms: u64, draw: TickDraw, at: int)
    requires
        listed_once(node.peers),
        0 <= at < node.peers.len(),
    ensures
        ({
            let peer = node.peers[at];
            let after = protocol::idle(node).tick(now_ms, draw);
            let silent = now_ms - peer.last_seen_ms >= 30_000;
            &&& listed_once(after.node.peers)
            &&& silent ==> {
                &&& !listed(after.node.peers, peer.id)
                &&& exists|k: int|
                    0 <= k < after.out.len() && announces_loss(#[trigger] after.out[k], peer.id)
            }
            &&& !silent ==> {
                &&& after.node.peers.contains(peer)
                &&& forall|k: int|
                    0 <= k < after.out.len() ==> !announces_loss(
                        #[trigger] after.out[k],
                        peer.id,
                    )
            }
            &&& forall|j: int|
                0 <= j < after.node.peers.len() ==> node.peers.contains(
                    #[trigger] after.node.peers[j],
                )
        }),
{
    let step = protocol::idle(node);
    let peer = node.peers[at];
    let gone = |p: PeerModel| p.gone(now_ms);
    let stays = |p: PeerModel| !p.gone(now_ms);
    let lost = node.peers.filter(gone);
    let kept = node.peers.filter(stays);
    let left = Step { node: NodeModel { peers: kept, ..node }, out: step.out };
    let swept = events::tick_swept(step, now_ms);
    let after = step.tick(now_ms, draw);
    protocol::lemma_announce_lost(left, lost, now_ms);
    lemma_announcements(left, lost, now_ms);
    events::lemma_tick(step, now_ms, draw);
    events::lemma_tick_leaves(step, now_ms, draw);
    assert(after.node.peers == kept);
    assert forall|i: int, j: int| 0 <= i < j < kept.len() implies (#[trigger] kept[i]).id != (
    #[trigger] kept[j]).id by {
        seqs::lemma_filter_order(node.peers, stays, i, j);
    }
    assert forall|j: int| 0 <= j < kept.len() implies node.peers.contains(#[trigger] kept[j])
        && stays(kept[j]) by {
        seqs::lemma_filter_members(node.peers, stays, j);
    }
    if gone(peer) {
        seqs::lemma_filter_keeps(node.peers, gone, at);
        let k = choose|k: int| 0 <= k < lost.len() && #[trigger] lost[k] == peer;
        assert(announces_loss(swept.out[k], peer.id));
        assert(after.out[k] == swept.out[k]);
        if listed(kept, peer.id) {
            let j = choose|j: int| 0 <= j < kept.len() && (#[trigger] kept[j]).id == peer.id;
            let i = choose|i: int| 0 <= i < node.peers.len() && node.peers[i] == kept[j];
            assert(node.peers[i].id == node.peers[at].id);
        }
    } else {
        seqs::lemma_filter_keeps(node.peers, stays, at);
        assert forall|k: int| 0 <= k < after.out.len() implies !announces_loss(
            #[trigger] after.out[k],
            peer.id,
        ) by {
            if k < lost.len() {
                assert(after.out[k] == swept.out[k]);
                assert(announces_loss(swept.out[k], lost[k].id));
                seqs::lemma_filter_members(node.peers, gone, k);
                let i = choose|i: int| 0 <= i < node.peers.len() && node.peers[i] == lost[k];
                if lost[k].id == peer.id {
                    assert(node.peers[i].id == node.peers[at].id);
                }
            } else {
                assert(events::routine(after.out[k]));
            }
        }
    }
}

/// A peer that is heard is not lost for thirty seconds, however many ticks come, and
/// whatever else: from the moment that a frame of it was accepted, a tick before that
/// time is up keeps it in the table.
pub proof fn law_heard_peer_is_not_lost(
    node: NodeModel,
    id: PeerId,
    rssi: i8,
    hops: u8,
    heard_ms: u64,
    now_ms: u64,
    draw: TickDraw,
)
    requires
        listed_once(node.peers),
        listed_as_heard(node.peers, id, rssi, hops, heard_ms),
        now_ms < heard_ms + 30_000,
    ensures
        listed_as_heard(
            protocol::idle(node).tick(now_ms, draw).node.peers,
            id,
            rssi,
            hops,
            heard_ms,
        ),
{
    let at = choose|i: int|
        0 <= i < node.peers.len() && (#[trigger] node.peers[i]).id == id
            && node.peers[i].last_seen_ms == heard_ms && node.peers[i].rssi == rssi
            && node.peers[i].hops == hops;
    law_silence_loses_a_peer(node, now_ms, draw, at);
    let after = protocol::idle(node).tick(now_ms, draw).node.peers;
    let j = choose|j: int| 0 <= j < after.len() && after[j] == node.peers[at];
    assert(after[j].id == id);
}

/// A peer is looked up by its id: it is found where it is listed, and only there.
pub proof fn law_peer_is_found_by_its_id(peers: Seq<PeerModel>, id: PeerId)
    ensures
        protocol::peer_at(peers, id) is Some == listed(peers, id),
        protocol::peer_at(peers, id) matches Some(at) ==> 0 <= at < peers.len() && peers[at].id
            == id,
{
}

} // verus!
