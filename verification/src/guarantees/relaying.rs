//! What is passed on, what is carried, and what is remembered to have gone by.
use vstd::prelude::*;

use super::events;
use super::peers;
use crate::bytes;
use crate::crypto;
use crate::crypto::PeerId;
use crate::event::EventKindModel;
use crate::frame;
use crate::frame::FrameModel;
use crate::outbox;
use crate::peer::PeerModel;
use crate::protocol;
use crate::protocol::{ActionModel, NodeModel, Step, TickDraw};
use crate::relaycache;
use crate::relaycache::CarriedModel;
use crate::seqs;

verus! {

// ---------------------------------------------------------------------------
// Flooding
// ---------------------------------------------------------------------------

/// What passing a frame on comes to: a frame with more than one hop to live, that is
/// not for us, is flooded once, and its copy has one less to live, one hop more behind
/// it, and is otherwise the same. Any other frame comes to nothing.
pub proof fn law_passing_on_counts_down(step: Step, data: Seq<u8>, now_ms: u64)
    requires
        frame::parsed(data) is Ok,
    ensures
        ({
            let f = frame::parsed(data)->Ok_0;
            let after = step.pass_on(f, data, now_ms);
            let n = step.out.len() as int;
            &&& f.ttl <= 1 || f.recipient == step.node.id@ ==> after == step
            &&& f.ttl > 1 && f.recipient != step.node.id@ ==> {
                &&& after.out.len() == n + 1
                &&& forall|i: int| 0 <= i < n ==> #[trigger] after.out[i] == step.out[i]
                &&& after.out[n] matches ActionModel::Flood { wire }
                &&& frame::parsed(wire) matches Ok(copy)
                &&& copy.ttl == f.ttl - 1
                &&& f.hops < 255 ==> copy.hops == f.hops + 1
                &&& copy == (FrameModel { ttl: copy.ttl, hops: copy.hops, ..f })
            }
        }),
{
    let f = frame::parsed(data)->Ok_0;
    frame::law_relaying_counts(data);
    frame::law_relaying_preserves_the_frame(data);
    bytes::lemma_array_32(step.node.id);
    bytes::lemma_array_32_holds(f.recipient);
}

/// A flood ends: of a frame that sets out with `ttl` hops to live, the copy that has
/// been relayed one time less is passed on by no one. Every copy before that is passed
/// on, by everyone it is not for.
pub proof fn law_flood_ends(step: Step, data: Seq<u8>, times: nat, now_ms: u64)
    requires
        frame::parsed(data) is Ok,
    ensures
        ({
            let f = frame::parsed(data)->Ok_0;
            let copy = frame::relayed_times(data, times);
            let after = step.pass_on(frame::parsed(copy)->Ok_0, copy, now_ms);
            &&& frame::parsed(copy) is Ok
            &&& times + 1 >= f.ttl ==> after == step
            &&& times + 1 < f.ttl && f.recipient != step.node.id@ ==> after.out.len()
                == step.out.len() + 1 && after.out.last() is Flood
        }),
{
    frame::law_flood_runs_out(data, times);
    law_passing_on_counts_down(step, frame::relayed_times(data, times), now_ms);
}

// ---------------------------------------------------------------------------
// Carrying
// ---------------------------------------------------------------------------

/// What is carried is given up in time: after a tick, running or not, nothing is
/// carried that has been for two minutes, and everything younger still is. A tick adds
/// nothing.
pub proof fn law_stale_frames_are_given_up(node: NodeModel, now_ms: u64, draw: TickDraw)
    ensures
        ({
            let before = node.carried;
            let after = protocol::idle(node).tick(now_ms, draw).node.carried;
            &&& forall|i: int|
                0 <= i < after.len() ==> now_ms - (#[trigger] after[i]).cached_at_ms < 120_000
                    && before.contains(after[i])
            &&& forall|i: int|
                0 <= i < before.len() && now_ms - (#[trigger] before[i]).cached_at_ms < 120_000
                    ==> after.contains(before[i])
        }),
{
    let step = protocol::idle(node);
    let fresh = |entry: CarriedModel| !entry.stale(now_ms);
    let before = node.carried;
    let after = step.tick(now_ms, draw).node.carried;
    events::lemma_tick_leaves(step, now_ms, draw);
    protocol::lemma_expire_peers(step, now_ms);
    assert(after == before.filter(fresh));
    assert forall|i: int| 0 <= i < after.len() implies now_ms - (
    #[trigger] after[i]).cached_at_ms < 120_000 && before.contains(after[i]) by {
        seqs::lemma_filter_members(before, fresh, i);
    }
    assert forall|i: int|
        0 <= i < before.len() && now_ms - (#[trigger] before[i]).cached_at_ms
            < 120_000 implies after.contains(before[i]) by {
        seqs::lemma_filter_keeps(before, fresh, i);
    }
}

/// A stale frame is not handed over: what a relay has carried for two minutes by one
/// tick is not among what a peer that appears after it is handed.
pub proof fn law_stale_frame_is_not_handed_over(
    node: NodeModel,
    tick_ms: u64,
    draw: TickDraw,
    at: int,
)
    requires
        relaycache::cache_well_formed(node.carried),
        0 <= at < node.carried.len(),
        tick_ms - node.carried[at].cached_at_ms >= 120_000,
    ensures
        forall|i: int|
            0 <= i < protocol::idle(node).tick(tick_ms, draw).node.carried.len() ==> (
            #[trigger] protocol::idle(node).tick(tick_ms, draw).node.carried[i]).msg_id
                != node.carried[at].msg_id,
{
    law_stale_frames_are_given_up(node, tick_ms, draw);
    let after = protocol::idle(node).tick(tick_ms, draw).node.carried;
    assert forall|i: int| 0 <= i < after.len() implies (#[trigger] after[i]).msg_id
        != node.carried[at].msg_id by {
        let j = choose|j: int| 0 <= j < node.carried.len() && node.carried[j] == after[i];
        assert(node.carried[j] == after[i]);
        if after[i].msg_id == node.carried[at].msg_id {
            assert(node.carried[j].msg_id == node.carried[at].msg_id);
        }
    }
}

/// A frame for a peer out of sight is carried from the moment it is passed on, as it
/// was passed on. What was carried stays, but for the oldest frame of a full cache.
pub proof fn law_frame_for_an_absent_peer_is_carried(step: Step, data: Seq<u8>, now_ms: u64)
    requires
        frame::parsed(data) is Ok,
        ({
            let f = frame::parsed(data)->Ok_0;
            &&& f.ttl > 1
            &&& !f.is_broadcast()
            &&& f.recipient != step.node.id@
            &&& !peers::listed(step.node.peers, bytes::array_32(f.recipient))
            &&& forall|i: int|
                0 <= i < step.node.carried.len() ==> (#[trigger] step.node.carried[i]).msg_id@
                    != f.msg_id
        }),
    ensures
        ({
            let f = frame::parsed(data)->Ok_0;
            let before = step.node.carried;
            let after = step.pass_on(f, data, now_ms);
            let shift: int = if before.len() >= 128 {
                1
            } else {
                0
            };
            let entry = after.node.carried.last();
            &&& after.node.carried.len() == before.len() + 1 - shift
            &&& entry.recipient@ == f.recipient
            &&& entry.msg_id@ == f.msg_id
            &&& entry.cached_at_ms == now_ms
            &&& after.out.last() == ActionModel::Flood { wire: entry.wire }
            &&& forall|i: int|
                0 <= i < after.node.carried.len() - 1 ==> #[trigger] after.node.carried[i]
                    == before[i + shift]
        }),
{
    let f = frame::parsed(data)->Ok_0;
    bytes::lemma_array_32(step.node.id);
    bytes::lemma_array_32_holds(f.recipient);
    bytes::lemma_array_16_holds(f.msg_id);
    assert(!relaycache::carries(step.node.carried, bytes::array_16(f.msg_id)));
}

/// Handing over: a peer that comes into sight is sent every frame carried for it, and
/// none of them is carried any longer. What is carried for others stays. Hearing a
/// peer that is in sight already hands over nothing.
pub proof fn law_mail_is_handed_over_once(
    step: Step,
    id: PeerId,
    nickname: Seq<char>,
    rssi: i8,
    hops: u8,
    now_ms: u64,
)
    requires
        id != crypto::BROADCAST_ID,
    ensures
        ({
            let before = step.node.carried;
            let after = step.touch(id, nickname, rssi, hops, now_ms);
            &&& peers::listed(step.node.peers, id) ==> after.node.carried == before
            &&& !peers::listed(step.node.peers, id) ==> {
                &&& forall|i: int|
                    0 <= i < before.len() && (#[trigger] before[i]).recipient == id
                        ==> after.out.contains(
                        ActionModel::Direct { peer: id, wire: before[i].wire },
                    )
                &&& forall|i: int|
                    0 <= i < before.len() && (#[trigger] before[i]).recipient != id
                        ==> after.node.carried.contains(before[i])
                &&& forall|i: int|
                    0 <= i < after.node.carried.len() ==> (
                    #[trigger] after.node.carried[i]).recipient != id && before.contains(
                        after.node.carried[i],
                    )
            }
        }),
{
    let before = step.node.carried;
    let after = step.touch(id, nickname, rssi, hops, now_ms);
    if protocol::peer_at(step.node.peers, id) is None {
        let others = |entry: CarriedModel| entry.recipient != id;
        assert forall|i: int|
            0 <= i < before.len() && (#[trigger] before[i]).recipient
                == id implies after.out.contains(
            ActionModel::Direct { peer: id, wire: before[i].wire },
        ) by {
            super::law_discovery_hands_over(step, id, nickname, rssi, hops, now_ms, i);
        }
        let handed = Step {
            node: NodeModel {
                peers: step.node.peers.push(
                    PeerModel { id, nickname, rssi, last_seen_ms: now_ms, hops },
                ),
                ..step.node
            },
            out: step.out,
        }.emit(
            now_ms,
            EventKindModel::PeerDiscovered { peer: id, nickname, rssi, hops },
        ).hand_over(id);
        let woken = Step {
            node: NodeModel {
                outbox: outbox::after_wake(handed.node.outbox, id, now_ms),
                ..handed.node
            },
            out: handed.out,
        };
        protocol::lemma_flush(woken, now_ms);
        assert(after.node.carried == before.filter(others));
        assert forall|i: int|
            0 <= i < before.len() && (#[trigger] before[i]).recipient
                != id implies after.node.carried.contains(before[i]) by {
            seqs::lemma_filter_keeps(before, others, i);
        }
        assert forall|i: int| 0 <= i < after.node.carried.len() implies (
        #[trigger] after.node.carried[i]).recipient != id && before.contains(
            after.node.carried[i],
        ) by {
            seqs::lemma_filter_members(before, others, i);
        }
    }
}

// ---------------------------------------------------------------------------
// Remembering
// ---------------------------------------------------------------------------

/// The ids a node remembers once it has come across some more, one after another.
pub open spec fn seen_after(node: NodeModel, more: Seq<[u8; 16]>) -> NodeModel
    decreases more.len(),
{
    if more.len() == 0 {
        node
    } else {
        seen_after(node, more.drop_last()).remembering(more.last())
    }
}

/// A frame that has gone by is remembered for long: its id is still known after four
/// thousand and ninety-five others, and no more ids than that and one are kept.
pub proof fn law_ids_are_remembered_for_long(node: NodeModel, id: [u8; 16], more: Seq<[u8; 16]>)
    requires
        node.seen.len() <= 4096,
        more.len() < 4096,
    ensures
        !node.seen.contains(id) ==> seen_after(node.remembering(id), more).seen.contains(id),
        seen_after(node.remembering(id), more).seen.len() <= 4096,
{
    let first = node.remembering(id);
    if !node.seen.contains(id) {
        assert(first.seen[first.seen.len() - 1] == id);
        lemma_id_stays(first, id, more);
    } else {
        lemma_seen_bound(first, more);
    }
}

proof fn lemma_seen_bound(node: NodeModel, more: Seq<[u8; 16]>)
    requires
        node.seen.len() <= 4096,
    ensures
        seen_after(node, more).seen.len() <= 4096,
    decreases more.len(),
{
    if more.len() > 0 {
        lemma_seen_bound(node, more.drop_last());
    }
}

proof fn lemma_id_stays(node: NodeModel, id: [u8; 16], more: Seq<[u8; 16]>)
    requires
        0 < node.seen.len() <= 4096,
        node.seen.last() == id,
        more.len() < 4096,
    ensures
        ({
            let seen = seen_after(node, more).seen;
            &&& seen.len() <= 4096
            &&& exists|i: int|
                0 <= i < seen.len() && #[trigger] seen[i] == id && seen.len() - 1 - i
                    <= more.len()
        }),
    decreases more.len(),
{
    if more.len() == 0 {
        assert(node.seen[node.seen.len() - 1] == id);
    } else {
        lemma_id_stays(node, id, more.drop_last());
        let before = seen_after(node, more.drop_last()).seen;
        let seen = seen_after(node, more).seen;
        let i = choose|i: int|
            0 <= i < before.len() && #[trigger] before[i] == id && before.len() - 1 - i
                <= more.len() - 1;
        if before.contains(more.last()) {
            assert(seen[i] == id);
        } else if before.len() >= 4096 {
            assert(seen[i - 1] == id);
        } else {
            assert(seen[i] == id);
        }
    }
}

/// Remembering forgets nothing but, where there are too many, the oldest.
pub proof fn law_remembering_forgets_the_oldest(node: NodeModel, id: [u8; 16], at: int)
    requires
        0 <= at < node.seen.len() <= 4096,
        at > 0 || node.seen.len() < 4096 || node.seen.contains(id),
    ensures
        node.remembering(id).seen.contains(id),
        node.remembering(id).seen.contains(node.seen[at]),
{
    let seen = node.remembering(id).seen;
    if node.seen.contains(id) {
    } else if node.seen.len() >= 4096 {
        assert(seen[at - 1] == node.seen[at]);
        assert(seen.last() == id);
    } else {
        assert(seen[at] == node.seen[at]);
        assert(seen.last() == id);
    }
}

} // verus!
