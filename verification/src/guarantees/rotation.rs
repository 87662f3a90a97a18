//! Keys that are replaced, and who is handed what replaces them.
use vstd::prelude::*;

use super::events;
use super::peers;
use crate::bytes;
use crate::crypto;
use crate::crypto::PeerId;
use crate::error::CoreError;
use crate::event::{EventKindModel, EventModel};
use crate::frame;
use crate::frame::FrameKind;
use crate::outbox::Traffic;
use crate::peer::PeerModel;
use crate::prekey;
use crate::prekey::PeerPrekey;
use crate::protocol;
use crate::protocol::{ActionModel, Draw, NodeModel, Step, TickDraw};
use crate::senderkey::ChainModel;

verus! {

/// The node can hand its chain to the peer: it holds a prekey of the peer that a key
/// can be agreed with, and there is randomness to do it with.
pub open spec fn can_hand_chain(node: NodeModel, peer: PeerId, draw: Draw) -> bool {
    &&& peer != crypto::BROADCAST_ID
    &&& node.peer_prekeys.contains_key(peer)
    &&& draw.msg_id is Some
    &&& draw.ephemeral is Some
    &&& draw.nonce is Some
    &&& crypto::fs_seal_key(
        node.seed,
        node.id@,
        draw.ephemeral->Some_0,
        peer@,
        node.peer_prekeys[peer].public@,
        node.peer_prekeys[peer].generation,
    ) is Ok
}

/// The sender-key frame for the peer that carries the chain, as the node seals it with
/// its counter at `counter`.
pub open spec fn chain_frame(
    node: NodeModel,
    counter: u64,
    peer: PeerId,
    chain: ChainModel,
    draw: Draw,
) -> Result<Seq<u8>, CoreError> {
    (NodeModel { counter, ..node }).sealed(
        peer,
        draw.msg_id->Some_0,
        bytes::le_bytes(chain.chain_id as nat, 4) + bytes::le_bytes(chain.index as nat, 4)
            + chain.key,
        FrameKind::SenderKey,
        draw,
    )
}

/// The action sends the peer, and the peer alone, a sender-key frame that carries the
/// chain, sealed by the node, whatever its counter stood at.
pub open spec fn hands_chain(
    action: ActionModel,
    node: NodeModel,
    peer: PeerId,
    chain: ChainModel,
    draw: Draw,
) -> bool {
    exists|counter: u64|
        #[trigger] chain_frame(node, counter, peer, chain, draw) is Ok && action
            == (ActionModel::Direct {
            peer,
            wire: chain_frame(node, counter, peer, chain, draw)->Ok_0,
        })
}

/// Two nodes that agree on who they are, on their session and on the prekeys they hold
/// seal alike for one peer.
proof fn lemma_seals_alike(
    a: NodeModel,
    b: NodeModel,
    peer: PeerId,
    msg_id: [u8; 16],
    body: Seq<u8>,
    kind: FrameKind,
    draw: Draw,
)
    requires
        peer != crypto::BROADCAST_ID,
        a.seed == b.seed,
        a.id == b.id,
        a.epoch == b.epoch,
        a.counter == b.counter,
        a.ttl == b.ttl,
        a.peer_prekeys == b.peer_prekeys,
    ensures
        a.sealed(peer, msg_id, body, kind, draw) == b.sealed(peer, msg_id, body, kind, draw),
{
}

proof fn lemma_share_one(step: Step, peer: PeerId, now_ms: u64, draw: Draw)
    requires
        can_hand_chain(step.node, peer, draw),
        step.node.chain.key.len() == 32,
    ensures
        ({
            let (after, result) = step.share_chain(peer, now_ms, draw);
            &&& result is Ok
            &&& after.node.shared_with.contains(peer)
            &&& after.out.len() > step.out.len()
            &&& hands_chain(
                after.out[step.out.len() as int],
                step.node,
                peer,
                step.node.chain,
                draw,
            )
        }),
{
    let (after, result) = step.share_chain(peer, now_ms, draw);
    let msg_id = draw.msg_id->Some_0;
    let body = step.node.chain.encoded();
    bytes::lemma_le_bytes_len(step.node.chain.chain_id as nat, 4);
    bytes::lemma_le_bytes_len(step.node.chain.index as nat, 4);
    assert(frame::MAX_BODY == 324);
    assert(step.node.sealed(peer, msg_id, body, FrameKind::SenderKey, draw) is Ok);
    let known = step.node.shared_with;
    if !known.contains(peer) {
        assert(after.node.shared_with.last() == peer);
    }
    let same = NodeModel { counter: step.node.counter, ..step.node };
    assert(same == step.node);
    assert(chain_frame(step.node, step.node.counter, peer, step.node.chain, draw) is Ok);
}

/// Whoever holds the chain keeps it while it is handed to others.
proof fn lemma_share_keeps_holders(step: Step, peer: PeerId, now_ms: u64, draw: Draw, held: PeerId)
    requires
        step.node.shared_with.contains(held),
    ensures
        step.share_chain(peer, now_ms, draw).0.node.shared_with.contains(held),
{
    let before = step.node.shared_with;
    let after = step.share_chain(peer, now_ms, draw).0.node.shared_with;
    let i = choose|i: int| 0 <= i < before.len() && before[i] == held;
    assert(after[i] == held);
}

proof fn lemma_share_all_reaches(
    step: Step,
    peers: Seq<PeerModel>,
    draws: Seq<Draw>,
    now_ms: u64,
    at: int,
)
    requires
        0 <= at < peers.len(),
        at < draws.len(),
        can_hand_chain(step.node, peers[at].id, draws[at]),
        step.node.chain.key.len() == 32,
    ensures
        ({
            let after = step.share_with_all(peers, draws, now_ms);
            &&& after.node.shared_with.contains(peers[at].id)
            &&& exists|k: int|
                step.out.len() <= k < after.out.len() && hands_chain(
                    #[trigger] after.out[k],
                    step.node,
                    peers[at].id,
                    step.node.chain,
                    draws[at],
                )
        }),
    decreases peers.len(),
{
    let rest = peers.drop_last();
    let before = step.share_with_all(rest, draws, now_ms);
    let draw = protocol::nth_draw(draws, peers.len() - 1);
    let peer = peers.last().id;
    let (shared, result) = before.share_chain(peer, now_ms, draw);
    let after = step.share_with_all(peers, draws, now_ms);
    events::lemma_share_all_leaves(step, rest, draws, now_ms);
    events::lemma_orderly_share_all(step, rest, draws, now_ms);
    events::lemma_orderly_share(before, peer, now_ms, draw);
    if at == peers.len() - 1 {
        lemma_share_one(before, peer, now_ms, draw);
        let k = before.out.len() as int;
        let chain = step.node.chain;
        let body = bytes::le_bytes(chain.chain_id as nat, 4) + bytes::le_bytes(
            chain.index as nat,
            4,
        ) + chain.key;
        let msg_id = draw.msg_id->Some_0;
        let counter = choose|counter: u64|
            #[trigger] chain_frame(before.node, counter, peer, chain, draw) is Ok && shared.out[k]
                == (ActionModel::Direct {
                peer,
                wire: chain_frame(before.node, counter, peer, chain, draw)->Ok_0,
            });
        lemma_seals_alike(
            NodeModel { counter, ..before.node },
            NodeModel { counter, ..step.node },
            peer,
            msg_id,
            body,
            FrameKind::SenderKey,
            draw,
        );
        assert(after.out[k] == shared.out[k]);
        assert(chain_frame(step.node, counter, peer, chain, draw) is Ok);
        assert(hands_chain(after.out[k], step.node, peer, chain, draw));
    } else {
        assert(rest[at] == peers[at]);
        lemma_share_all_reaches(step, rest, draws, now_ms, at);
        lemma_share_keeps_holders(before, peer, now_ms, draw, peers[at].id);
        let k = choose|k: int|
            step.out.len() <= k < before.out.len() && hands_chain(
                #[trigger] before.out[k],
                step.node,
                peers[at].id,
                step.node.chain,
                draws[at],
            );
        assert(after.out[k] == before.out[k]);
    }
}

/// Replacing the chain reaches everyone: each listed peer that can be handed the fresh
/// chain is, in a frame of its own, sealed forward-secret for that peer and carrying
/// the chain at its start, and from then on counts as holding it.
pub proof fn law_rotation_reaches_every_peer(
    step: Step,
    chain: (u32, Seq<u8>),
    draws: Seq<Draw>,
    now_ms: u64,
    at: int,
)
    requires
        0 <= at < step.node.peers.len(),
        at < draws.len(),
        chain.1.len() == 32,
        can_hand_chain(step.node, step.node.peers[at].id, draws[at]),
    ensures
        ({
            let after = step.replace_chain(chain, draws, now_ms);
            let peer = step.node.peers[at].id;
            let fresh = ChainModel { chain_id: chain.0, index: 0, key: chain.1 };
            &&& after.node.chain == fresh
            &&& after.node.shared_with.contains(peer)
            &&& exists|k: int|
                step.out.len() <= k < after.out.len() && hands_chain(
                    #[trigger] after.out[k],
                    step.node,
                    peer,
                    fresh,
                    draws[at],
                )
        }),
{
    let fresh = ChainModel { chain_id: chain.0, index: 0, key: chain.1 };
    let replaced = Step {
        node: NodeModel {
            chain: fresh,
            shared_with: Seq::empty(),
            chain_since_ms: now_ms,
            ..step.node
        },
        out: step.out,
    };
    let peer = step.node.peers[at].id;
    let after = step.replace_chain(chain, draws, now_ms);
    events::lemma_share_all_leaves(replaced, step.node.peers, draws, now_ms);
    lemma_share_all_reaches(replaced, step.node.peers, draws, now_ms, at);
    let k = choose|k: int|
        step.out.len() <= k < after.out.len() && hands_chain(
            #[trigger] after.out[k],
            replaced.node,
            peer,
            fresh,
            draws[at],
        );
    lemma_hands_chain_alike(after.out[k], replaced.node, step.node, peer, fresh, draws[at]);
}

/// Who holds the chain, and since when, has no part in how it is handed over.
proof fn lemma_hands_chain_alike(
    action: ActionModel,
    a: NodeModel,
    b: NodeModel,
    peer: PeerId,
    chain: ChainModel,
    draw: Draw,
)
    requires
        peer != crypto::BROADCAST_ID,
        a.seed == b.seed,
        a.id == b.id,
        a.epoch == b.epoch,
        a.ttl == b.ttl,
        a.peer_prekeys == b.peer_prekeys,
        hands_chain(action, a, peer, chain, draw),
    ensures
        hands_chain(action, b, peer, chain, draw),
{
    let body = bytes::le_bytes(chain.chain_id as nat, 4) + bytes::le_bytes(chain.index as nat, 4)
        + chain.key;
    let msg_id = draw.msg_id->Some_0;
    let counter = choose|counter: u64|
        #[trigger] chain_frame(a, counter, peer, chain, draw) is Ok && action
            == (ActionModel::Direct {
            peer,
            wire: chain_frame(a, counter, peer, chain, draw)->Ok_0,
        });
    lemma_seals_alike(
        NodeModel { counter, ..a },
        NodeModel { counter, ..b },
        peer,
        msg_id,
        body,
        FrameKind::SenderKey,
        draw,
    );
    assert(chain_frame(b, counter, peer, chain, draw) is Ok);
}

/// The frames that go out are directed, each to a peer of the list.
proof fn lemma_share_all_stays_in_list(
    step: Step,
    peers: Seq<PeerModel>,
    draws: Seq<Draw>,
    now_ms: u64,
    k: int,
)
    requires
        step.out.len() <= k < step.share_with_all(peers, draws, now_ms).out.len(),
    ensures
        match step.share_with_all(peers, draws, now_ms).out[k] {
            ActionModel::Direct { peer, .. } => peers::listed(peers, peer),
            ActionModel::Emit(_) => true,
            _ => false,
        },
    decreases peers.len(),
{
    if peers.len() > 0 {
        let rest = peers.drop_last();
        let before = step.share_with_all(rest, draws, now_ms);
        let draw = protocol::nth_draw(draws, peers.len() - 1);
        let after = step.share_with_all(peers, draws, now_ms);
        let shared = before.share_chain(peers.last().id, now_ms, draw).0;
        events::lemma_orderly_share(before, peers.last().id, now_ms, draw);
        if k < before.out.len() {
            lemma_share_all_stays_in_list(step, rest, draws, now_ms, k);
            assert(after.out[k] == before.out[k]);
            if let ActionModel::Direct { peer, .. } = after.out[k] {
                let i = choose|i: int| 0 <= i < rest.len() && (#[trigger] rest[i]).id == peer;
                assert(peers[i].id == peer);
            }
        } else if k < shared.out.len() {
            super::law_chain_key_is_never_broadcast(before, peers.last().id, now_ms, draw, k);
            assert(after.out[k] == shared.out[k]);
            assert(peers[peers.len() - 1].id == peers.last().id);
        }
    }
}

/// Each of the frames is to another peer.
proof fn lemma_share_all_once_each(
    step: Step,
    peers: Seq<PeerModel>,
    draws: Seq<Draw>,
    now_ms: u64,
    k: int,
    l: int,
)
    requires
        peers::listed_once(peers),
        step.out.len() <= k < l < step.share_with_all(peers, draws, now_ms).out.len(),
        step.share_with_all(peers, draws, now_ms).out[k] is Direct,
        step.share_with_all(peers, draws, now_ms).out[l] is Direct,
    ensures
        step.share_with_all(peers, draws, now_ms).out[k]->peer != step.share_with_all(
            peers,
            draws,
            now_ms,
        ).out[l]->peer,
    decreases peers.len(),
{
    if peers.len() > 0 {
        let rest = peers.drop_last();
        let before = step.share_with_all(rest, draws, now_ms);
        let draw = protocol::nth_draw(draws, peers.len() - 1);
        let peer = peers.last().id;
        let after = step.share_with_all(peers, draws, now_ms);
        let shared = before.share_chain(peer, now_ms, draw).0;
        events::lemma_orderly_share(before, peer, now_ms, draw);
        assert(peers::listed_once(rest)) by {
            assert forall|i: int, j: int| 0 <= i < j < rest.len() implies (
            #[trigger] rest[i]).id != (#[trigger] rest[j]).id by {
                assert(rest[i] == peers[i] && rest[j] == peers[j]);
            }
        }
        if l < before.out.len() {
            assert(after.out[k] == before.out[k] && after.out[l] == before.out[l]);
            lemma_share_all_once_each(step, rest, draws, now_ms, k, l);
        } else {
            lemma_share_adds_one_frame(before, peer, now_ms, draw);
            assert(l == before.out.len());
            assert(after.out[l] == shared.out[l]);
            assert(after.out[k] == before.out[k]);
            lemma_share_all_stays_in_list(step, rest, draws, now_ms, k);
            let i = choose|i: int|
                0 <= i < rest.len() && (#[trigger] rest[i]).id == after.out[k]->peer;
            assert(rest[i] == peers[i]);
            assert(peers[i].id != peers[peers.len() - 1].id);
        }
    }
}

/// Handing the chain over takes one frame at most, to the peer.
proof fn lemma_share_adds_one_frame(step: Step, peer: PeerId, now_ms: u64, draw: Draw)
    ensures
        ({
            let after = step.share_chain(peer, now_ms, draw).0;
            forall|k: int|
                step.out.len() <= k < after.out.len() ==> if k == step.out.len() {
                    #[trigger] after.out[k] matches ActionModel::Direct { peer: to, .. } && to
                        == peer
                } else {
                    after.out[k] is Emit
                }
        }),
{
}

/// Replacing the chain floods nothing: each frame that it puts out goes to one listed
/// peer.
pub proof fn law_rotation_is_directed(
    step: Step,
    chain: (u32, Seq<u8>),
    draws: Seq<Draw>,
    now_ms: u64,
    k: int,
)
    requires
        step.out.len() <= k < step.replace_chain(chain, draws, now_ms).out.len(),
    ensures
        match step.replace_chain(chain, draws, now_ms).out[k] {
            ActionModel::Direct { peer, .. } => peers::listed(step.node.peers, peer),
            ActionModel::Emit(_) => true,
            _ => false,
        },
{
    let replaced = Step {
        node: NodeModel {
            chain: ChainModel { chain_id: chain.0, index: 0, key: chain.1 },
            shared_with: Seq::empty(),
            chain_since_ms: now_ms,
            ..step.node
        },
        out: step.out,
    };
    lemma_share_all_stays_in_list(replaced, step.node.peers, draws, now_ms, k);
}

/// One frame per peer: no two of the frames that replacing the chain puts out go to
/// the same peer.
pub proof fn law_rotation_takes_one_frame_per_peer(
    step: Step,
    chain: (u32, Seq<u8>),
    draws: Seq<Draw>,
    now_ms: u64,
    k: int,
    l: int,
)
    requires
        peers::listed_once(step.node.peers),
        step.out.len() <= k < l < step.replace_chain(chain, draws, now_ms).out.len(),
        step.replace_chain(chain, draws, now_ms).out[k] is Direct,
        step.replace_chain(chain, draws, now_ms).out[l] is Direct,
    ensures
        step.replace_chain(chain, draws, now_ms).out[k]->peer != step.replace_chain(
            chain,
            draws,
            now_ms,
        ).out[l]->peer,
{
    let replaced = Step {
        node: NodeModel {
            chain: ChainModel { chain_id: chain.0, index: 0, key: chain.1 },
            shared_with: Seq::empty(),
            chain_since_ms: now_ms,
            ..step.node
        },
        out: step.out,
    };
    lemma_share_all_once_each(replaced, step.node.peers, draws, now_ms, k, l);
}

// ---------------------------------------------------------------------------
// In the tick
// ---------------------------------------------------------------------------

/// The chain is replaced in the tick that its time is up, and not before. Where there
/// is no randomness to replace it with, it stays, and the failure is reported.
pub proof fn law_chain_is_replaced_when_its_time_is_up(
    node: NodeModel,
    now_ms: u64,
    draw: TickDraw,
)
    requires
        node.running,
    ensures
        ({
            let after = protocol::idle(node).tick(now_ms, draw);
            let due = now_ms - node.chain_since_ms >= node.chain_rotate_ms;
            &&& due && draw.chain is Some ==> {
                &&& after.node.chain == (ChainModel {
                    chain_id: draw.chain->Some_0.0,
                    index: 0,
                    key: draw.chain->Some_0.1,
                })
                &&& after.node.chain_since_ms == now_ms
            }
            &&& !due || draw.chain is None ==> {
                &&& after.node.chain == node.chain
                &&& after.node.chain_since_ms == node.chain_since_ms
                &&& after.node.shared_with == node.shared_with
            }
            &&& due && draw.chain is None ==> after.out.last() == ActionModel::Emit(
                EventModel {
                    seq: after.out.last()->Emit_0.seq,
                    ts_ms: now_ms,
                    kind: EventKindModel::Error {
                        message: "crypto failure: "@ + "getrandom failed"@,
                    },
                },
            )
        }),
{
    let step = protocol::idle(node);
    let swept = events::tick_swept(step, now_ms);
    let announced = events::tick_announced(swept, now_ms, draw);
    protocol::lemma_expire_peers(step, now_ms);
    protocol::lemma_flush(swept, now_ms);
    events::lemma_tick(step, now_ms, draw);
    if let Some(chain) = draw.chain {
        let replaced = Step {
            node: NodeModel {
                chain: ChainModel { chain_id: chain.0, index: 0, key: chain.1 },
                shared_with: Seq::empty(),
                chain_since_ms: now_ms,
                ..announced.node
            },
            out: announced.out,
        };
        events::lemma_share_all_leaves(replaced, announced.node.peers, draw.shares, now_ms);
    }
}

/// The tick that replaces the chain hands it to everyone in sight: no broadcast can
/// come between the two.
pub proof fn law_tick_hands_the_fresh_chain_to_every_peer(
    node: NodeModel,
    now_ms: u64,
    draw: TickDraw,
    at: int,
)
    requires
        node.running,
        now_ms - node.chain_since_ms >= node.chain_rotate_ms,
        draw.chain matches Some(chain) && chain.1.len() == 32,
        0 <= at < protocol::idle(node).tick(now_ms, draw).node.peers.len(),
        at < draw.shares.len(),
        can_hand_chain(
            node,
            protocol::idle(node).tick(now_ms, draw).node.peers[at].id,
            draw.shares[at],
        ),
    ensures
        ({
            let after = protocol::idle(node).tick(now_ms, draw);
            let peer = after.node.peers[at].id;
            let chain = draw.chain->Some_0;
            &&& after.node.shared_with.contains(peer)
            &&& exists|k: int|
                0 <= k < after.out.len() && hands_chain(
                    #[trigger] after.out[k],
                    node,
                    peer,
                    ChainModel { chain_id: chain.0, index: 0, key: chain.1 },
                    draw.shares[at],
                )
        }),
{
    let step = protocol::idle(node);
    let swept = events::tick_swept(step, now_ms);
    let announced = events::tick_announced(swept, now_ms, draw);
    let after = step.tick(now_ms, draw);
    let chain = draw.chain->Some_0;
    let fresh = ChainModel { chain_id: chain.0, index: 0, key: chain.1 };
    protocol::lemma_expire_peers(step, now_ms);
    protocol::lemma_flush(swept, now_ms);
    events::lemma_tick(step, now_ms, draw);
    events::lemma_tick_leaves(step, now_ms, draw);
    assert(announced.node.peers == after.node.peers);
    let peer = after.node.peers[at].id;
    law_rotation_reaches_every_peer(announced, chain, draw.shares, now_ms, at);
    let k = choose|k: int|
        announced.out.len() <= k < after.out.len() && hands_chain(
            #[trigger] after.out[k],
            announced.node,
            peer,
            fresh,
            draw.shares[at],
        );
    lemma_hands_chain_alike(after.out[k], announced.node, node, peer, fresh, draw.shares[at]);
}

/// A prekey is replaced in the tick that its minute is up, and not before: the secret
/// that was drawn takes its place, under the next generation, and the one it replaces
/// is the first of those that are kept.
pub proof fn law_prekey_is_replaced_when_its_time_is_up(
    node: NodeModel,
    now_ms: u64,
    draw: TickDraw,
)
    requires
        node.running,
        node.prekeys.next_generation < u32::MAX,
    ensures
        ({
            let before = node.prekeys;
            let after = protocol::idle(node).tick(now_ms, draw).node.prekeys;
            let due = now_ms - before.rotated_at_ms >= 60_000;
            &&& due && draw.prekey is Some ==> {
                &&& after.current.secret == draw.prekey->Some_0
                &&& after.current.public == crypto::x25519_public(draw.prekey->Some_0)
                &&& after.current.generation == before.next_generation
                &&& after.next_generation == before.next_generation + 1
                &&& after.rotated_at_ms == now_ms
                &&& after.retired.len() > 0
                &&& after.retired[0] == before.current
                &&& after.retired.len() <= 3
                &&& before.retired.len() < 3 ==> after.retired.len() == before.retired.len() + 1
                &&& forall|i: int|
                    1 <= i < after.retired.len() ==> #[trigger] after.retired[i]
                        == before.retired[i - 1]
            }
            &&& !due || draw.prekey is None ==> after == before
        }),
{
    let step = protocol::idle(node);
    let swept = events::tick_swept(step, now_ms);
    let announced = events::tick_announced(swept, now_ms, draw);
    protocol::lemma_expire_peers(step, now_ms);
    protocol::lemma_flush(swept, now_ms);
    events::lemma_tick(step, now_ms, draw);
    if let Some(chain) = draw.chain {
        let replaced = Step {
            node: NodeModel {
                chain: ChainModel { chain_id: chain.0, index: 0, key: chain.1 },
                shared_with: Seq::empty(),
                chain_since_ms: now_ms,
                ..announced.node
            },
            out: announced.out,
        };
        events::lemma_share_all_leaves(replaced, announced.node.peers, draw.shares, now_ms);
    }
}

// ---------------------------------------------------------------------------
// At a beacon
// ---------------------------------------------------------------------------

/// A beacon with a prekey that we do not hold yet is answered with our chain: it is
/// sent to the peer, sealed for that prekey, queued until it is acked without a word
/// to the user, and the peer counts as holding it.
pub proof fn law_beacon_is_answered_with_the_chain(
    step: Step,
    sender: PeerId,
    body: Seq<u8>,
    now_ms: u64,
    draw: Draw,
    generation: u32,
    public: [u8; 32],
)
    requires
        prekey::advertised(sender@, body) == Some((generation, public@)),
        step.node.peer_prekeys.contains_key(sender) ==> generation
            > step.node.peer_prekeys[sender].generation,
        step.node.chain.key.len() == 32,
        can_hand_chain(
            NodeModel {
                peer_prekeys: step.node.peer_prekeys.insert(
                    sender,
                    PeerPrekey { generation, public },
                ),
                ..step.node
            },
            sender,
            draw,
        ),
    ensures
        ({
            let after = step.accept_beacon(sender, body, now_ms, draw);
            let known = NodeModel {
                peer_prekeys: step.node.peer_prekeys.insert(
                    sender,
                    PeerPrekey { generation, public },
                ),
                ..step.node
            };
            &&& after.node.peer_prekeys == known.peer_prekeys
            &&& after.node.shared_with.contains(sender)
            &&& after.out.len() > step.out.len()
            &&& hands_chain(
                after.out[step.out.len() as int],
                known,
                sender,
                step.node.chain,
                draw,
            )
            &&& after.node.outbox.len() > 0
            &&& after.node.outbox.last().recipient == sender
            &&& after.node.outbox.last().traffic == Traffic::Internal
            &&& after.out[step.out.len() as int] == ActionModel::Direct {
                peer: sender,
                wire: after.node.outbox.last().wire,
            }
        }),
{
    let known = Step {
        node: NodeModel {
            peer_prekeys: step.node.peer_prekeys.insert(
                sender,
                PeerPrekey { generation, public },
            ),
            ..step.node
        },
        out: step.out,
    };
    bytes::lemma_array_32(public);
    lemma_share_one(known, sender, now_ms, draw);
    protocol::lemma_share_chain(known, sender, now_ms, draw);
}

/// Replacing the chain starts the list of its holders anew: whoever counts as holding
/// the fresh chain was sent it in the same step. Where nobody was, the next broadcast
/// goes out under the channel key, so that it can be read.
pub proof fn law_holders_were_sent_the_fresh_chain(
    step: Step,
    chain: (u32, Seq<u8>),
    draws: Seq<Draw>,
    now_ms: u64,
    holder: PeerId,
)
    requires
        step.replace_chain(chain, draws, now_ms).node.shared_with.contains(holder),
    ensures
        exists|k: int|
            step.out.len() <= k < step.replace_chain(chain, draws, now_ms).out.len() && sends_to(
                #[trigger] step.replace_chain(chain, draws, now_ms).out[k],
                holder,
            ),
{
    let replaced = Step {
        node: NodeModel {
            chain: ChainModel { chain_id: chain.0, index: 0, key: chain.1 },
            shared_with: Seq::empty(),
            chain_since_ms: now_ms,
            ..step.node
        },
        out: step.out,
    };
    lemma_new_holders_were_sent_to(replaced, step.node.peers, draws, now_ms, holder);
}

/// The action sends a frame to the peer.
pub open spec fn sends_to(action: ActionModel, to: PeerId) -> bool {
    action matches ActionModel::Direct { peer, .. } && peer == to
}

proof fn lemma_new_holders_were_sent_to(
    step: Step,
    peers: Seq<PeerModel>,
    draws: Seq<Draw>,
    now_ms: u64,
    holder: PeerId,
)
    requires
        !step.node.shared_with.contains(holder),
        step.share_with_all(peers, draws, now_ms).node.shared_with.contains(holder),
    ensures
        exists|k: int|
            step.out.len() <= k < step.share_with_all(peers, draws, now_ms).out.len() && sends_to(
                #[trigger] step.share_with_all(peers, draws, now_ms).out[k],
                holder,
            ),
    decreases peers.len(),
{
    if peers.len() > 0 {
        let rest = peers.drop_last();
        let before = step.share_with_all(rest, draws, now_ms);
        let draw = protocol::nth_draw(draws, peers.len() - 1);
        let peer = peers.last().id;
        let shared = before.share_chain(peer, now_ms, draw).0;
        let after = step.share_with_all(peers, draws, now_ms);
        events::lemma_orderly_share_all(step, rest, draws, now_ms);
        events::lemma_orderly_share(before, peer, now_ms, draw);
        if before.node.shared_with.contains(holder) {
            lemma_new_holders_were_sent_to(step, rest, draws, now_ms, holder);
            let k = choose|k: int|
                step.out.len() <= k < before.out.len() && sends_to(
                    #[trigger] before.out[k],
                    holder,
                );
            assert(after.out[k] == before.out[k]);
        } else {
            let i = choose|i: int|
                0 <= i < shared.node.shared_with.len() && shared.node.shared_with[i] == holder;
            if i < before.node.shared_with.len() {
                assert(before.node.shared_with[i] == holder);
            }
            let k = before.out.len() as int;
            assert(sends_to(shared.out[k], holder));
            assert(after.out[k] == shared.out[k]);
        }
    }
}

/// A beacon that brings nothing new comes to nothing: a prekey that is no later than
/// the one we hold replaces nothing, and a peer that holds our chain is not sent it
/// again for that.
pub proof fn law_known_beacon_comes_to_nothing(
    step: Step,
    sender: PeerId,
    body: Seq<u8>,
    now_ms: u64,
    draw: Draw,
)
    requires
        step.node.peer_prekeys.contains_key(sender),
        prekey::advertised(sender@, body) matches Some((generation, public)) && generation
            <= step.node.peer_prekeys[sender].generation,
    ensures
        step.accept_beacon(sender, body, now_ms, draw).node.peer_prekeys
            == step.node.peer_prekeys,
        step.node.shared_with.contains(sender) ==> step.accept_beacon(
            sender,
            body,
            now_ms,
            draw,
        ) == step,
{
    protocol::lemma_share_chain(step, sender, now_ms, draw);
}

/// A prekey that cannot be replaced for want of randomness is kept, and that is told.
pub proof fn law_failed_prekey_rotation_is_told(step: Step, now_ms: u64)
    requires
        now_ms - step.node.prekeys.rotated_at_ms >= 60_000,
    ensures
        ({
            let after = step.rotate_prekey(None, now_ms);
            &&& after.node.prekeys == step.node.prekeys
            &&& after.out == step.out.push(
                ActionModel::Emit(
                    EventModel {
                        seq: step.node.seq,
                        ts_ms: now_ms,
                        kind: EventKindModel::Error {
                            message: "crypto failure: "@ + "getrandom failed"@,
                        },
                    },
                ),
            )
        }),
{
}

} // verus!
