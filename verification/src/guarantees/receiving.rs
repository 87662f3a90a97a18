//! What comes of bytes off the air, by what they are.
use vstd::prelude::*;

use super::lifecycle;
use crate::bytes;
use crate::crypto::PeerId;
use crate::error::CoreError;
use crate::frame;
use crate::frame::{FrameModel, OpeningModel};
use crate::protocol;
use crate::protocol::{Draw, NodeModel, Step};
use crate::replay::ReplayVerdict;
use crate::senderkey;

verus! {

/// Mail that we cannot read is reported, with the reason, and a broadcast that we
/// cannot read is not: the air is full of other people's. Neither is an error of the
/// step.
pub proof fn law_unreadable_mail_is_reported(
    step: Step,
    rssi: i8,
    data: Seq<u8>,
    now_ms: u64,
    draw: Draw,
    error: CoreError,
)
    requires
        frame::parsed(data) is Ok,
        ({
            let f = frame::parsed(data)->Ok_0;
            &&& !step.node.seen.contains(bytes::array_16(f.msg_id))
            &&& f.sender != step.node.id@
            &&& f.recipient == step.node.id@ || f.is_broadcast()
            &&& step.node.unsealed(f) == Err::<Seq<u8>, CoreError>(error)
        }),
    ensures
        ({
            let f = frame::parsed(data)->Ok_0;
            let (after, result) = step.ingest(rssi, data, now_ms, draw);
            let n = step.out.len() as int;
            &&& result is Ok
            &&& !f.is_broadcast() ==> after.out.len() == n + 1 && lifecycle::tells_error(
                after.out[n],
                error,
            )
            &&& f.is_broadcast() ==> forall|i: int|
                n <= i < after.out.len() ==> #[trigger] after.out[i] is Flood
        }),
{
    let f = frame::parsed(data)->Ok_0;
    let fresh = Step { node: step.node.remembering(bytes::array_16(f.msg_id)), out: step.out };
    assert(fresh.node.unsealed(f) == step.node.unsealed(f));
    bytes::lemma_array_32(step.node.id);
    bytes::lemma_array_32_holds(f.recipient);
}

/// A replay is dropped in silence: what opens but was had before, or is too old to
/// tell, reaches neither the inbox, nor the table, nor the queue, nor the application,
/// and draws no answer.
pub proof fn law_replay_is_dropped_in_silence(
    step: Step,
    f: FrameModel,
    body: Seq<u8>,
    rssi: i8,
    now_ms: u64,
    draw: Draw,
)
    requires
        step.node.replay.contains_key(bytes::array_32(f.sender)),
        ({
            let window = step.node.replay[bytes::array_32(f.sender)];
            ||| f.epoch < window.epoch
            ||| f.epoch == window.epoch && f.counter <= window.highest && (window.highest
                - f.counter >= 64 || window.seen.contains(f.counter))
        }),
    ensures
        ({
            let (after, result) = step.accept(f, body, rssi, now_ms, draw);
            &&& result is Ok
            &&& after.out == step.out
            &&& after.node.inbox == step.node.inbox
            &&& after.node.peers == step.node.peers
            &&& after.node.outbox == step.node.outbox
            &&& after.node.peer_prekeys == step.node.peer_prekeys
            &&& after.node.chains == step.node.chains
            &&& after.node.counter == step.node.counter
            &&& after.node.replay =~= step.node.replay
        }),
{
}

/// Each sender is judged by a window of its own. The first frame of a sender is taken
/// and opens it; after that the window decides. Nobody else's is touched.
pub proof fn law_senders_are_judged_apart(
    node: NodeModel,
    sender: PeerId,
    epoch: u64,
    counter: u64,
    other: PeerId,
)
    requires
        other != sender,
    ensures
        !node.replay.contains_key(sender) ==> {
            &&& node.verdict(sender, epoch, counter) == ReplayVerdict::Fresh
            &&& node.judging(sender, epoch, counter).replay[sender].epoch == epoch
            &&& node.judging(sender, epoch, counter).replay[sender].highest == counter
            &&& forall|c: u64|
                #[trigger] node.judging(sender, epoch, counter).replay[sender].seen.contains(c)
                    == (c == counter)
        },
        node.replay.contains_key(sender) ==> {
            &&& node.verdict(sender, epoch, counter) == node.replay[sender].verdict(epoch, counter)
            &&& node.judging(sender, epoch, counter).replay[sender] == node.replay[sender].after(
                epoch,
                counter,
            )
        },
        node.judging(sender, epoch, counter).replay.contains_key(sender),
        node.judging(sender, epoch, counter).replay.contains_key(other)
            == node.replay.contains_key(other),
        node.judging(sender, epoch, counter).replay[other] == node.replay[other],
        node.judging(sender, epoch, counter) == (NodeModel {
            replay: node.judging(sender, epoch, counter).replay,
            ..node
        }),
{
}

/// Which key a frame is opened with, and why there is none: a broadcast on a chain
/// with the key of its position on the chain that its sender handed us, any other
/// broadcast with the channel key; mail that names a prekey with that prekey, any
/// other with the key that the two identities share.
pub proof fn law_which_key_opens_a_frame(node: NodeModel, f: FrameModel)
    ensures
        f.is_broadcast() && f.sk is None ==> node.opening(f) == Ok::<OpeningModel, CoreError>(
            OpeningModel::Network { key: node.channel_key },
        ),
        !f.is_broadcast() && f.fs is None ==> node.opening(f) == Ok::<OpeningModel, CoreError>(
            OpeningModel::Static,
        ),
        !f.is_broadcast() && f.fs is Some ==> match node.prekeys.find(f.fs->Some_0.generation) {
            Some(pair) => node.opening(f) == Ok::<OpeningModel, CoreError>(
                OpeningModel::ForwardSecret { prekey_secret: pair.secret },
            ),
            None => node.opening(f) == Err::<OpeningModel, CoreError>(
                CoreError::Crypto("prekey generation expired"),
            ),
        },
        f.is_broadcast() && f.sk is Some ==> {
            let sk = f.sk->Some_0;
            match senderkey::position(node.chains, bytes::array_32(f.sender), sk.chain_id) {
                None => node.opening(f) == Err::<OpeningModel, CoreError>(
                    CoreError::Crypto("unknown sender chain"),
                ),
                Some(at) => match node.chains[at].chain.derived(sk.index) {
                    None => node.opening(f) == Err::<OpeningModel, CoreError>(
                        CoreError::Crypto("sender key out of reach"),
                    ),
                    Some(d) => node.opening(f) == Ok::<OpeningModel, CoreError>(
                        OpeningModel::SenderKey { key: d.key },
                    ),
                },
            }
        },
{
}

/// A broadcast on a chain is read once: the key that opened it is spent, and the
/// same position does not open again. Every other chain stays as it is.
pub proof fn law_opened_broadcast_spends_its_key(
    step: Step,
    rssi: i8,
    data: Seq<u8>,
    now_ms: u64,
    draw: Draw,
)
    requires
        step.node.well_formed(),
        frame::parsed(data) is Ok,
        ({
            let f = frame::parsed(data)->Ok_0;
            &&& f.is_broadcast()
            &&& f.sk is Some
            &&& f.kind != frame::FrameKind::SenderKey
            &&& f.sender != step.node.id@
            &&& !step.node.seen.contains(bytes::array_16(f.msg_id))
            &&& step.node.unsealed(f) is Ok
        }),
    ensures
        ({
            let f = frame::parsed(data)->Ok_0;
            let sk = f.sk->Some_0;
            let sender = bytes::array_32(f.sender);
            let before = step.node.chains;
            let after = step.ingest(rssi, data, now_ms, draw).0.node.chains;
            let at = senderkey::position(before, sender, sk.chain_id);
            &&& at is Some
            &&& after.len() == before.len()
            &&& after[at->Some_0].peer == sender
            &&& after[at->Some_0].chain_id == sk.chain_id
            &&& after[at->Some_0].chain.derived(sk.index) is None
            &&& forall|i: int|
                0 <= i < before.len() && i != at->Some_0 ==> #[trigger] after[i] == before[i]
        }),
{
    let f = frame::parsed(data)->Ok_0;
    let sk = f.sk->Some_0;
    let sender = bytes::array_32(f.sender);
    let fresh = Step { node: step.node.remembering(bytes::array_16(f.msg_id)), out: step.out };
    assert(fresh.node.unsealed(f) == step.node.unsealed(f));
    let body = fresh.node.unsealed(f)->Ok_0;
    let opened = Step { node: fresh.node.after_unseal(f), out: fresh.out };
    let at = senderkey::position(step.node.chains, sender, sk.chain_id)->Some_0;
    let held = step.node.chains[at].chain;
    assert(step.node.chains[at].peer == sender);
    assert(held.well_formed());
    senderkey::law_spent_key_is_gone(held, sk.index);
    lemma_accept_keeps_chains(opened, f, body, rssi, now_ms, draw);
}

/// Nothing but a distribution changes the chains we hold, once a frame is open.
proof fn lemma_accept_keeps_chains(
    step: Step,
    f: FrameModel,
    body: Seq<u8>,
    rssi: i8,
    now_ms: u64,
    draw: Draw,
)
    requires
        f.kind != frame::FrameKind::SenderKey,
    ensures
        step.accept(f, body, rssi, now_ms, draw).0.node.chains == step.node.chains,
{
    let sender = bytes::array_32(f.sender);
    let judged = Step { node: step.node.judging(sender, f.epoch, f.counter), out: step.out };
    protocol::lemma_touch(judged, sender, f.nickname, rssi, f.hops, now_ms);
}

/// What is not well made comes to nothing: a bundle that is none leaves no prekey and
/// draws no chain, an ack or a distribution of the wrong length is passed over.
pub proof fn law_malformed_bodies_come_to_nothing(
    step: Step,
    sender: PeerId,
    f: FrameModel,
    body: Seq<u8>,
    now_ms: u64,
    draw: Draw,
)
    ensures
        body.len() != 100 ==> step.accept_beacon(sender, body, now_ms, draw) == step,
        body.len() != 16 ==> step.accept_ack(sender, body, now_ms) == step,
        body.len() != 40 ==> step.accept_chain(f, body, draw) == (step, Ok::<(), CoreError>(())),
{
}

} // verus!
