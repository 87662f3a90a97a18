//! The node: what it knows, and what it does about it.
//!
//! A [`Worker`] performs no input or output. It is handed commands, the time and
//! the outcome of what it asked for, and answers with a list of [`Action`]s for the
//! platform to perform, in order. An action whose outcome matters is reported back
//! before the next one is performed.
use std::collections::VecDeque;

use vstd::prelude::*;

use crate::bytes;
use crate::config::Config;
use crate::crypto;
use crate::crypto::{Identity, PeerId, StaticSecret};
use crate::error::CoreError;
use crate::event::{Event, EventKind, EventModel};
use crate::frame;
use crate::frame::{FrameKind, Opening, Outgoing, ParsedFrame, Sealing};
use crate::outbox;
use crate::outbox::{Due, DueItem, DueModel, Outbox, PendingModel, Traffic};
use crate::peer;
use crate::peer::{Peer, PeerModel};
use crate::prekey;
use crate::prekey::{PeerPrekey, PrekeyRing};
use crate::protocol;
use crate::protocol::{
    ActionModel, CommandModel, Draw, NodeModel, Step, TickDraw, BEACON_INTERVAL_MS, DEDUP_CAPACITY,
    INBOX_CAPACITY, PEER_TTL_MS,
};
use crate::relaycache;
use crate::relaycache::RelayCache;
use crate::replay::{ReplayVerdict, ReplayWindow, WindowModel};
use crate::senderkey;
use crate::senderkey::{ChainStore, SenderChain};
use crate::seqs;
use crate::table::Table;

verus! {

/// Something the platform is asked to do.
#[derive(Debug)]
pub enum Action {
    StartScanning,
    StopAdvertising,
    StopScanning,
    /// Advertise our beacon, and report how that went.
    Beacon { wire: Vec<u8>, starting: bool },
    /// Put a frame on the air, by advertising.
    Flood { wire: Vec<u8> },
    /// Send a frame over a connection to `peer`, and report how that went.
    Direct { peer: PeerId, wire: Vec<u8> },
    /// Tell the application.
    Emit(Event),
}

impl View for Action {
    type V = ActionModel;

    open spec fn view(&self) -> ActionModel {
        match *self {
            Action::StartScanning => ActionModel::StartScanning,
            Action::StopAdvertising => ActionModel::StopAdvertising,
            Action::StopScanning => ActionModel::StopScanning,
            Action::Beacon { wire, starting } => ActionModel::Beacon { wire: wire@, starting },
            Action::Flood { wire } => ActionModel::Flood { wire: wire@ },
            Action::Direct { peer, wire } => ActionModel::Direct { peer, wire: wire@ },
            Action::Emit(event) => ActionModel::Emit(event@),
        }
    }
}

/// A list of actions, each taken by its view.
pub open spec fn action_models(actions: Seq<Action>) -> Seq<ActionModel> {
    actions.map_values(|action: Action| action@)
}

/// Something the node is told to do.
#[derive(Debug)]
pub enum Command {
    Start,
    Stop,
    /// Bytes that came off the air.
    Ingest { rssi: i8, bytes: Vec<u8> },
    /// A message to send: to one peer, or to everyone.
    Send { to: Option<PeerId>, body: Vec<u8>, msg_id: [u8; 16] },
    Shutdown,
}

impl View for Command {
    type V = CommandModel;

    open spec fn view(&self) -> CommandModel {
        match *self {
            Command::Start => CommandModel::Start,
            Command::Stop => CommandModel::Stop,
            Command::Ingest { rssi, bytes } => CommandModel::Ingest { rssi, data: bytes@ },
            Command::Send { to, body, msg_id } => CommandModel::Send { to, body: body@, msg_id },
            Command::Shutdown => CommandModel::Shutdown,
        }
    }
}

/// Why a body cannot be sent, where it cannot.
fn body_fault(body: &[u8]) -> (fault: Option<CoreError>)
    ensures
        fault == (if body@.len() == 0 {
            Some(CoreError::InvalidArgument("empty body"))
        } else if body@.len() > frame::MAX_BODY {
            Some(CoreError::InvalidArgument("body exceeds MAX_BODY"))
        } else {
            None
        }),
{
    if body.len() == 0 {
        Some(CoreError::InvalidArgument("empty body"))
    } else if body.len() > frame::MAX_BODY {
        Some(CoreError::InvalidArgument("body exceeds MAX_BODY"))
    } else {
        None
    }
}

impl Command {
    /// A message to send, unless its body is empty or too long.
    pub fn sending(to: Option<PeerId>, body: &[u8], msg_id: [u8; 16]) -> (command: Result<
        Command,
        CoreError,
    >)
        ensures
            match command {
                Ok(command) => {
                    &&& 0 < body@.len() <= frame::MAX_BODY
                    &&& command@ == (CommandModel::Send { to, body: body@, msg_id })
                },
                Err(error) => {
                    ||| body@.len() == 0 && error == CoreError::InvalidArgument("empty body")
                    ||| body@.len() > frame::MAX_BODY && error == CoreError::InvalidArgument(
                        "body exceeds MAX_BODY",
                    )
                },
            },
    {
        match body_fault(body) {
            Some(fault) => Err(fault),
            None => Ok(Command::Send { to, body: bytes::copy_of(body), msg_id }),
        }
    }

    /// A message to send under a fresh random id, and that id. A body that cannot be
    /// sent is refused before anything is drawn; past that, the only failure is that
    /// the system has no randomness.
    pub fn composing(to: Option<PeerId>, body: &[u8]) -> (composed: Result<
        (Command, [u8; 16]),
        CoreError,
    >)
        ensures
            match composed {
                Ok((command, msg_id)) => {
                    &&& 0 < body@.len() <= frame::MAX_BODY
                    &&& command@ == (CommandModel::Send { to, body: body@, msg_id })
                },
                Err(error) => {
                    if body@.len() == 0 {
                        error == CoreError::InvalidArgument("empty body")
                    } else if body@.len() > frame::MAX_BODY {
                        error == CoreError::InvalidArgument("body exceeds MAX_BODY")
                    } else {
                        error == CoreError::Crypto("getrandom failed")
                    }
                },
            },
    {
        if let Some(fault) = body_fault(body) {
            return Err(fault);
        }
        match crypto::random_16() {
            Ok(msg_id) => Ok(
                (Command::Send { to, body: bytes::copy_of(body), msg_id }, msg_id),
            ),
            Err(error) => Err(error),
        }
    }

    /// Bytes that came off the air, unless there are none or too many for a frame.
    pub fn ingesting(rssi: i8, data: &[u8]) -> (command: Result<Command, CoreError>)
        ensures
            match command {
                Ok(command) => {
                    &&& 0 < data@.len() <= frame::MAX_FRAME
                    &&& command@ == (CommandModel::Ingest { rssi, data: data@ })
                },
                Err(error) => {
                    &&& data@.len() == 0 || data@.len() > frame::MAX_FRAME
                    &&& error == CoreError::InvalidArgument("advertisement length")
                },
            },
    {
        if data.len() == 0 || data.len() > frame::MAX_FRAME {
            return Err(CoreError::InvalidArgument("advertisement length"));
        }
        Ok(Command::Ingest { rssi, bytes: bytes::copy_of(data) })
    }
}

/// A node.
pub struct Worker {
    nickname: String,
    ttl: u8,
    chain_rotate_ms: u64,
    identity: Identity,
    channel_key: [u8; 32],
    epoch: u64,
    counter: u64,
    running: bool,
    seq: u32,
    peers: Vec<Peer>,
    inbox: VecDeque<Event>,
    outbox: Outbox,
    /// Our own rotating prekeys.
    prekeys: PrekeyRing,
    /// Prekeys advertised by peers, after signature verification.
    peer_prekeys: Table<PeerPrekey>,
    replay: Table<ReplayWindow>,
    seen: VecDeque<[u8; 16]>,
    /// Our own broadcast chain.
    chain: SenderChain,
    shared_with: Vec<PeerId>,
    chain_since_ms: u64,
    /// The broadcast chains of peers.
    chains: ChainStore,
    carried: RelayCache,
    last_beacon_ms: u64,
}

spec fn event_models(events: Seq<Event>) -> Seq<EventModel> {
    events.map_values(|event: Event| event@)
}

spec fn window_models(windows: Map<PeerId, ReplayWindow>) -> Map<PeerId, WindowModel> {
    windows.map_values(|window: ReplayWindow| window@)
}

impl View for Worker {
    type V = NodeModel;

    closed spec fn view(&self) -> NodeModel {
        NodeModel {
            nickname: self.nickname@,
            ttl: self.ttl,
            chain_rotate_ms: self.chain_rotate_ms,
            seed: self.identity.seed(),
            id: self.identity.id(),
            channel_key: self.channel_key@,
            epoch: self.epoch,
            counter: self.counter,
            running: self.running,
            seq: self.seq,
            peers: peer::peer_models(self.peers@),
            inbox: event_models(self.inbox@),
            outbox: self.outbox@,
            prekeys: self.prekeys@,
            peer_prekeys: self.peer_prekeys@,
            replay: window_models(self.replay@),
            seen: self.seen@,
            chain: self.chain@,
            shared_with: self.shared_with@,
            chain_since_ms: self.chain_since_ms,
            chains: self.chains@,
            carried: self.carried@,
            last_beacon_ms: self.last_beacon_ms,
        }
    }
}

/// A node and the actions it has asked for.
pub open spec fn step_of(worker: Worker, out: Seq<Action>) -> Step {
    Step { node: worker@, out: action_models(out) }
}

/// The random numbers drawn to send one frame. `None` where the system had no
/// randomness to give.
pub struct Drawn {
    pub msg_id: Option<[u8; 16]>,
    pub ephemeral: Option<StaticSecret>,
    pub nonce: Option<[u8; 12]>,
}

impl View for Drawn {
    type V = Draw;

    open spec fn view(&self) -> Draw {
        Draw {
            msg_id: self.msg_id,
            ephemeral: match self.ephemeral {
                Some(secret) => Some(secret@),
                None => None,
            },
            nonce: match self.nonce {
                Some(bytes) => Some(bytes@),
                None => None,
            },
        }
    }
}

impl Drawn {
    /// Draw everything afresh. Of what is drawn nothing is said but that it is of full
    /// length.
    pub fn fresh() -> (drawn: Drawn)
        ensures
            drawn@.full_length(),
    {
        Drawn {
            msg_id: crypto::random_16().ok(),
            ephemeral: crypto::random_secret().ok(),
            nonce: crypto::random_nonce().ok(),
        }
    }

    /// Draw nothing.
    pub fn nothing() -> (drawn: Drawn)
        ensures
            drawn@ == (Draw { msg_id: None, ephemeral: None, nonce: None }),
    {
        Drawn { msg_id: None, ephemeral: None, nonce: None }
    }
}

/// The random numbers drawn for one tick.
pub struct TickDrawn {
    pub prekey: Option<StaticSecret>,
    pub beacon: Drawn,
    pub chain: Option<(u32, [u8; 32])>,
    pub shares: Vec<Drawn>,
}

/// What was drawn for a list of frames.
pub open spec fn draws_of(drawn: Seq<Drawn>) -> Seq<Draw> {
    drawn.map_values(|d: Drawn| d@)
}

impl View for TickDrawn {
    type V = TickDraw;

    open spec fn view(&self) -> TickDraw {
        TickDraw {
            prekey: match self.prekey {
                Some(secret) => Some(secret@),
                None => None,
            },
            beacon: self.beacon@,
            chain: match self.chain {
                Some((chain_id, key)) => Some((chain_id, key@)),
                None => None,
            },
            shares: draws_of(self.shares@),
        }
    }
}

/// How a frame for `to` goes out: over a connection where it is directed, by
/// flooding where it is for everyone.
fn transmission(to: &PeerId, wire: Vec<u8>) -> (action: Action)
    ensures
        action@ == protocol::transmission(*to, wire@),
{
    if bytes::same_32(to, &crypto::BROADCAST_ID) {
        Action::Flood { wire }
    } else {
        Action::Direct { peer: *to, wire }
    }
}

/// What follows a directed send: where it did not go out, the frame is flooded.
pub fn after_direct(sent: bool, wire: Vec<u8>) -> (next: Option<Action>)
    ensures
        match next {
            Some(action) => !sent && action@ == (ActionModel::Flood { wire: wire@ }),
            None => sent,
        },
{
    if sent {
        None
    } else {
        Some(Action::Flood { wire })
    }
}

fn push_action(out: &mut Vec<Action>, action: Action)
    ensures
        action_models(final(out)@) == action_models(old(out)@).push(action@),
{
    out.push(action);
    assert(action_models(out@) =~= action_models(old(out)@).push(action@));
}

impl Worker {
    // --- Output ----------------------------------------------------------------

    /// Tell the application.
    fn emit(&mut self, out: &mut Vec<Action>, now_ms: u64, kind: EventKind)
        ensures
            step_of(*final(self), final(out)@) == step_of(*old(self), old(out)@).emit(
                now_ms,
                kind@,
            ),
            old(self)@.well_formed() ==> final(self)@.well_formed(),
            old(self)@.keyed() ==> final(self)@.keyed(),
    {
        let event = Event::at(self.next_seq(), now_ms, kind);
        push_action(out, Action::Emit(event));
    }

    /// Tell the application of an error.
    fn fail(&mut self, out: &mut Vec<Action>, now_ms: u64, error: CoreError)
        ensures
            step_of(*final(self), final(out)@) == step_of(*old(self), old(out)@).fail(
                now_ms,
                error,
            ),
            old(self)@.well_formed() ==> final(self)@.well_formed(),
            old(self)@.keyed() ==> final(self)@.keyed(),
    {
        let message: String = error.message();
        self.emit(out, now_ms, EventKind::Error { message });
    }

    // --- Duplicate suppression -------------------------------------------------

    /// Whether an id was seen.
    fn has_seen(&self, id: &[u8; 16]) -> (seen: bool)
        ensures
            seen == self@.seen.contains(*id),
    {
        let mut i: usize = 0;
        while i < self.seen.len()
            invariant
                i <= self.seen@.len(),
                forall|j: int| 0 <= j < i ==> self.seen@[j] != *id,
            decreases self.seen@.len() - i,
        {
            if bytes::same_16(&self.seen[i], id) {
                assert(self.seen@[i as int] == *id);
                return true;
            }
            i = i + 1;
        }
        false
    }

    /// Remember an id, and say whether it was seen before.
    fn remember(&mut self, id: [u8; 16]) -> (seen: bool)
        requires
            old(self)@.well_formed(),
        ensures
            seen == old(self)@.seen.contains(id),
            final(self)@ == old(self)@.remembering(id),
            final(self)@.well_formed(),
            old(self)@.keyed() ==> final(self)@.keyed(),
    {
        if self.has_seen(&id) {
            return true;
        }
        let ghost before = self@;
        if self.seen.len() >= DEDUP_CAPACITY {
            let forgotten: Option<[u8; 16]> = self.seen.pop_front();
            assert(self.seen@ =~= before.seen.drop_first());
        }
        self.seen.push_back(id);
        proof {
            let kept = if before.seen.len() >= DEDUP_CAPACITY {
                before.seen.drop_first()
            } else {
                before.seen
            };
            assert(self.seen@ =~= kept.push(id));
            assert(kept.push(id).no_duplicates());
            assert(self@ == before.remembering(id));
        }
        false
    }

    // --- Sealing -----------------------------------------------------------------

    /// Seal a frame, choosing the strongest key agreement available.
    ///
    /// Broadcasts go out on our sender chain once somebody holds it, and under the
    /// channel key until then. Directed frames use the forward-secret path when we
    /// hold a verified prekey of the recipient, and fall back to static agreement
    /// when we do not: the receiver is told which it got.
    pub fn seal(
        &mut self,
        recipient: PeerId,
        msg_id: [u8; 16],
        body: &[u8],
        kind: FrameKind,
        drawn: &Drawn,
    ) -> (frame: Result<Vec<u8>, CoreError>)
        requires
            old(self)@.counter < u64::MAX,
        ensures
            final(self)@ == old(self)@.after_seal(recipient),
            crypto::byte_result(frame) == old(self)@.sealed(
                recipient,
                msg_id,
                body@,
                kind,
                drawn@,
            ),
            old(self)@.readable(recipient, msg_id, body@, kind, drawn@),
            old(self)@.well_formed() ==> final(self)@.well_formed(),
            old(self)@.keyed() ==> final(self)@.keyed(),
    {
        let ghost before = self@;
        let counter: u64 = self.counter;
        self.counter = self.counter + 1;
        let broadcast: bool = bytes::same_32(&recipient, &crypto::BROADCAST_ID);
        let message_key: Option<([u8; 32], u32)> = if broadcast && self.shared_with.len() > 0 {
            self.chain.next_message_key()
        } else {
            None
        };
        assert(self@ == (NodeModel { counter: self@.counter, chain: self@.chain, ..before }));
        let mut out = Outgoing {
            recipient,
            msg_id,
            epoch: self.epoch,
            counter,
            ttl: self.ttl,
            body,
            nickname: "",
            kind,
            sealing: Sealing::Static,
        };
        if broadcast {
            match &message_key {
                Some((key, index)) => {
                    let chain_id: u32 = self.chain.chain_id();
                    out.sealing = Sealing::SenderKey { chain_id, index: *index, key };
                },
                None => {
                    out.sealing = Sealing::Network { key: &self.channel_key };
                },
            }
        } else if let Some(prekey) = self.peer_prekeys.get(&recipient) {
            match &drawn.ephemeral {
                Some(ephemeral) => {
                    out.sealing = Sealing::ForwardSecret { ephemeral, prekey };
                },
                None => {
                    return Err(CoreError::Crypto("getrandom failed"));
                },
            }
        }
        assert(out@ == before.outgoing(
            recipient,
            msg_id,
            body@,
            kind,
            drawn@.ephemeral->Some_0,
        ));
        if body.len() > frame::MAX_BODY {
            return Err(CoreError::InvalidArgument("body exceeds MAX_BODY"));
        }
        match &drawn.nonce {
            Some(nonce) => frame::build_with_nonce(&self.identity, &out, nonce),
            None => Err(CoreError::Crypto("getrandom failed")),
        }
    }

    // --- Queue -------------------------------------------------------------------

    /// Put a frame on the air, by connection where it is directed.
    fn transmit(&self, out: &mut Vec<Action>, to: &PeerId, wire: Vec<u8>)
        ensures
            step_of(*self, final(out)@) == step_of(*self, old(out)@).transmit(*to, wire@),
    {
        push_action(out, transmission(to, wire));
    }

    /// Hold a directed frame until it is acked.
    fn queue(
        &mut self,
        out: &mut Vec<Action>,
        msg_id: [u8; 16],
        peer: PeerId,
        wire: Vec<u8>,
        traffic: Traffic,
        now_ms: u64,
    )
        requires
            old(self)@.well_formed(),
            now_ms + outbox::BASE_BACKOFF_MS <= u64::MAX,
        ensures
            step_of(*final(self), final(out)@) == step_of(*old(self), old(out)@).queue(
                msg_id,
                peer,
                wire@,
                traffic,
                now_ms,
            ),
            final(self)@.well_formed(),
            old(self)@.keyed() ==> final(self)@.keyed(),
    {
        let ghost before = self@;
        let victim: Option<Traffic> = self.outbox.evicts(&msg_id);
        let evicted: Option<[u8; 16]> = self.outbox.push(msg_id, peer, wire, traffic, now_ms);
        assert(self@ == (NodeModel { outbox: self@.outbox, ..before }));
        if let Some(dropped) = evicted {
            if let Some(Traffic::User) = victim {
                self.emit(
                    out,
                    now_ms,
                    EventKind::MessageExpired {
                        msg_id: dropped,
                        reason: "outbox full".to_owned(),
                    },
                );
            }
        }
    }

    /// Act on due entries, in order.
    fn settle(
        &mut self,
        out: &mut Vec<Action>,
        items: &Vec<DueItem>,
        now_ms: u64,
    )
        ensures
            step_of(*final(self), final(out)@) == step_of(*old(self), old(out)@).settle(
                outbox::due_models(items@),
                now_ms,
            ),
            old(self)@.well_formed() ==> final(self)@.well_formed(),
            old(self)@.keyed() ==> final(self)@.keyed(),
    {
        let ghost start = step_of(*self, out@);
        let ghost models = outbox::due_models(items@);
        let mut i: usize = 0;
        assert(models.take(0) =~= Seq::<DueModel>::empty());
        while i < items.len()
            invariant
                i <= items@.len(),
                models == outbox::due_models(items@),
                step_of(*self, out@) == start.settle(models.take(i as int), now_ms),
                start.node.well_formed() ==> self@.well_formed(),
                start.node.keyed() ==> self@.keyed(),
            decreases items@.len() - i,
        {
            let ghost before = step_of(*self, out@);
            proof {
                let longer = models.take(i + 1);
                assert(longer.drop_last() =~= models.take(i as int));
                assert(longer.last() == items@[i as int]@);
            }
            let recipient: PeerId = items[i].recipient;
            match &items[i].due {
                Due::Retry(wire) => {
                    self.transmit(out, &recipient, bytes::copy_of(wire.as_slice()));
                },
                Due::Expired => {
                    if items[i].traffic == Traffic::User {
                        self.emit(
                            out,
                            now_ms,
                            EventKind::MessageExpired {
                                msg_id: items[i].msg_id,
                                reason: "no ack".to_owned(),
                            },
                        );
                    }
                },
            }
            assert(step_of(*self, out@) == before.settle_one(items@[i as int]@, now_ms));
            i = i + 1;
        }
        assert(models.take(i as int) =~= models);
    }

    /// Take everything due, whoever it is for, and act on it.
    fn flush(&mut self, out: &mut Vec<Action>, now_ms: u64)
        requires
            old(self)@.well_formed(),
            outbox::retries_fit(old(self)@.outbox, now_ms),
        ensures
            step_of(*final(self), final(out)@) == step_of(*old(self), old(out)@).flush(
                now_ms,
            ),
            final(self)@.well_formed(),
            old(self)@.keyed() ==> final(self)@.keyed(),
    {
        let ghost before = self@;
        let items: Vec<DueItem> = self.outbox.take_due(now_ms);
        assert(self@ == (NodeModel { outbox: self@.outbox, ..before }));
        self.settle(out, &items, now_ms);
    }

    // --- Peers -------------------------------------------------------------------

    /// Hand a peer everything carried for it.
    fn hand_over(&mut self, out: &mut Vec<Action>, id: &PeerId)
        requires
            old(self)@.well_formed(),
        ensures
            step_of(*final(self), final(out)@) == step_of(*old(self), old(out)@).hand_over(*id),
            final(self)@.well_formed(),
            old(self)@.keyed() ==> final(self)@.keyed(),
    {
        let ghost start = step_of(*self, out@);
        let mut frames: Vec<Vec<u8>> = self.carried.take_for_peer(id);
        assert(self@ == (NodeModel { carried: self@.carried, ..start.node }));
        let ghost all = relaycache::frame_bytes(frames@);
        let ghost sends = all.map_values(|wire: Seq<u8>| protocol::transmission(*id, wire));
        let ghost mut done: int = 0;
        proof {
            assert(all.skip(0) =~= all);
            assert(start.out + sends.take(0) =~= start.out);
        }
        while frames.len() > 0
            invariant
                0 <= done <= all.len(),
                relaycache::frame_bytes(frames@) == all.skip(done),
                sends == all.map_values(|wire: Seq<u8>| protocol::transmission(*id, wire)),
                action_models(out@) == start.out + sends.take(done),
            decreases frames@.len(),
        {
            let ghost left = frames@;
            assert(all.skip(done).len() == left.len());
            assert(relaycache::frame_bytes(left)[0] == all.skip(done)[0]);
            assert(all.skip(done)[0] == all[done]);
            let wire: Vec<u8> = frames.remove(0);
            proof {
                assert(relaycache::frame_bytes(frames@) =~= relaycache::frame_bytes(left).skip(1));
                assert(all.skip(done).skip(1) =~= all.skip(done + 1));
                assert(sends.take(done).push(sends[done]) =~= sends.take(done + 1));
                assert(start.out + sends.take(done + 1) =~= (start.out + sends.take(done)).push(
                    sends[done],
                ));
            }
            push_action(out, transmission(id, wire));
            proof {
                done = done + 1;
            }
        }
        assert(relaycache::frame_bytes(frames@).len() == 0);
        assert(sends.take(done) =~= sends);
    }

    /// Make everything queued for a peer due, and if that woke anything, flush.
    fn wake(&mut self, out: &mut Vec<Action>, id: &PeerId, now_ms: u64)
        requires
            old(self)@.well_formed(),
            outbox::retries_fit(
                outbox::after_wake(old(self)@.outbox, *id, now_ms),
                now_ms,
            ),
        ensures
            step_of(*final(self), final(out)@) == step_of(*old(self), old(out)@).wake(
                *id,
                now_ms,
            ),
            final(self)@.well_formed(),
            old(self)@.keyed() ==> final(self)@.keyed(),
    {
        let ghost before = self@;
        let woken: usize = self.outbox.wake_for_peer(id, now_ms);
        assert(self@ == (NodeModel { outbox: self@.outbox, ..before }));
        if woken > 0 {
            self.flush(out, now_ms);
        }
    }

    /// Where a peer stands in the table.
    fn find_peer(&self, id: &PeerId) -> (at: Option<usize>)
        requires
            self@.well_formed(),
        ensures
            match at {
                Some(i) => i < self.peers@.len() && protocol::peer_at(self@.peers, *id) == Some(
                    i as int,
                ),
                None => protocol::peer_at(self@.peers, *id) is None,
            },
    {
        let mut i: usize = 0;
        while i < self.peers.len()
            invariant
                i <= self.peers@.len(),
                self@.well_formed(),
                forall|j: int| 0 <= j < i ==> (#[trigger] self@.peers[j]).id != *id,
            decreases self.peers@.len() - i,
        {
            assert(self@.peers[i as int] == self.peers@[i as int]@);
            if bytes::same_32(&self.peers[i].id, id) {
                assert(self@.peers[i as int].id == *id);
                return Some(i);
            }
            i = i + 1;
        }
        None
    }

    /// A peer was heard.
    fn touch_peer(
        &mut self,
        out: &mut Vec<Action>,
        id: PeerId,
        nickname: &String,
        rssi: i8,
        hops: u8,
        now_ms: u64,
    )
        requires
            old(self)@.well_formed(),
            old(self)@.fits(now_ms),
        ensures
            step_of(*final(self), final(out)@) == step_of(*old(self), old(out)@).touch(
                id,
                nickname@,
                rssi,
                hops,
                now_ms,
            ),
            final(self)@.well_formed(),
            old(self)@.keyed() ==> final(self)@.keyed(),
    {
        let ghost before = self@;
        match self.find_peer(&id) {
            Some(at) => {
                let name: String = if nickname.as_str().is_empty() {
                    self.peers[at].nickname.clone()
                } else {
                    nickname.clone()
                };
                let heard = Peer { id, nickname: name, rssi, last_seen_ms: now_ms, hops };
                let ghost model = heard@;
                proof {
                    assert(before.peers[at as int].id == id);
                    assert(model == before.peers[at as int].heard(nickname@, rssi, hops, now_ms));
                }
                self.peers.set(at, heard);
                assert(self@.peers =~= before.peers.update(at as int, model));
            },
            None => {
                let fresh = Peer {
                    id,
                    nickname: nickname.clone(),
                    rssi,
                    last_seen_ms: now_ms,
                    hops,
                };
                let ghost model = fresh@;
                self.peers.push(fresh);
                proof {
                    assert(self@.peers =~= before.peers.push(model));
                    assert forall|i: int, j: int| 0 <= i < j < self@.peers.len() implies (
                    #[trigger] self@.peers[i]).id != (#[trigger] self@.peers[j]).id by {
                        assert(self@.peers[i] == before.peers[i]);
                        if j < before.peers.len() {
                            assert(self@.peers[j] == before.peers[j]);
                        }
                    }
                    assert(self@ == (NodeModel { peers: self@.peers, ..before }));
                    lemma_wake_fits(before, id, now_ms);
                }
                self.emit(
                    out,
                    now_ms,
                    EventKind::PeerDiscovered { peer: id, nickname: nickname.clone(), rssi, hops },
                );
                self.hand_over(out, &id);
                // Anything queued for this peer becomes due right now, instead of
                // waiting out its backoff.
                self.wake(out, &id, now_ms);
            },
        }
    }

    /// Forget the peers that have been silent for too long.
    fn expire_peers(&mut self, out: &mut Vec<Action>, now_ms: u64)
        requires
            old(self)@.well_formed(),
        ensures
            step_of(*final(self), final(out)@) == step_of(*old(self), old(out)@).expire_peers(
                now_ms,
            ),
            final(self)@.well_formed(),
            old(self)@.keyed() ==> final(self)@.keyed(),
    {
        let ghost start = step_of(*self, out@);
        let ghost peers = self@.peers;
        let ghost gone = |p: PeerModel| p.gone(now_ms);
        let ghost stays = |p: PeerModel| !p.gone(now_ms);
        let ghost left = Step {
            node: NodeModel { peers: peers.filter(stays), ..start.node },
            out: start.out,
        };
        let ghost mut done: int = 0;
        let mut i: usize = 0;
        proof {
            seqs::lemma_filter_none(peers.take(0), gone);
            seqs::lemma_filter_none(peers.take(0), stays);
            assert(peers.take(0).filter(stays) + peers.skip(0) =~= peers);
        }
        while i < self.peers.len()
            invariant
                0 <= done <= peers.len(),
                gone == (|p: PeerModel| p.gone(now_ms)),
                stays == (|p: PeerModel| !p.gone(now_ms)),
                left == (Step {
                    node: NodeModel { peers: peers.filter(stays), ..start.node },
                    out: start.out,
                }),
                self@.peers == peers.take(done).filter(stays) + peers.skip(done),
                i == peers.take(done).filter(stays).len(),
                (Step {
                    node: NodeModel { peers: peers.filter(stays), ..self@ },
                    out: action_models(out@),
                }) == left.announce_lost(peers.take(done).filter(gone), now_ms),
            decreases self.peers@.len() - i,
        {
            let ghost kept = peers.take(done).filter(stays);
            let ghost lost = peers.take(done).filter(gone);
            let ghost now = self@.peers;
            proof {
                seqs::lemma_filter_step(peers, done, gone);
                seqs::lemma_filter_step(peers, done, stays);
                assert(now.len() == self.peers@.len());
                assert(now[i as int] == peers[done]);
                assert(now[i as int] == self.peers@[i as int]@);
            }
            let seen: u64 = self.peers[i].last_seen_ms;
            if now_ms >= seen && now_ms - seen >= PEER_TTL_MS {
                let silent: Peer = self.peers.remove(i);
                proof {
                    assert(self@.peers =~= now.remove(i as int));
                    assert(self@.peers =~= kept + peers.skip(done + 1));
                    let longer = lost.push(peers[done]);
                    assert(longer.drop_last() =~= lost);
                }
                self.emit(out, now_ms, EventKind::PeerLost { peer: silent.id });
            } else {
                i = i + 1;
                assert(self@.peers =~= kept.push(peers[done]) + peers.skip(done + 1));
            }
            proof {
                done = done + 1;
            }
        }
        proof {
            assert(self@.peers.len() == self.peers@.len());
            assert(peers.take(done) =~= peers);
            assert(self@.peers =~= peers.filter(stays));
            assert forall|i: int, j: int| 0 <= i < j < self@.peers.len() implies (
            #[trigger] self@.peers[i]).id != (#[trigger] self@.peers[j]).id by {
                seqs::lemma_filter_order(peers, stays, i, j);
            }
            protocol::lemma_announce_lost(left, peers.filter(gone), now_ms);
        }
    }

    // --- Sending -----------------------------------------------------------------

    /// Send a user message.
    pub fn do_send(
        &mut self,
        out: &mut Vec<Action>,
        to: Option<PeerId>,
        body: &[u8],
        msg_id: [u8; 16],
        now_ms: u64,
        drawn: &Drawn,
    ) -> (result: Result<(), CoreError>)
        requires
            old(self)@.well_formed(),
            old(self)@.fits(now_ms),
        ensures
            (step_of(*final(self), final(out)@), result) == step_of(*old(self), old(out)@).send(
                to,
                body@,
                msg_id,
                now_ms,
                drawn@,
            ),
            old(self)@.running ==> old(self)@.readable(
                protocol::addressee(to),
                msg_id,
                body@,
                FrameKind::Message,
                drawn@,
            ),
            final(self)@.well_formed(),
            old(self)@.keyed() ==> final(self)@.keyed(),
    {
        if !self.running {
            return Err(CoreError::NotRunning);
        }
        let recipient: PeerId = match to {
            Some(peer) => peer,
            None => crypto::BROADCAST_ID,
        };
        assert(recipient == protocol::addressee(to));
        let wire: Vec<u8> = match self.seal(recipient, msg_id, body, FrameKind::Message, drawn) {
            Ok(wire) => wire,
            Err(error) => {
                return Err(error);
            },
        };
        // Our own id counts as seen, so that a neighbour's copy does not loop back.
        let known: bool = self.remember(msg_id);
        self.transmit(out, &recipient, bytes::copy_of(wire.as_slice()));
        match to {
            Some(peer) => {
                self.queue(out, msg_id, peer, wire, Traffic::User, now_ms);
            },
            None => {
                // Nobody in particular can ack a broadcast: on the air is delivered.
                self.emit(out, now_ms, EventKind::MessageDelivered { msg_id, direct: false });
            },
        }
        Ok(())
    }

    /// Acknowledge a message.
    pub fn send_ack(
        &mut self,
        out: &mut Vec<Action>,
        to: &PeerId,
        acked: &[u8; 16],
        drawn: &Drawn,
    ) -> (result: Result<(), CoreError>)
        requires
            old(self)@.well_formed(),
            old(self)@.counter < u64::MAX,
        ensures
            (step_of(*final(self), final(out)@), result) == step_of(
                *old(self),
                old(out)@,
            ).acknowledge(*to, *acked, drawn@),
            drawn.msg_id matches Some(msg_id) ==> old(self)@.readable(
                *to,
                msg_id,
                acked@,
                FrameKind::Ack,
                drawn@,
            ),
            final(self)@.well_formed(),
            old(self)@.keyed() ==> final(self)@.keyed(),
    {
        let msg_id: [u8; 16] = match drawn.msg_id {
            Some(msg_id) => msg_id,
            None => {
                return Err(CoreError::Crypto("getrandom failed"));
            },
        };
        match self.seal(*to, msg_id, acked, FrameKind::Ack, drawn) {
            Ok(wire) => {
                self.transmit(out, to, wire);
                Ok(())
            },
            Err(error) => Err(error),
        }
    }

    /// Whether a peer holds our current chain.
    fn shares_chain(&self, peer: &PeerId) -> (shared: bool)
        ensures
            shared == self@.shared_with.contains(*peer),
    {
        let mut i: usize = 0;
        while i < self.shared_with.len()
            invariant
                i <= self.shared_with@.len(),
                forall|j: int| 0 <= j < i ==> self.shared_with@[j] != *peer,
            decreases self.shared_with@.len() - i,
        {
            if bytes::same_32(&self.shared_with[i], peer) {
                assert(self.shared_with@[i as int] == *peer);
                return true;
            }
            i = i + 1;
        }
        false
    }

    /// Hand our sender chain, as it stands, to one peer.
    pub fn share_chain(
        &mut self,
        out: &mut Vec<Action>,
        peer: &PeerId,
        now_ms: u64,
        drawn: &Drawn,
    ) -> (result: Result<(), CoreError>)
        requires
            old(self)@.well_formed(),
            old(self)@.counter < u64::MAX,
            now_ms + outbox::BASE_BACKOFF_MS <= u64::MAX,
        ensures
            (step_of(*final(self), final(out)@), result) == step_of(
                *old(self),
                old(out)@,
            ).share_chain(*peer, now_ms, drawn@),
            old(self)@.needs_ephemeral(*peer) ==> (drawn.msg_id matches Some(msg_id)
                ==> old(self)@.readable(
                *peer,
                msg_id,
                old(self)@.chain.encoded(),
                FrameKind::SenderKey,
                drawn@,
            )),
            final(self)@.well_formed(),
            old(self)@.keyed() ==> final(self)@.keyed(),
    {
        // The chain only ever travels forward-secret.
        if bytes::same_32(peer, &crypto::BROADCAST_ID) || !self.peer_prekeys.contains(peer) {
            return Ok(());
        }
        let msg_id: [u8; 16] = match drawn.msg_id {
            Some(msg_id) => msg_id,
            None => {
                return Err(CoreError::Crypto("getrandom failed"));
            },
        };
        let body: [u8; 40] = self.chain.distribution();
        let wire: Vec<u8> = match self.seal(*peer, msg_id, &body, FrameKind::SenderKey, drawn) {
            Ok(wire) => wire,
            Err(error) => {
                return Err(error);
            },
        };
        let seen: bool = self.remember(msg_id);
        let ghost known = self@;
        // What is still queued of the chain describes a position we have left.
        let dropped: usize = self.outbox.drop_superseded_internal(peer);
        if !self.shares_chain(peer) {
            self.shared_with.push(*peer);
        }
        proof {
            assert(self@ == (NodeModel {
                outbox: outbox::without_internal(known.outbox, *peer),
                shared_with: if known.shared_with.contains(*peer) {
                    known.shared_with
                } else {
                    known.shared_with.push(*peer)
                },
                ..known
            }));
            assert(self@.shared_with.no_duplicates());
        }
        self.transmit(out, peer, bytes::copy_of(wire.as_slice()));
        self.queue(out, msg_id, *peer, wire, Traffic::Internal, now_ms);
        Ok(())
    }

    // --- Receiving ---------------------------------------------------------------

    /// Open a frame with the key that goes with how the sender sealed it.
    ///
    /// A frame that does not open changes nothing. One that opens on a sender chain
    /// moves the chain past its key.
    pub fn unseal(&mut self, parsed: &ParsedFrame<'_>) -> (plaintext: Result<Vec<u8>, CoreError>)
        requires
            old(self)@.well_formed(),
            parsed@.ciphertext.len() >= crypto::TAG_LEN ==> crypto::has_answer(
                (parsed@.ciphertext.len() - crypto::TAG_LEN) as nat,
            ),
        ensures
            crypto::byte_result(plaintext) == old(self)@.unsealed(parsed@),
            final(self)@ == (if plaintext is Ok && parsed@.is_broadcast() {
                old(self)@.after_unseal(parsed@)
            } else {
                old(self)@
            }),
            final(self)@.well_formed(),
            old(self)@.keyed() ==> final(self)@.keyed(),
    {
        let ghost before = self@;
        proof {
            bytes::lemma_array_32(parsed.sender);
        }
        if parsed.is_broadcast() {
            match &parsed.sk {
                Some(sk) => {
                    let derived: Option<senderkey::Derived> = match self.chains.get(
                        &parsed.sender,
                        sk.chain_id,
                    ) {
                        Some(chain) => chain.derive(sk.index),
                        None => {
                            return Err(CoreError::Crypto("unknown sender chain"));
                        },
                    };
                    let d: senderkey::Derived = match derived {
                        Some(d) => d,
                        None => {
                            return Err(CoreError::Crypto("sender key out of reach"));
                        },
                    };
                    let plaintext: Result<Vec<u8>, CoreError> = frame::open(
                        &self.identity,
                        parsed,
                        Opening::SenderKey { key: &d.key },
                    );
                    if plaintext.is_ok() {
                        let ghost at = senderkey::position(
                            before.chains,
                            parsed.sender,
                            sk.chain_id,
                        )->Some_0;
                        proof {
                            senderkey::law_skip_cache_is_bounded(
                                before.chains[at].chain,
                                sk.index,
                            );
                            senderkey::lemma_store_update(
                                before.chains,
                                at,
                                before.chains[at].chain.committed(d@),
                            );
                        }
                        if let Some(chain) = self.chains.get_mut(&parsed.sender, sk.chain_id) {
                            chain.commit(d);
                        }
                        proof {
                            assert(self@ == (NodeModel { chains: self@.chains, ..before }));
                        }
                    }
                    plaintext
                },
                None => frame::open(
                    &self.identity,
                    parsed,
                    Opening::Network { key: &self.channel_key },
                ),
            }
        } else {
            match &parsed.fs {
                Some(fs) => {
                    // A generation no longer held means the prekey has been rotated
                    // out. The message is unrecoverable, as intended.
                    match self.prekeys.get(fs.generation) {
                        Some(pair) => frame::open(
                            &self.identity,
                            parsed,
                            Opening::ForwardSecret { prekey_secret: pair.secret() },
                        ),
                        None => Err(CoreError::Crypto("prekey generation expired")),
                    }
                },
                None => frame::open(&self.identity, parsed, Opening::Static),
            }
        }
    }

    /// Judge an authenticated frame, and record it if it is fresh.
    fn judge(&mut self, sender: &PeerId, epoch: u64, counter: u64) -> (verdict: ReplayVerdict)
        requires
            old(self)@.well_formed(),
        ensures
            verdict == old(self)@.verdict(*sender, epoch, counter),
            final(self)@ == old(self)@.judging(*sender, epoch, counter),
            final(self)@.well_formed(),
            old(self)@.keyed() ==> final(self)@.keyed(),
    {
        let ghost before = self@;
        let ghost windows = self.replay@;
        let (window, verdict): (ReplayWindow, ReplayVerdict) = match self.replay.get(sender) {
            Some(held) => {
                let mut window: ReplayWindow = held.clone();
                let verdict: ReplayVerdict = window.admit_counter(epoch, counter);
                (window, verdict)
            },
            None => (ReplayWindow::new(epoch, counter), ReplayVerdict::Fresh),
        };
        let ghost model = window@;
        self.replay.insert(*sender, window);
        proof {
            assert(window_models(self.replay@) =~= before.replay.insert(*sender, model));
            assert(self@ == (NodeModel { replay: self@.replay, ..before }));
        }
        verdict
    }

    /// A verified beacon.
    fn accept_beacon(
        &mut self,
        out: &mut Vec<Action>,
        sender: &PeerId,
        body: &[u8],
        now_ms: u64,
        drawn: &Drawn,
    )
        requires
            old(self)@.well_formed(),
            old(self)@.counter < u64::MAX,
            now_ms + outbox::BASE_BACKOFF_MS <= u64::MAX,
        ensures
            step_of(*final(self), final(out)@) == step_of(
                *old(self),
                old(out)@,
            ).accept_beacon(*sender, body@, now_ms, drawn@),
            final(self)@.well_formed(),
            old(self)@.keyed() ==> final(self)@.keyed(),
    {
        let ghost before = self@;
        // The bundle is signature-checked against the sender's id, so that a member
        // cannot advertise a prekey under someone else's name.
        let bundle: PeerPrekey = match prekey::parse_bundle(sender, body) {
            Some(bundle) => bundle,
            None => {
                return ;
            },
        };
        proof {
            bytes::lemma_array_32(bundle.public);
        }
        let news: bool = match self.peer_prekeys.get(sender) {
            Some(held) => bundle.generation > held.generation,
            None => true,
        };
        if news {
            self.peer_prekeys.insert(*sender, bundle);
            assert(self@ == (NodeModel { peer_prekeys: self@.peer_prekeys, ..before }));
        }
        if news || !self.shares_chain(sender) {
            // A peer that could not be handed the chain is tried again at its next
            // beacon. This one is good all the same.
            let _shared: Result<(), CoreError> = self.share_chain(out, sender, now_ms, drawn);
        }
    }

    /// A verified ack. Only the peer that a message is for can clear it: any other
    /// member may have seen its id go by.
    fn accept_ack(&mut self, out: &mut Vec<Action>, sender: &PeerId, body: &[u8], now_ms: u64)
        requires
            old(self)@.well_formed(),
        ensures
            step_of(*final(self), final(out)@) == step_of(*old(self), old(out)@).accept_ack(
                *sender,
                body@,
                now_ms,
            ),
            final(self)@.well_formed(),
            old(self)@.keyed() ==> final(self)@.keyed(),
    {
        if body.len() != 16 {
            return;
        }
        let ghost before = self@;
        let acked: [u8; 16] = bytes::get_16(body, 0);
        proof {
            assert(body@.subrange(0, 16) =~= body@);
            bytes::lemma_array_16(acked);
        }
        if !self.outbox.awaits(&acked, sender) {
            return ;
        }
        let cleared: Option<Traffic> = self.outbox.ack(&acked);
        match cleared {
            Some(traffic) => {
                proof {
                    let i = choose|i: int|
                        0 <= i < before.outbox.len() && (#[trigger] before.outbox[i]).msg_id
                            == acked && before.outbox[i].traffic == traffic;
                    assert(outbox::queued(before.outbox, acked));
                    assert(self@ == (NodeModel { outbox: self@.outbox, ..before }));
                }
                if traffic == Traffic::User {
                    self.emit(
                        out,
                        now_ms,
                        EventKind::MessageDelivered { msg_id: acked, direct: true },
                    );
                }
            },
            None => {
                proof {
                    let keep = |p: PendingModel| p.msg_id != acked;
                    seqs::lemma_filter_all(before.outbox, keep);
                    assert(self@ == before);
                }
            },
        }
    }

    /// A verified sender-key distribution.
    fn accept_chain(
        &mut self,
        out: &mut Vec<Action>,
        parsed: &ParsedFrame<'_>,
        body: &[u8],
        drawn: &Drawn,
    ) -> (result: Result<(), CoreError>)
        requires
            old(self)@.well_formed(),
            old(self)@.counter < u64::MAX,
        ensures
            (step_of(*final(self), final(out)@), result) == step_of(
                *old(self),
                old(out)@,
            ).accept_chain(parsed@, body@, drawn@),
            final(self)@.well_formed(),
            old(self)@.keyed() ==> final(self)@.keyed(),
    {
        let ghost before = self@;
        proof {
            bytes::lemma_array_32(parsed.sender);
            bytes::lemma_array_16(parsed.msg_id);
        }
        // A chain key is never broadcast.
        if parsed.is_broadcast() {
            return Ok(());
        }
        match senderkey::parse_distribution(body) {
            Some(d) => {
                let moved: bool = self.chains.install(parsed.sender, &d);
                assert(self@ == (NodeModel { chains: self@.chains, ..before }));
                self.send_ack(out, &parsed.sender, &parsed.msg_id, drawn)
            },
            None => Ok(()),
        }
    }

    /// Keep an event for the application to collect.
    fn push_inbox(&mut self, event: Event)
        requires
            old(self)@.well_formed(),
        ensures
            final(self)@ == (NodeModel {
                inbox: (if old(self)@.inbox.len() >= INBOX_CAPACITY {
                    old(self)@.inbox.drop_first()
                } else {
                    old(self)@.inbox
                }).push(event@),
                ..old(self)@
            }),
            final(self)@.well_formed(),
            old(self)@.keyed() ==> final(self)@.keyed(),
    {
        let ghost before = self@;
        if self.inbox.len() >= INBOX_CAPACITY {
            // If nobody drains it, drop the oldest rather than grow forever.
            let dropped: Option<Event> = self.inbox.pop_front();
            assert(event_models(self.inbox@) =~= before.inbox.drop_first());
        }
        let ghost room = event_models(self.inbox@);
        let ghost model = event@;
        self.inbox.push_back(event);
        proof {
            assert(event_models(self.inbox@) =~= room.push(model));
            assert(self@ == (NodeModel { inbox: self@.inbox, ..before }));
        }
    }

    /// A verified message.
    fn accept_message(
        &mut self,
        out: &mut Vec<Action>,
        parsed: &ParsedFrame<'_>,
        body: Vec<u8>,
        rssi: i8,
        now_ms: u64,
        drawn: &Drawn,
    ) -> (result: Result<(), CoreError>)
        requires
            old(self)@.well_formed(),
            old(self)@.counter < u64::MAX,
        ensures
            (step_of(*final(self), final(out)@), result) == step_of(
                *old(self),
                old(out)@,
            ).accept_message(parsed@, body@, rssi, now_ms, drawn@),
            final(self)@.well_formed(),
            old(self)@.keyed() ==> final(self)@.keyed(),
    {
        proof {
            bytes::lemma_array_32(parsed.sender);
            bytes::lemma_array_16(parsed.msg_id);
        }
        let kind = EventKind::MessageReceived {
            sender: parsed.sender,
            msg_id: parsed.msg_id,
            ttl: parsed.ttl,
            hops: parsed.hops,
            rssi,
            forward_secret: parsed.is_forward_secret(),
            body,
        };
        self.push_inbox(Event::at(self.seq, now_ms, kind.clone()));
        self.emit(out, now_ms, kind);
        // Only directed messages are acked: a broadcast would draw an ack from
        // every listener at once.
        if parsed.is_broadcast() {
            Ok(())
        } else {
            self.send_ack(out, &parsed.sender, &parsed.msg_id, drawn)
        }
    }

    /// Handle a frame whose AEAD has verified.
    pub fn accept(
        &mut self,
        out: &mut Vec<Action>,
        parsed: &ParsedFrame<'_>,
        body: Vec<u8>,
        rssi: i8,
        now_ms: u64,
        drawn: &Drawn,
    ) -> (result: Result<(), CoreError>)
        requires
            old(self)@.well_formed(),
            old(self)@.fits(now_ms),
        ensures
            (step_of(*final(self), final(out)@), result) == step_of(
                *old(self),
                old(out)@,
            ).accept(parsed@, body@, rssi, now_ms, drawn@),
            final(self)@.well_formed(),
            old(self)@.keyed() ==> final(self)@.keyed(),
    {
        proof {
            bytes::lemma_array_32(parsed.sender);
        }
        let verdict: ReplayVerdict = self.judge(&parsed.sender, parsed.epoch, parsed.counter);
        if verdict != ReplayVerdict::Fresh {
            // A replay is an attack or a stale relay; neither is worth reporting.
            return Ok(());
        }
        let ghost judged = step_of(*self, out@);
        // Verified and fresh, so this peer is real and reachable.
        self.touch_peer(out, parsed.sender, &parsed.nickname, rssi, parsed.hops, now_ms);
        proof {
            protocol::lemma_touch(
                judged,
                parsed.sender,
                parsed.nickname@,
                rssi,
                parsed.hops,
                now_ms,
            );
        }
        match parsed.kind {
            FrameKind::Beacon => {
                self.accept_beacon(out, &parsed.sender, body.as_slice(), now_ms, drawn);
                Ok(())
            },
            FrameKind::Ack => {
                self.accept_ack(out, &parsed.sender, body.as_slice(), now_ms);
                Ok(())
            },
            FrameKind::SenderKey => self.accept_chain(out, parsed, body.as_slice(), drawn),
            FrameKind::Message => self.accept_message(out, parsed, body, rssi, now_ms, drawn),
        }
    }

    /// Pass a frame on.
    fn pass_on(
        &mut self,
        out: &mut Vec<Action>,
        parsed: &ParsedFrame<'_>,
        data: &[u8],
        now_ms: u64,
    )
        requires
            old(self)@.well_formed(),
            data@.len() >= frame::HEADER_LEN,
        ensures
            step_of(*final(self), final(out)@) == step_of(*old(self), old(out)@).pass_on(
                parsed@,
                data@,
                now_ms,
            ),
            final(self)@.well_formed(),
            old(self)@.keyed() ==> final(self)@.keyed(),
    {
        let ghost before = self@;
        proof {
            bytes::lemma_array_32(parsed.recipient);
            bytes::lemma_array_16(parsed.msg_id);
        }
        let id: PeerId = self.identity.public_id();
        if parsed.ttl <= 1 || bytes::same_32(&parsed.recipient, &id) {
            return;
        }
        if let Ok(copy) = frame::relay(data) {
            let carry: bool = !parsed.is_broadcast() && self.find_peer(
                &parsed.recipient,
            ).is_none();
            push_action(out, Action::Flood { wire: bytes::copy_of(copy.as_slice()) });
            if carry {
                let held: bool = self.carried.store(
                    parsed.recipient,
                    parsed.msg_id,
                    copy,
                    now_ms,
                );
                assert(self@ == (NodeModel { carried: self@.carried, ..before }));
            }
        }
    }

    /// Bytes came off the air.
    pub fn do_ingest(
        &mut self,
        out: &mut Vec<Action>,
        rssi: i8,
        data: &[u8],
        now_ms: u64,
        drawn: &Drawn,
    ) -> (result: Result<(), CoreError>)
        requires
            old(self)@.well_formed(),
            old(self)@.fits(now_ms),
        ensures
            (step_of(*final(self), final(out)@), result) == step_of(
                *old(self),
                old(out)@,
            ).ingest(rssi, data@, now_ms, drawn@),
            final(self)@.well_formed(),
            old(self)@.keyed() ==> final(self)@.keyed(),
    {
        let parsed: ParsedFrame<'_> = match frame::parse(data) {
            Ok(parsed) => parsed,
            Err(error) => {
                return Err(CoreError::Frame(error));
            },
        };
        proof {
            bytes::lemma_array_16(parsed.msg_id);
            frame::law_preambles_agree_with_the_recipient(data@);
        }
        // Loop suppression before any crypto work: cheapest rejection first.
        if self.remember(parsed.msg_id) {
            return Ok(());
        }
        let id: PeerId = self.identity.public_id();
        // Our own frame, repeated by a neighbour, is not someone else's.
        let ours: bool = bytes::same_32(&parsed.sender, &id);
        assert(ours == (parsed.sender@ == id@)) by {
            assert(parsed.sender@ == id@ ==> parsed.sender =~= id);
        }
        if ours {
            return Ok(());
        }
        let to_us: bool = bytes::same_32(&parsed.recipient, &id);
        assert(to_us == (parsed.recipient@ == id@)) by {
            assert(parsed.recipient@ == id@ ==> parsed.recipient =~= id);
        }
        // Only what can be authenticated gets to touch any state. A directed frame
        // for someone else is passed on unopened.
        let result: Result<(), CoreError> = if to_us || parsed.is_broadcast() {
            match self.unseal(&parsed) {
                Ok(body) => self.accept(out, &parsed, body, rssi, now_ms, drawn),
                Err(error) => {
                    // The air is full of other people's traffic: only failures on
                    // frames addressed to us are worth reporting.
                    if !parsed.is_broadcast() {
                        self.fail(out, now_ms, error);
                    }
                    Ok(())
                },
            }
        } else {
            Ok(())
        };
        // Whatever came of it here, the frame is the neighbours' too.
        self.pass_on(out, &parsed, data, now_ms);
        result
    }

    // --- Housekeeping --------------------------------------------------------------

    /// Build the beacon and ask for it to be advertised. It announces us, and
    /// publishes the signed prekey that others need to send us forward-secret mail.
    pub fn send_beacon(
        &mut self,
        out: &mut Vec<Action>,
        starting: bool,
        now_ms: u64,
        drawn: &Drawn,
    )
        requires
            old(self)@.counter < u64::MAX,
        ensures
            step_of(*final(self), final(out)@) == step_of(*old(self), old(out)@).send_beacon(
                starting,
                now_ms,
                drawn@,
            ),
            old(self)@.beacon_readable(drawn@),
            old(self)@.well_formed() ==> final(self)@.well_formed(),
            old(self)@.keyed() ==> final(self)@.keyed(),
    {
        let ghost before = self@;
        let counter: u64 = self.counter;
        self.counter = self.counter + 1;
        assert(self@ == (NodeModel { counter: self@.counter, ..before }));
        let built: Result<Vec<u8>, CoreError> = match (&drawn.msg_id, &drawn.nonce) {
            (Some(msg_id), Some(nonce)) => {
                let bundle: Vec<u8> = self.prekeys.bundle(&self.identity);
                let beacon = Outgoing {
                    recipient: crypto::BROADCAST_ID,
                    msg_id: *msg_id,
                    epoch: self.epoch,
                    counter,
                    // A beacon describes us; it is never relayed.
                    ttl: 1,
                    body: bundle.as_slice(),
                    nickname: self.nickname.as_str(),
                    kind: FrameKind::Beacon,
                    sealing: Sealing::Network { key: &self.channel_key },
                };
                frame::build_with_nonce(&self.identity, &beacon, nonce)
            },
            _ => Err(CoreError::Crypto("getrandom failed")),
        };
        assert(crypto::byte_result(built) == before.beacon(drawn@));
        match built {
            Ok(wire) => {
                push_action(out, Action::Beacon { wire, starting });
            },
            Err(error) => {
                self.fail(out, now_ms, error);
            },
        }
    }

    /// Replace the prekey if its time is up.
    fn rotate_prekey(&mut self, out: &mut Vec<Action>, secret: Option<StaticSecret>, now_ms: u64)
        requires
            old(self)@.well_formed(),
        ensures
            step_of(*final(self), final(out)@) == step_of(*old(self), old(out)@).rotate_prekey(
                match secret {
                    Some(fresh) => Some(fresh@),
                    None => None,
                },
                now_ms,
            ),
            final(self)@.well_formed(),
            old(self)@.keyed() ==> final(self)@.keyed(),
    {
        let ghost before = self@;
        if !self.prekeys.is_due(now_ms) {
            return;
        }
        match secret {
            Some(fresh) => {
                self.prekeys.rotate_to(fresh, now_ms);
                assert(self@ == (NodeModel { prekeys: self@.prekeys, ..before }));
            },
            None => {
                self.fail(out, now_ms, CoreError::Crypto("getrandom failed"));
            },
        }
    }

    /// Hand our chain to every peer whose prekey we hold.
    fn share_with_all(&mut self, out: &mut Vec<Action>, shares: &Vec<Drawn>, now_ms: u64)
        requires
            old(self)@.well_formed(),
            old(self)@.counter + old(self)@.peers.len() <= u64::MAX,
            now_ms + outbox::BASE_BACKOFF_MS <= u64::MAX,
        ensures
            step_of(*final(self), final(out)@) == step_of(*old(self), old(out)@).share_with_all(
                old(self)@.peers,
                draws_of(shares@),
                now_ms,
            ),
            final(self)@.well_formed(),
            old(self)@.keyed() ==> final(self)@.keyed(),
    {
        let ghost start = step_of(*self, out@);
        let ghost peers = self@.peers;
        let ghost draws = draws_of(shares@);
        let mut i: usize = 0;
        assert(peers.take(0) =~= Seq::<PeerModel>::empty());
        while i < self.peers.len()
            invariant
                i <= self.peers@.len(),
                self@.peers == peers,
                peers.len() == self.peers@.len(),
                draws == draws_of(shares@),
                self@.well_formed(),
                start.node.keyed() ==> self@.keyed(),
                start.node.counter + peers.len() <= u64::MAX,
                self@.counter <= start.node.counter + i,
                now_ms + outbox::BASE_BACKOFF_MS <= u64::MAX,
                step_of(*self, out@) == start.share_with_all(
                    peers.take(i as int),
                    draws,
                    now_ms,
                ),
            decreases peers.len() - i,
        {
            proof {
                let longer = peers.take(i + 1);
                assert(longer.drop_last() =~= peers.take(i as int));
                assert(longer.last() == peers[i as int]);
                assert(peers[i as int] == self.peers@[i as int]@);
            }
            let peer: PeerId = self.peers[i].id;
            let result: Result<(), CoreError> = if i < shares.len() {
                self.share_chain(out, &peer, now_ms, &shares[i])
            } else {
                self.share_chain(out, &peer, now_ms, &Drawn::nothing())
            };
            if let Err(error) = result {
                self.fail(out, now_ms, error);
            }
            i = i + 1;
        }
        assert(peers.take(i as int) =~= peers);
    }

    /// Whether the sender chain's time is up.
    fn chain_is_due(&self, now_ms: u64) -> (due: bool)
        ensures
            due == (now_ms - self@.chain_since_ms >= self@.chain_rotate_ms),
    {
        now_ms >= self.chain_since_ms && now_ms - self.chain_since_ms >= self.chain_rotate_ms
    }

    /// Replace the sender chain if its time is up.
    fn rotate_chain(
        &mut self,
        out: &mut Vec<Action>,
        chain: Option<(u32, [u8; 32])>,
        shares: &Vec<Drawn>,
        now_ms: u64,
    )
        requires
            old(self)@.well_formed(),
            old(self)@.counter + old(self)@.peers.len() <= u64::MAX,
            now_ms + outbox::BASE_BACKOFF_MS <= u64::MAX,
        ensures
            step_of(*final(self), final(out)@) == step_of(*old(self), old(out)@).rotate_chain(
                match chain {
                    Some((chain_id, key)) => Some((chain_id, key@)),
                    None => None,
                },
                draws_of(shares@),
                now_ms,
            ),
            final(self)@.well_formed(),
            old(self)@.keyed() ==> final(self)@.keyed(),
    {
        let ghost before = self@;
        if !self.chain_is_due(now_ms) {
            return;
        }
        match chain {
            Some((chain_id, key)) => {
                self.chain = SenderChain::starting_with(chain_id, key);
                self.shared_with = Vec::new();
                self.chain_since_ms = now_ms;
                proof {
                    assert(self@.shared_with =~= Seq::<PeerId>::empty());
                    assert(self@ == (NodeModel {
                        chain: self@.chain,
                        shared_with: self@.shared_with,
                        chain_since_ms: now_ms,
                        ..before
                    }));
                }
                self.share_with_all(out, shares, now_ms);
            },
            None => {
                self.fail(out, now_ms, CoreError::Crypto("getrandom failed"));
            },
        }
    }

    /// One round of housekeeping, with what was drawn for it.
    pub fn tick_with(&mut self, now_ms: u64, drawn: TickDrawn) -> (out: Vec<Action>)
        requires
            old(self)@.well_formed(),
            old(self)@.fits(now_ms),
        ensures
            step_of(*final(self), out@) == protocol::idle(old(self)@).tick(now_ms, drawn@),
            final(self)@.well_formed(),
            old(self)@.keyed() ==> final(self)@.keyed(),
    {
        let mut out: Vec<Action> = Vec::new();
        let ghost before = self@;
        assert(step_of(*self, out@) == protocol::idle(before)) by {
            assert(action_models(out@) =~= Seq::<ActionModel>::empty());
        }
        self.expire_peers(&mut out, now_ms);
        let ghost expired = self@;
        proof {
            protocol::lemma_expire_peers(protocol::idle(before), now_ms);
        }
        let stale: usize = self.carried.expire(now_ms);
        assert(self@ == (NodeModel { carried: self@.carried, ..expired }));
        if !self.running {
            return out;
        }
        proof {
            lemma_retries_fit(self@.outbox, now_ms);
        }
        let ghost swept = step_of(*self, out@);
        self.flush(&mut out, now_ms);
        proof {
            protocol::lemma_flush(swept, now_ms);
        }
        let due: bool = self.prekeys.is_due(now_ms);
        let renewed: bool = due && drawn.prekey.is_some();
        self.rotate_prekey(&mut out, drawn.prekey, now_ms);
        let last: u64 = self.last_beacon_ms;
        // Rotating retires the prekey that peers are addressing, so the beacon has
        // to go out at once; otherwise it goes out again now and then, so that peers
        // who arrive later still find us.
        if renewed || (now_ms >= last && now_ms - last >= BEACON_INTERVAL_MS) {
            self.send_beacon(&mut out, false, now_ms, &drawn.beacon);
        }
        self.rotate_chain(&mut out, drawn.chain, &drawn.shares, now_ms);
        out
    }

    /// Draw what a tick at `now_ms` can use.
    fn draw_for_tick(&self, now_ms: u64) -> (drawn: TickDrawn)
        ensures
            drawn@.suits(self@, now_ms),
            drawn@.full_length(),
    {
        let mut shares: Vec<Drawn> = Vec::new();
        let mut chain: Option<(u32, [u8; 32])> = None;
        if self.running && self.chain_is_due(now_ms) {
            if let (Ok(chain_id), Ok(key)) = (crypto::random_u32(), crypto::random_32()) {
                chain = Some((chain_id, key));
            }
            let mut i: usize = 0;
            while i < self.peers.len()
                invariant
                    i <= self.peers@.len(),
                    shares@.len() == i,
                    forall|j: int| 0 <= j < i ==> (#[trigger] shares@[j])@.full_length(),
                decreases self.peers@.len() - i,
            {
                shares.push(Drawn::fresh());
                i = i + 1;
            }
        }
        let prekey: Option<StaticSecret> = if self.running && self.prekeys.is_due(now_ms) {
            crypto::random_secret().ok()
        } else {
            None
        };
        let drawn = TickDrawn { prekey, beacon: Drawn::fresh(), chain, shares };
        proof {
            assert(self@.peers.len() == self.peers@.len());
            assert forall|i: int| 0 <= i < drawn@.shares.len() implies (
            #[trigger] drawn@.shares[i]).full_length() by {
                assert(drawn@.shares[i] == drawn.shares@[i]@);
            }
        }
        drawn
    }

    /// One round of housekeeping.
    pub fn tick(&mut self, now_ms: u64) -> (out: Vec<Action>)
        requires
            old(self)@.well_formed(),
            old(self)@.fits(now_ms),
        ensures
            exists|draw: TickDraw|
                {
                    &&& draw.suits(old(self)@, now_ms)
                    &&& draw.full_length()
                    &&& step_of(*final(self), out@) == #[trigger] protocol::idle(old(self)@).tick(
                        now_ms,
                        draw,
                    )
                },
            final(self)@.well_formed(),
            old(self)@.keyed() ==> final(self)@.keyed(),
    {
        let drawn: TickDrawn = self.draw_for_tick(now_ms);
        self.tick_with(now_ms, drawn)
    }

    // --- Commands and outcomes -----------------------------------------------------

    /// Do what the node is told to, with what was drawn for it.
    pub fn handle_with(&mut self, command: Command, now_ms: u64, drawn: &Drawn) -> (out: Vec<
        Action,
    >)
        requires
            old(self)@.well_formed(),
            old(self)@.fits(now_ms),
        ensures
            step_of(*final(self), out@) == protocol::idle(old(self)@).handle(command@, now_ms, drawn@),
            final(self)@.well_formed(),
            old(self)@.keyed() ==> final(self)@.keyed(),
    {
        let mut out: Vec<Action> = Vec::new();
        assert(action_models(out@) =~= Seq::<ActionModel>::empty());
        let result: Result<(), CoreError> = match command {
            Command::Start => {
                push_action(&mut out, Action::StartScanning);
                Ok(())
            },
            Command::Stop => {
                push_action(&mut out, Action::StopAdvertising);
                Ok(())
            },
            Command::Ingest { rssi, bytes } => self.do_ingest(
                &mut out,
                rssi,
                bytes.as_slice(),
                now_ms,
                drawn,
            ),
            Command::Send { to, body, msg_id } => self.do_send(
                &mut out,
                to,
                body.as_slice(),
                msg_id,
                now_ms,
                drawn,
            ),
            Command::Shutdown => Ok(()),
        };
        if let Err(error) = result {
            self.fail(&mut out, now_ms, error);
        }
        out
    }

    /// Do what the node is told to.
    pub fn handle(&mut self, command: Command, now_ms: u64) -> (out: Vec<Action>)
        requires
            old(self)@.well_formed(),
            old(self)@.fits(now_ms),
        ensures
            exists|draw: Draw|
                draw.full_length() && step_of(*final(self), out@) == #[trigger] protocol::idle(
                    old(self)@,
                ).handle(command@, now_ms, draw),
            final(self)@.well_formed(),
            old(self)@.keyed() ==> final(self)@.keyed(),
    {
        let drawn: Drawn = Drawn::fresh();
        self.handle_with(command, now_ms, &drawn)
    }

    /// Scanning has started, or not, with what was drawn for the first beacon.
    pub fn scanning_started_with(
        &mut self,
        result: Result<(), CoreError>,
        now_ms: u64,
        drawn: &Drawn,
    ) -> (out: Vec<Action>)
        requires
            old(self)@.well_formed(),
            old(self)@.fits(now_ms),
        ensures
            step_of(*final(self), out@) == protocol::idle(old(self)@).scanning_started(
                result,
                now_ms,
                drawn@,
            ),
            final(self)@.well_formed(),
            old(self)@.keyed() ==> final(self)@.keyed(),
    {
        let mut out: Vec<Action> = Vec::new();
        assert(action_models(out@) =~= Seq::<ActionModel>::empty());
        let ghost before = self@;
        match result {
            Ok(_) => {
                self.running = true;
                assert(self@ == (NodeModel { running: true, ..before }));
                self.send_beacon(&mut out, true, now_ms, drawn);
            },
            Err(error) => {
                self.fail(&mut out, now_ms, error);
            },
        }
        out
    }

    /// Scanning has started, or not.
    pub fn scanning_started(&mut self, result: Result<(), CoreError>, now_ms: u64) -> (out: Vec<
        Action,
    >)
        requires
            old(self)@.well_formed(),
            old(self)@.fits(now_ms),
        ensures
            exists|draw: Draw|
                draw.full_length() && step_of(*final(self), out@) == #[trigger] protocol::idle(
                    old(self)@,
                ).scanning_started(result, now_ms, draw),
            final(self)@.well_formed(),
            old(self)@.keyed() ==> final(self)@.keyed(),
    {
        let drawn: Drawn = Drawn::fresh();
        self.scanning_started_with(result, now_ms, &drawn)
    }

    /// The beacon is on the air, or not.
    pub fn beacon_sent(&mut self, result: Result<(), CoreError>, starting: bool, now_ms: u64) -> (
        out: Vec<Action>)
        requires
            old(self)@.well_formed(),
        ensures
            step_of(*final(self), out@) == protocol::idle(old(self)@).beacon_sent(result, starting, now_ms),
            final(self)@.well_formed(),
            old(self)@.keyed() ==> final(self)@.keyed(),
    {
        let mut out: Vec<Action> = Vec::new();
        assert(action_models(out@) =~= Seq::<ActionModel>::empty());
        let ghost before = self@;
        match result {
            Ok(_) => {
                self.last_beacon_ms = now_ms;
                assert(self@ == (NodeModel { last_beacon_ms: now_ms, ..before }));
                if starting {
                    self.emit(&mut out, now_ms, EventKind::TransportState { running: true });
                }
            },
            Err(error) => {
                self.fail(&mut out, now_ms, error);
            },
        }
        out
    }

    /// Advertising has stopped, or not.
    pub fn advertising_stopped(&mut self, result: Result<(), CoreError>, now_ms: u64) -> (out: Vec<
        Action,
    >)
        requires
            old(self)@.well_formed(),
        ensures
            step_of(*final(self), out@) == protocol::idle(old(self)@).advertising_stopped(result, now_ms),
            final(self)@.well_formed(),
            old(self)@.keyed() ==> final(self)@.keyed(),
    {
        let mut out: Vec<Action> = Vec::new();
        assert(action_models(out@) =~= Seq::<ActionModel>::empty());
        match result {
            Ok(_) => {
                push_action(&mut out, Action::StopScanning);
            },
            Err(error) => {
                self.fail(&mut out, now_ms, error);
            },
        }
        out
    }

    /// Scanning has stopped, or not.
    pub fn scanning_stopped(&mut self, result: Result<(), CoreError>, now_ms: u64) -> (out: Vec<
        Action,
    >)
        requires
            old(self)@.well_formed(),
        ensures
            step_of(*final(self), out@) == protocol::idle(old(self)@).scanning_stopped(result, now_ms),
            final(self)@.well_formed(),
            old(self)@.keyed() ==> final(self)@.keyed(),
    {
        let mut out: Vec<Action> = Vec::new();
        assert(action_models(out@) =~= Seq::<ActionModel>::empty());
        let ghost before = self@;
        match result {
            Ok(_) => {
                self.running = false;
                assert(self@ == (NodeModel { running: false, ..before }));
                self.emit(&mut out, now_ms, EventKind::TransportState { running: false });
            },
            Err(error) => {
                self.fail(&mut out, now_ms, error);
            },
        }
        out
    }

    /// The node is being taken down: it no longer runs, and says nothing about it.
    pub fn halt(&mut self)
        requires
            old(self)@.well_formed(),
        ensures
            final(self)@ == (NodeModel { running: false, ..old(self)@ }),
            final(self)@.well_formed(),
            old(self)@.keyed() ==> final(self)@.keyed(),
    {
        let ghost before = self@;
        self.running = false;
        assert(self@ == (NodeModel { running: false, ..before }));
    }

    // --- Setting up and asking ---------------------------------------------------

    /// A node made of given keys.
    pub fn assemble(
        config: Config,
        identity: Identity,
        epoch: u64,
        prekey: StaticSecret,
        chain_id: u32,
        chain_key: [u8; 32],
        now_ms: u64,
    ) -> (worker: Self)
        ensures
            worker@ == NodeModel::started(
                config,
                identity.seed(),
                identity.id(),
                epoch,
                prekey@,
                chain_id,
                chain_key@,
                now_ms,
            ),
            worker@.well_formed(),
            worker@.keyed(),
    {
        let id: PeerId = identity.public_id();
        let channel_key: [u8; 32] = crypto::network_key(config.channel_secret.as_slice());
        let worker = Worker {
            nickname: config.nickname,
            ttl: config.ttl,
            chain_rotate_ms: config.chain_rotate_ms,
            identity,
            channel_key,
            epoch,
            counter: 0,
            running: false,
            seq: 0,
            peers: Vec::new(),
            inbox: VecDeque::new(),
            outbox: Outbox::default(),
            prekeys: PrekeyRing::starting_with(prekey, now_ms),
            peer_prekeys: Table::new(),
            replay: Table::new(),
            seen: VecDeque::new(),
            chain: SenderChain::starting_with(chain_id, chain_key),
            shared_with: Vec::new(),
            chain_since_ms: now_ms,
            chains: ChainStore::default(),
            carried: RelayCache::default(),
            last_beacon_ms: 0,
        };
        proof {
            assert(worker@.peers =~= Seq::<PeerModel>::empty());
            assert(worker@.inbox =~= Seq::<EventModel>::empty());
            assert(worker@.replay =~= Map::<PeerId, WindowModel>::empty());
        }
        worker
    }

    /// A node with fresh keys, and a fresh identity unless the settings name one.
    /// Without an epoch in the settings, the session is stamped with the clock.
    /// The only failure is that the system has no randomness.
    pub fn new(config: Config, now_ms: u64) -> (worker: Result<Self, CoreError>)
        ensures
            worker matches Ok(node) ==> node@ == NodeModel::started(
                config,
                node@.seed,
                node@.id,
                protocol::session_epoch(config.epoch, now_ms),
                node@.prekeys.current.secret,
                node@.chain.chain_id,
                node@.chain.key,
                now_ms,
            ),
            worker matches Ok(node) ==> (config.identity_seed matches Some(seed) ==> node@.seed
                == seed@),
            worker matches Ok(node) ==> node@.well_formed() && node@.keyed(),
            worker matches Err(error) ==> error == CoreError::Crypto("getrandom failed"),
    {
        let identity: Identity = match config.identity_seed {
            Some(seed) => Identity::from_seed(seed),
            None => match Identity::generate() {
                Ok(identity) => identity,
                Err(error) => {
                    return Err(error);
                },
            },
        };
        let epoch: u64 = match config.epoch {
            Some(epoch) => epoch,
            None => now_ms,
        };
        let prekey: StaticSecret = match crypto::random_secret() {
            Ok(secret) => secret,
            Err(error) => {
                return Err(error);
            },
        };
        let chain_id: u32 = match crypto::random_u32() {
            Ok(chain_id) => chain_id,
            Err(error) => {
                return Err(error);
            },
        };
        let chain_key: [u8; 32] = match crypto::random_32() {
            Ok(key) => key,
            Err(error) => {
                return Err(error);
            },
        };
        Ok(Worker::assemble(config, identity, epoch, prekey, chain_id, chain_key, now_ms))
    }

    /// Whether a step at `now_ms` stays inside the range of the clock and of the
    /// counters.
    pub fn ready_for(&self, now_ms: u64) -> (ready: bool)
        ensures
            ready == self@.fits(now_ms),
    {
        if now_ms > u64::MAX - outbox::MAX_BACKOFF_MS {
            return false;
        }
        let peers: u64 = self.peers.len() as u64;
        assert(self@.peers.len() == self.peers@.len());
        if peers > u64::MAX - 2 || self.counter > u64::MAX - 2 - peers {
            return false;
        }
        self.outbox.has_attempts_left()
    }

    pub fn public_key(&self) -> (id: PeerId)
        ensures
            id == self@.id,
    {
        self.identity.public_id()
    }

    pub fn is_running(&self) -> (running: bool)
        ensures
            running == self@.running,
    {
        self.running
    }

    /// Number of messages of the user that await an ack.
    pub fn outbox_len(&self) -> (len: usize)
        ensures
            len == outbox::user_messages(self@.outbox).len(),
    {
        self.outbox.user_len()
    }

    /// Number of frames carried for others.
    pub fn carried_len(&self) -> (len: usize)
        ensures
            len == self@.carried.len(),
    {
        self.carried.len()
    }

    /// Take the oldest message that nobody has collected.
    pub fn receive_message(&mut self) -> (event: Option<Event>)
        requires
            old(self)@.well_formed(),
        ensures
            match event {
                Some(event) => {
                    &&& old(self)@.inbox.len() > 0
                    &&& event@ == old(self)@.inbox[0]
                    &&& final(self)@ == (NodeModel {
                        inbox: old(self)@.inbox.drop_first(),
                        ..old(self)@
                    })
                },
                None => old(self)@.inbox.len() == 0 && final(self)@ == old(self)@,
            },
            final(self)@.well_formed(),
            old(self)@.keyed() ==> final(self)@.keyed(),
    {
        let ghost before = self@;
        let event: Option<Event> = self.inbox.pop_front();
        proof {
            if event is Some {
                assert(self@.inbox =~= before.inbox.drop_first());
                assert(self@ == (NodeModel { inbox: self@.inbox, ..before }));
            } else {
                assert(self@.inbox =~= before.inbox);
            }
        }
        event
    }

    /// The peers we have heard from lately.
    pub fn peers(&self) -> (peers: Vec<Peer>)
        ensures
            peer::peer_models(peers@) == self@.peers,
    {
        let mut copy: Vec<Peer> = Vec::new();
        let mut i: usize = 0;
        while i < self.peers.len()
            invariant
                i <= self.peers@.len(),
                copy@.len() == i,
                forall|j: int| 0 <= j < i ==> (#[trigger] copy@[j])@ == self.peers@[j]@,
            decreases self.peers@.len() - i,
        {
            copy.push(self.peers[i].clone());
            i = i + 1;
        }
        assert(peer::peer_models(copy@) =~= self@.peers);
        copy
    }

    /// Take the next event sequence number. It wraps around.
    pub fn next_seq(&mut self) -> (seq: u32)
        ensures
            seq == old(self)@.seq,
            final(self)@ == (NodeModel { seq: protocol::seq_after(seq), ..old(self)@ }),
            old(self)@.well_formed() ==> final(self)@.well_formed(),
            old(self)@.keyed() ==> final(self)@.keyed(),
    {
        let seq: u32 = self.seq;
        self.seq = if seq == u32::MAX {
            0
        } else {
            seq + 1
        };
        seq
    }
}

// ---------------------------------------------------------------------------
// Lemmas
// ---------------------------------------------------------------------------

/// A node that fits can retry everything, also what a peer's arrival wakes.
proof fn lemma_retries_fit(queue: Seq<PendingModel>, now_ms: u64)
    requires
        now_ms + outbox::MAX_BACKOFF_MS <= u64::MAX,
        forall|i: int| 0 <= i < queue.len() ==> (#[trigger] queue[i]).attempts < u32::MAX,
    ensures
        outbox::retries_fit(queue, now_ms),
{
    assert forall|i: int| 0 <= i < queue.len() && (#[trigger] queue[i]).retries(now_ms) implies {
        &&& queue[i].attempts < u32::MAX
        &&& now_ms + outbox::backoff_ms((queue[i].attempts + 1) as u32) <= u64::MAX
    } by {
        outbox::law_backoff_grows_and_caps(0, (queue[i].attempts + 1) as u32);
    }
}

proof fn lemma_wake_fits(node: NodeModel, id: PeerId, now_ms: u64)
    requires
        node.fits(now_ms),
    ensures
        outbox::retries_fit(outbox::after_wake(node.outbox, id, now_ms), now_ms),
{
    let woken = outbox::after_wake(node.outbox, id, now_ms);
    assert forall|i: int| 0 <= i < woken.len() implies (#[trigger] woken[i]).attempts
        < u32::MAX by {
        assert(woken[i] == node.outbox[i].woken(id, now_ms));
    }
    lemma_retries_fit(woken, now_ms);
}

} // verus!
