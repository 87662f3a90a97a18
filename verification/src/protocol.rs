//! What a node does, as a function of what it knows.
//!
//! This is the model the node's contracts speak of: its state, the actions it asks
//! the platform for, and each step it takes. A step that needs random numbers has
//! them as arguments; where one is `None`, the system had no randomness to give.
use vstd::prelude::*;

use crate::bytes;
use crate::config::Config;
use crate::crypto;
use crate::crypto::PeerId;
use crate::error::CoreError;
use crate::event::{EventKindModel, EventModel};
use crate::frame;
use crate::frame::{FrameKind, FrameModel, OpeningModel, OutgoingModel, SealingModel};
use crate::outbox;
use crate::outbox::{DueModel, PendingModel, Traffic};
use crate::peer::PeerModel;
use crate::prekey;
use crate::prekey::{PeerPrekey, RingModel};
use crate::relaycache;
use crate::relaycache::CarriedModel;
use crate::replay::{ReplayVerdict, WindowModel};
use crate::senderkey;
use crate::senderkey::{ChainModel, HeldModel};

verus! {

/// How many recently seen message ids are remembered for loop suppression.
pub const DEDUP_CAPACITY: usize = 4096;

/// Cadence of the housekeeping tick.
pub const TICK_MS: u64 = 250;

/// A peer not heard from in this long is considered gone.
pub const PEER_TTL_MS: u64 = 30_000;

/// How often to emit the discovery beacon again.
pub const BEACON_INTERVAL_MS: u64 = 2_000;

/// Cap on the inbox, which the application drains synchronously.
pub const INBOX_CAPACITY: usize = 256;

/// Something the platform is asked to do.
pub enum ActionModel {
    StartScanning,
    StopAdvertising,
    StopScanning,
    /// Advertise our beacon, and report how that went.
    Beacon { wire: Seq<u8>, starting: bool },
    /// Put a frame on the air, by advertising.
    Flood { wire: Seq<u8> },
    /// Send a frame over a connection to `peer`; where there is none, flood it.
    Direct { peer: PeerId, wire: Seq<u8> },
    Emit(EventModel),
}

/// Something the node is told to do.
pub enum CommandModel {
    Start,
    Stop,
    Ingest { rssi: i8, data: Seq<u8> },
    Send { to: Option<PeerId>, body: Seq<u8>, msg_id: [u8; 16] },
    Shutdown,
}

/// The random numbers drawn to send one frame: its id, where we choose it, an
/// ephemeral key and a nonce.
pub struct Draw {
    pub msg_id: Option<[u8; 16]>,
    pub ephemeral: Option<Seq<u8>>,
    pub nonce: Option<Seq<u8>>,
}

/// The random numbers drawn in one tick: a prekey secret, what the beacon takes, a
/// sender chain, and what handing that chain to each peer takes.
pub struct TickDraw {
    pub prekey: Option<Seq<u8>>,
    pub beacon: Draw,
    pub chain: Option<(u32, Seq<u8>)>,
    pub shares: Seq<Draw>,
}

impl Draw {
    /// What was drawn is of full length: 32 bytes for a key, 12 for a nonce.
    pub open spec fn full_length(self) -> bool {
        &&& self.ephemeral matches Some(secret) ==> secret.len() == 32
        &&& self.nonce matches Some(nonce) ==> nonce.len() == 12
    }
}

impl TickDraw {
    /// What was drawn is of full length.
    pub open spec fn full_length(self) -> bool {
        &&& self.prekey matches Some(secret) ==> secret.len() == 32
        &&& self.beacon.full_length()
        &&& self.chain matches Some((chain_id, key)) ==> key.len() == 32
        &&& forall|i: int|
            0 <= i < self.shares.len() ==> (#[trigger] self.shares[i]).full_length()
    }

    /// The draw has what a tick of `node` at `now_ms` can use: a prekey only where
    /// one is due, a chain only where one is due, and then a draw for each peer to
    /// hand it to.
    pub open spec fn suits(self, node: NodeModel, now_ms: u64) -> bool {
        let chain_due = node.running && now_ms - node.chain_since_ms >= node.chain_rotate_ms;
        &&& self.prekey is Some ==> node.running && node.prekeys.due(now_ms)
        &&& self.chain is Some ==> chain_due
        &&& self.shares.len() == (if chain_due {
            node.peers.len()
        } else {
            0
        })
    }
}

/// What was drawn for the `i`th of a list of frames: nothing past its end.
pub open spec fn nth_draw(draws: Seq<Draw>, i: int) -> Draw {
    if 0 <= i < draws.len() {
        draws[i]
    } else {
        Draw { msg_id: None, ephemeral: None, nonce: None }
    }
}

/// Everything a node knows.
pub struct NodeModel {
    pub nickname: Seq<char>,
    pub ttl: u8,
    pub chain_rotate_ms: u64,
    /// The identity, in both of its forms.
    pub seed: Seq<u8>,
    pub id: PeerId,
    pub channel_key: Seq<u8>,
    pub epoch: u64,
    pub counter: u64,
    pub running: bool,
    pub seq: u32,
    pub peers: Seq<PeerModel>,
    pub inbox: Seq<EventModel>,
    pub outbox: Seq<PendingModel>,
    pub prekeys: RingModel,
    /// Prekeys advertised by peers, after signature verification.
    pub peer_prekeys: Map<PeerId, PeerPrekey>,
    pub replay: Map<PeerId, WindowModel>,
    pub seen: Seq<[u8; 16]>,
    pub chain: ChainModel,
    /// Who holds our current chain.
    pub shared_with: Seq<PeerId>,
    pub chain_since_ms: u64,
    pub chains: Seq<HeldModel>,
    pub carried: Seq<CarriedModel>,
    pub last_beacon_ms: u64,
}

/// A node in the middle of a step, with the actions asked for so far.
pub struct Step {
    pub node: NodeModel,
    pub out: Seq<ActionModel>,
}

/// A node at the start of a step.
pub open spec fn idle(node: NodeModel) -> Step {
    Step { node, out: Seq::empty() }
}

/// The error of a system without randomness.
pub open spec fn no_randomness() -> CoreError {
    CoreError::Crypto("getrandom failed")
}

/// The event sequence number that follows one. It wraps around.
pub open spec fn seq_after(seq: u32) -> u32 {
    if seq == u32::MAX {
        0
    } else {
        (seq + 1) as u32
    }
}

/// The epoch a session is stamped with: the clock, unless one is given.
pub open spec fn session_epoch(given: Option<u64>, now_ms: u64) -> u64 {
    match given {
        Some(epoch) => epoch,
        None => now_ms,
    }
}

/// Whom a message is addressed to: one peer, or everyone.
pub open spec fn addressee(to: Option<PeerId>) -> PeerId {
    match to {
        Some(peer) => peer,
        None => crypto::BROADCAST_ID,
    }
}

/// How a frame for `to` goes out.
pub open spec fn transmission(to: PeerId, wire: Seq<u8>) -> ActionModel {
    if to == crypto::BROADCAST_ID {
        ActionModel::Flood { wire }
    } else {
        ActionModel::Direct { peer: to, wire }
    }
}

/// Where a peer stands in the table.
pub open spec fn peer_at(peers: Seq<PeerModel>, id: PeerId) -> Option<int> {
    if exists|i: int| 0 <= i < peers.len() && (#[trigger] peers[i]).id == id {
        Some(choose|i: int| 0 <= i < peers.len() && (#[trigger] peers[i]).id == id)
    } else {
        None
    }
}

impl PeerModel {
    /// The peer was heard again. An empty nickname keeps the one we had.
    pub open spec fn heard(self, nickname: Seq<char>, rssi: i8, hops: u8, now_ms: u64) -> PeerModel {
        PeerModel {
            id: self.id,
            nickname: if nickname.len() > 0 {
                nickname
            } else {
                self.nickname
            },
            rssi,
            last_seen_ms: now_ms,
            hops,
        }
    }

    /// The peer has been silent for too long. A clock that went backwards makes
    /// nobody silent.
    pub open spec fn gone(self, now_ms: u64) -> bool {
        now_ms - self.last_seen_ms >= PEER_TTL_MS
    }
}

impl NodeModel {
    /// What holds of a node between steps.
    pub open spec fn well_formed(self) -> bool {
        &&& outbox::queue_well_formed(self.outbox)
        &&& relaycache::cache_well_formed(self.carried)
        &&& senderkey::store_well_formed(self.chains)
        &&& self.prekeys.well_formed()
        &&& self.seen.len() <= DEDUP_CAPACITY
        &&& self.seen.no_duplicates()
        &&& self.inbox.len() <= INBOX_CAPACITY
        &&& self.shared_with.no_duplicates()
        &&& forall|peer: PeerId| #[trigger]
            self.replay.contains_key(peer) ==> self.replay[peer].well_formed()
        &&& forall|i: int, j: int|
            0 <= i < j < self.peers.len() ==> (#[trigger] self.peers[i]).id != (
            #[trigger] self.peers[j]).id
    }

    /// The keys of a node belong together: its id to its seed, each prekey to its
    /// secret, and the chain has a key of full length.
    pub open spec fn keyed(self) -> bool {
        &&& crypto::is_identity(self.seed, self.id@)
        &&& self.prekeys.sound()
        &&& self.chain.key.len() == 32
    }

    /// A step at `now_ms` stays inside the range of the clock and of the counters.
    pub open spec fn fits(self, now_ms: u64) -> bool {
        &&& now_ms + outbox::MAX_BACKOFF_MS <= u64::MAX
        &&& self.counter + self.peers.len() + 2 <= u64::MAX
        &&& forall|i: int|
            0 <= i < self.outbox.len() ==> (#[trigger] self.outbox[i]).attempts < u32::MAX
    }

    /// A node that has just been set up.
    pub open spec fn started(
        config: Config,
        seed: Seq<u8>,
        id: PeerId,
        epoch: u64,
        prekey: Seq<u8>,
        chain_id: u32,
        chain_key: Seq<u8>,
        now_ms: u64,
    ) -> NodeModel {
        NodeModel {
            nickname: config.nickname@,
            ttl: config.ttl,
            chain_rotate_ms: config.chain_rotate_ms,
            seed,
            id,
            channel_key: crypto::channel_key(config.channel_secret@),
            epoch,
            counter: 0,
            running: false,
            seq: 0,
            peers: Seq::empty(),
            inbox: Seq::empty(),
            outbox: Seq::empty(),
            prekeys: RingModel::started(prekey, now_ms),
            peer_prekeys: Map::empty(),
            replay: Map::empty(),
            seen: Seq::empty(),
            chain: ChainModel { chain_id, index: 0, key: chain_key },
            shared_with: Seq::empty(),
            chain_since_ms: now_ms,
            chains: Seq::empty(),
            carried: Seq::empty(),
            last_beacon_ms: 0,
        }
    }

    // --- Duplicate suppression ---------------------------------------------

    /// The id is remembered; the oldest is forgotten where there are too many.
    pub open spec fn remembering(self, id: [u8; 16]) -> NodeModel {
        if self.seen.contains(id) {
            self
        } else {
            let kept = if self.seen.len() >= DEDUP_CAPACITY {
                self.seen.drop_first()
            } else {
                self.seen
            };
            NodeModel { seen: kept.push(id), ..self }
        }
    }

    // --- Sealing -------------------------------------------------------------

    /// A fresh ephemeral key is needed: the frame is directed, and we hold a
    /// verified prekey of the recipient.
    pub open spec fn needs_ephemeral(self, recipient: PeerId) -> bool {
        recipient != crypto::BROADCAST_ID && self.peer_prekeys.contains_key(recipient)
    }

    /// The frame goes out on our sender chain: it is a broadcast, somebody holds
    /// the chain, and the chain is not exhausted.
    pub open spec fn uses_chain(self, recipient: PeerId) -> bool {
        &&& recipient == crypto::BROADCAST_ID
        &&& self.shared_with.len() > 0
        &&& self.chain.index < u32::MAX
    }

    /// The strongest key agreement available.
    pub open spec fn sealing(self, recipient: PeerId, ephemeral: Seq<u8>) -> SealingModel {
        if self.uses_chain(recipient) {
            SealingModel::SenderKey {
                chain_id: self.chain.chain_id,
                index: self.chain.index,
                key: crypto::message_key(self.chain.key),
            }
        } else if recipient == crypto::BROADCAST_ID {
            SealingModel::Network { key: self.channel_key }
        } else if self.peer_prekeys.contains_key(recipient) {
            SealingModel::ForwardSecret {
                ephemeral,
                prekey: self.peer_prekeys[recipient].public@,
                generation: self.peer_prekeys[recipient].generation,
            }
        } else {
            SealingModel::Static
        }
    }

    /// The frame to seal.
    pub open spec fn outgoing(
        self,
        recipient: PeerId,
        msg_id: [u8; 16],
        body: Seq<u8>,
        kind: FrameKind,
        ephemeral: Seq<u8>,
    ) -> OutgoingModel {
        OutgoingModel {
            recipient: recipient@,
            msg_id: msg_id@,
            epoch: self.epoch,
            counter: self.counter,
            ttl: self.ttl,
            body,
            nickname: ""@,
            kind,
            sealing: self.sealing(recipient, ephemeral),
        }
    }

    /// The sealed frame, or why there is none.
    pub open spec fn sealed(
        self,
        recipient: PeerId,
        msg_id: [u8; 16],
        body: Seq<u8>,
        kind: FrameKind,
        draw: Draw,
    ) -> Result<Seq<u8>, CoreError> {
        if self.needs_ephemeral(recipient) && draw.ephemeral is None {
            Err(no_randomness())
        } else if body.len() > frame::MAX_BODY {
            Err(CoreError::InvalidArgument("body exceeds MAX_BODY"))
        } else if draw.nonce is None {
            Err(no_randomness())
        } else {
            frame::built(
                self.seed,
                self.id@,
                self.outgoing(recipient, msg_id, body, kind, draw.ephemeral->Some_0),
                draw.nonce->Some_0,
            )
        }
    }

    /// What [`sealed`](Self::sealed) puts on the air says what it should, and its
    /// recipient can read it.
    pub open spec fn readable(
        self,
        recipient: PeerId,
        msg_id: [u8; 16],
        body: Seq<u8>,
        kind: FrameKind,
        draw: Draw,
    ) -> bool {
        match self.sealed(recipient, msg_id, body, kind, draw) {
            Ok(wire) => frame::reads_back(
                self.id@,
                self.outgoing(recipient, msg_id, body, kind, draw.ephemeral->Some_0),
                draw.nonce->Some_0,
                wire,
            ),
            Err(_) => true,
        }
    }

    /// The node once it has sealed a frame, or tried to: every attempt takes a
    /// counter of its own, and a broadcast on the chain takes its key.
    pub open spec fn after_seal(self, recipient: PeerId) -> NodeModel {
        NodeModel {
            counter: (self.counter + 1) as u64,
            chain: if self.uses_chain(recipient) {
                self.chain.stepped()
            } else {
                self.chain
            },
            ..self
        }
    }

    /// The beacon to seal: it announces us, and publishes our signed prekey. It is
    /// sealed with the channel key and never relayed.
    pub open spec fn announcement(self, msg_id: [u8; 16]) -> OutgoingModel {
        OutgoingModel {
            recipient: crypto::BROADCAST_ID@,
            msg_id: msg_id@,
            epoch: self.epoch,
            counter: self.counter,
            ttl: 1,
            body: prekey::bundle_bytes(
                self.prekeys.current.generation,
                self.prekeys.current.public,
                crypto::ed25519_signature(
                    self.seed,
                    crypto::prekey_statement(
                        self.prekeys.current.generation,
                        self.prekeys.current.public,
                    ),
                ),
            ),
            nickname: self.nickname,
            kind: FrameKind::Beacon,
            sealing: SealingModel::Network { key: self.channel_key },
        }
    }

    /// The sealed beacon, or why there is none.
    pub open spec fn beacon(self, draw: Draw) -> Result<Seq<u8>, CoreError> {
        if draw.msg_id is None || draw.nonce is None {
            Err(no_randomness())
        } else {
            frame::built(
                self.seed,
                self.id@,
                self.announcement(draw.msg_id->Some_0),
                draw.nonce->Some_0,
            )
        }
    }

    /// What [`beacon`](Self::beacon) puts on the air says what it should, every
    /// member of the channel can read it, and it advertises our current prekey.
    pub open spec fn beacon_readable(self, draw: Draw) -> bool {
        match self.beacon(draw) {
            Ok(wire) => {
                &&& frame::reads_back(
                    self.id@,
                    self.announcement(draw.msg_id->Some_0),
                    draw.nonce->Some_0,
                    wire,
                )
                &&& prekey::advertised(
                    self.id@,
                    self.announcement(draw.msg_id->Some_0).body,
                ) == Some((self.prekeys.current.generation, self.prekeys.current.public))
            },
            Err(_) => true,
        }
    }

    // --- Opening -------------------------------------------------------------

    /// The key that goes with how the sender sealed the frame. The choice is driven
    /// by authenticated header bits alone.
    pub open spec fn opening(self, f: FrameModel) -> Result<OpeningModel, CoreError> {
        if f.is_broadcast() {
            match f.sk {
                Some(sk) => match senderkey::position(
                    self.chains,
                    bytes::array_32(f.sender),
                    sk.chain_id,
                ) {
                    Some(at) => match self.chains[at].chain.derived(sk.index) {
                        Some(d) => Ok(OpeningModel::SenderKey { key: d.key }),
                        None => Err(CoreError::Crypto("sender key out of reach")),
                    },
                    None => Err(CoreError::Crypto("unknown sender chain")),
                },
                None => Ok(OpeningModel::Network { key: self.channel_key }),
            }
        } else {
            match f.fs {
                Some(fs) => match self.prekeys.find(fs.generation) {
                    Some(pair) => Ok(OpeningModel::ForwardSecret { prekey_secret: pair.secret }),
                    None => Err(CoreError::Crypto("prekey generation expired")),
                },
                None => Ok(OpeningModel::Static),
            }
        }
    }

    /// What a frame opens to.
    pub open spec fn unsealed(self, f: FrameModel) -> Result<Seq<u8>, CoreError> {
        match self.opening(f) {
            Ok(opening) => frame::opened(self.seed, self.id@, f, opening),
            Err(error) => Err(error),
        }
    }

    /// The node once a frame has opened: the sender's chain moves past its key.
    pub open spec fn after_unseal(self, f: FrameModel) -> NodeModel {
        match f.sk {
            Some(sk) => {
                let peer = bytes::array_32(f.sender);
                match senderkey::position(self.chains, peer, sk.chain_id) {
                    Some(at) => NodeModel {
                        chains: self.chains.update(
                            at,
                            HeldModel {
                                peer,
                                chain_id: sk.chain_id,
                                chain: self.chains[at].chain.committed(
                                    self.chains[at].chain.derived(sk.index)->Some_0,
                                ),
                            },
                        ),
                        ..self
                    },
                    None => self,
                }
            },
            None => self,
        }
    }

    // --- Replay --------------------------------------------------------------

    /// The verdict on an authenticated frame. The first frame of a sender opens
    /// its window.
    pub open spec fn verdict(self, sender: PeerId, epoch: u64, counter: u64) -> ReplayVerdict {
        if self.replay.contains_key(sender) {
            self.replay[sender].verdict(epoch, counter)
        } else {
            ReplayVerdict::Fresh
        }
    }

    /// The node once the frame has been judged.
    pub open spec fn judging(self, sender: PeerId, epoch: u64, counter: u64) -> NodeModel {
        let window = if self.replay.contains_key(sender) {
            self.replay[sender].after(epoch, counter)
        } else {
            WindowModel::opened(epoch, counter)
        };
        NodeModel { replay: self.replay.insert(sender, window), ..self }
    }

    // --- Prekeys of peers ----------------------------------------------------

    /// An advertised prekey is news: the first of its peer, or of a later
    /// generation. Going back would let a captured beacon pin a peer to a prekey
    /// whose secret is closer to expiry.
    pub open spec fn is_news(self, peer: PeerId, generation: u32) -> bool {
        self.peer_prekeys.contains_key(peer) ==> generation > self.peer_prekeys[peer].generation
    }
}

impl Step {
    // --- Output ----------------------------------------------------------------

    /// Tell the application.
    pub open spec fn emit(self, now_ms: u64, kind: EventKindModel) -> Step {
        Step {
            node: NodeModel {
                seq: seq_after(self.node.seq),
                ..self.node
            },
            out: self.out.push(
                ActionModel::Emit(EventModel { seq: self.node.seq, ts_ms: now_ms, kind }),
            ),
        }
    }

    /// Tell the application of an error.
    pub open spec fn fail(self, now_ms: u64, error: CoreError) -> Step {
        self.emit(now_ms, EventKindModel::Error { message: error.message_chars() })
    }

    /// Put a frame on the air, by connection where there is one.
    pub open spec fn transmit(self, to: PeerId, wire: Seq<u8>) -> Step {
        Step { node: self.node, out: self.out.push(transmission(to, wire)) }
    }

    // --- Queue -----------------------------------------------------------------

    /// Hold a directed frame until it is acked. A user message that had to make
    /// room is reported expired.
    pub open spec fn queue(
        self,
        msg_id: [u8; 16],
        peer: PeerId,
        wire: Seq<u8>,
        traffic: Traffic,
        now_ms: u64,
    ) -> Step {
        let rest = outbox::without(self.node.outbox, msg_id);
        let queued = Step {
            node: NodeModel {
                outbox: outbox::with_room(rest).push(
                    PendingModel::fresh(msg_id, peer, wire, traffic, now_ms),
                ),
                ..self.node
            },
            out: self.out,
        };
        if rest.len() >= outbox::CAPACITY && rest[0].traffic == Traffic::User {
            queued.emit(
                now_ms,
                EventKindModel::MessageExpired { msg_id: rest[0].msg_id, reason: "outbox full"@ },
            )
        } else {
            queued
        }
    }

    /// Act on one due entry: retransmit it, or report a user message that expired.
    pub open spec fn settle_one(self, item: DueModel, now_ms: u64) -> Step {
        match item.retry {
            Some(wire) => self.transmit(item.recipient, wire),
            None => if item.traffic == Traffic::User {
                self.emit(
                    now_ms,
                    EventKindModel::MessageExpired { msg_id: item.msg_id, reason: "no ack"@ },
                )
            } else {
                self
            },
        }
    }

    /// Act on due entries, in order.
    pub open spec fn settle(self, items: Seq<DueModel>, now_ms: u64) -> Step
        decreases items.len(),
    {
        if items.len() == 0 {
            self
        } else {
            self.settle(items.drop_last(), now_ms).settle_one(items.last(), now_ms)
        }
    }

    /// Take everything due, whoever it is for, and act on it.
    pub open spec fn flush(self, now_ms: u64) -> Step {
        let due = outbox::all_due(self.node.outbox, now_ms);
        Step {
            node: NodeModel {
                outbox: outbox::after_due(self.node.outbox, now_ms),
                ..self.node
            },
            out: self.out,
        }.settle(due, now_ms)
    }

    // --- Peers -----------------------------------------------------------------

    /// Hand a peer everything carried for it.
    pub open spec fn hand_over(self, id: PeerId) -> Step {
        let frames = relaycache::frames_of(relaycache::held_for(self.node.carried, id));
        Step {
            node: NodeModel {
                carried: relaycache::held_for_others(self.node.carried, id),
                ..self.node
            },
            out: self.out + frames.map_values(|wire: Seq<u8>| transmission(id, wire)),
        }
    }

    /// Make everything queued for a peer due, and if that woke anything, flush.
    pub open spec fn wake(self, id: PeerId, now_ms: u64) -> Step {
        let woken = Step {
            node: NodeModel {
                outbox: outbox::after_wake(self.node.outbox, id, now_ms),
                ..self.node
            },
            out: self.out,
        };
        if self.node.outbox.filter(|p: PendingModel| p.sleeps_for(id, now_ms)).len() > 0 {
            woken.flush(now_ms)
        } else {
            woken
        }
    }

    /// A peer was heard. One that is new is announced, handed what we carry for it,
    /// and sent what we have queued for it.
    pub open spec fn touch(
        self,
        id: PeerId,
        nickname: Seq<char>,
        rssi: i8,
        hops: u8,
        now_ms: u64,
    ) -> Step {
        match peer_at(self.node.peers, id) {
            Some(at) => Step {
                node: NodeModel {
                    peers: self.node.peers.update(
                        at,
                        self.node.peers[at].heard(nickname, rssi, hops, now_ms),
                    ),
                    ..self.node
                },
                out: self.out,
            },
            None => Step {
                node: NodeModel {
                    peers: self.node.peers.push(
                        PeerModel { id, nickname, rssi, last_seen_ms: now_ms, hops },
                    ),
                    ..self.node
                },
                out: self.out,
            }.emit(
                now_ms,
                EventKindModel::PeerDiscovered { peer: id, nickname, rssi, hops },
            ).hand_over(id).wake(id, now_ms),
        }
    }

    /// Announce peers that have gone, in order.
    pub open spec fn announce_lost(self, gone: Seq<PeerModel>, now_ms: u64) -> Step
        decreases gone.len(),
    {
        if gone.len() == 0 {
            self
        } else {
            self.announce_lost(gone.drop_last(), now_ms).emit(
                now_ms,
                EventKindModel::PeerLost { peer: gone.last().id },
            )
        }
    }

    /// Forget the peers that have been silent for too long.
    pub open spec fn expire_peers(self, now_ms: u64) -> Step {
        let gone = self.node.peers.filter(|p: PeerModel| p.gone(now_ms));
        Step {
            node: NodeModel {
                peers: self.node.peers.filter(|p: PeerModel| !p.gone(now_ms)),
                ..self.node
            },
            out: self.out,
        }.announce_lost(gone, now_ms)
    }

    // --- Sending ---------------------------------------------------------------

    /// Send a user message.
    pub open spec fn send(
        self,
        to: Option<PeerId>,
        body: Seq<u8>,
        msg_id: [u8; 16],
        now_ms: u64,
        draw: Draw,
    ) -> (Step, Result<(), CoreError>) {
        let recipient = addressee(to);
        if !self.node.running {
            (self, Err(CoreError::NotRunning))
        } else {
            let after = self.node.after_seal(recipient);
            match self.node.sealed(recipient, msg_id, body, FrameKind::Message, draw) {
                Err(error) => (Step { node: after, out: self.out }, Err(error)),
                Ok(wire) => {
                    let sent = Step { node: after.remembering(msg_id), out: self.out }.transmit(
                        recipient,
                        wire,
                    );
                    match to {
                        Some(peer) => (
                            sent.queue(msg_id, peer, wire, Traffic::User, now_ms),
                            Ok(()),
                        ),
                        None => (
                            sent.emit(
                                now_ms,
                                EventKindModel::MessageDelivered { msg_id, direct: false },
                            ),
                            Ok(()),
                        ),
                    }
                },
            }
        }
    }

    /// Acknowledge a message.
    pub open spec fn acknowledge(self, to: PeerId, acked: [u8; 16], draw: Draw) -> (
        Step,
        Result<(), CoreError>,
    ) {
        match draw.msg_id {
            None => (self, Err(no_randomness())),
            Some(msg_id) => {
                let after = Step { node: self.node.after_seal(to), out: self.out };
                match self.node.sealed(to, msg_id, acked@, FrameKind::Ack, draw) {
                    Err(error) => (after, Err(error)),
                    Ok(wire) => (after.transmit(to, wire), Ok(())),
                }
            },
        }
    }

    /// Hand our sender chain, as it stands, to one peer. It is queued like a
    /// message, but silently, and supersedes what was queued of it before.
    ///
    /// The chain only ever travels forward-secret: without a prekey of the peer it
    /// stays here, and it is never broadcast.
    pub open spec fn share_chain(self, peer: PeerId, now_ms: u64, draw: Draw) -> (
        Step,
        Result<(), CoreError>,
    ) {
        match draw.msg_id {
            _ if !self.node.needs_ephemeral(peer) => (self, Ok(())),
            None => (self, Err(no_randomness())),
            Some(msg_id) => {
                let after = self.node.after_seal(peer);
                match self.node.sealed(
                    peer,
                    msg_id,
                    self.node.chain.encoded(),
                    FrameKind::SenderKey,
                    draw,
                ) {
                    Err(error) => (Step { node: after, out: self.out }, Err(error)),
                    Ok(wire) => {
                        let known = after.remembering(msg_id);
                        let node = NodeModel {
                            outbox: outbox::without_internal(known.outbox, peer),
                            shared_with: if known.shared_with.contains(peer) {
                                known.shared_with
                            } else {
                                known.shared_with.push(peer)
                            },
                            ..known
                        };
                        (
                            Step { node, out: self.out }.transmit(peer, wire).queue(
                                msg_id,
                                peer,
                                wire,
                                Traffic::Internal,
                                now_ms,
                            ),
                            Ok(()),
                        )
                    },
                }
            },
        }
    }

    // --- Receiving -------------------------------------------------------------

    /// A verified beacon: an advertised prekey that is news is kept, and the peer
    /// is handed our chain if its prekey is news or it does not hold the chain.
    ///
    /// The beacon is good whether or not the chain could be handed over: a peer that
    /// still does not hold it is tried again at its next beacon.
    pub open spec fn accept_beacon(
        self,
        sender: PeerId,
        body: Seq<u8>,
        now_ms: u64,
        draw: Draw,
    ) -> Step {
        match prekey::advertised(sender@, body) {
            None => self,
            Some((generation, public)) => {
                let news = self.node.is_news(sender, generation);
                let known = if news {
                    Step {
                        node: NodeModel {
                            peer_prekeys: self.node.peer_prekeys.insert(
                                sender,
                                PeerPrekey { generation, public: bytes::array_32(public) },
                            ),
                            ..self.node
                        },
                        out: self.out,
                    }
                } else {
                    self
                };
                if news || !known.node.shared_with.contains(sender) {
                    known.share_chain(sender, now_ms, draw).0
                } else {
                    known
                }
            },
        }
    }

    /// A verified ack: the message leaves the queue, and if it was the user's, its
    /// delivery is reported. An ack for nothing we have, or from anyone but the peer
    /// that the message is for, is ignored.
    pub open spec fn accept_ack(self, sender: PeerId, body: Seq<u8>, now_ms: u64) -> Step {
        let acked = bytes::array_16(body);
        if body.len() != 16 || !outbox::queued_for(self.node.outbox, acked, sender) {
            self
        } else {
            let cleared = Step {
                node: NodeModel { outbox: outbox::without(self.node.outbox, acked), ..self.node },
                out: self.out,
            };
            let at = choose|i: int|
                0 <= i < self.node.outbox.len() && (#[trigger] self.node.outbox[i]).msg_id == acked
                    && self.node.outbox[i].recipient == sender;
            if self.node.outbox[at].traffic == Traffic::User {
                cleared.emit(
                    now_ms,
                    EventKindModel::MessageDelivered { msg_id: acked, direct: true },
                )
            } else {
                cleared
            }
        }
    }

    /// A verified sender-key distribution: the chain is installed, and the frame
    /// acked. One that is broadcast or malformed is ignored.
    pub open spec fn accept_chain(self, f: FrameModel, body: Seq<u8>, draw: Draw) -> (
        Step,
        Result<(), CoreError>,
    ) {
        let sender = bytes::array_32(f.sender);
        match ChainModel::decoded(body) {
            Some(d) if !f.is_broadcast() => Step {
                node: NodeModel {
                    chains: senderkey::installed(self.node.chains, sender, d).0,
                    ..self.node
                },
                out: self.out,
            }.acknowledge(sender, bytes::array_16(f.msg_id), draw),
            _ => (self, Ok(())),
        }
    }

    /// A verified message: it goes into the inbox and to the application, and if it
    /// is directed, it is acked.
    pub open spec fn accept_message(
        self,
        f: FrameModel,
        body: Seq<u8>,
        rssi: i8,
        now_ms: u64,
        draw: Draw,
    ) -> (Step, Result<(), CoreError>) {
        let sender = bytes::array_32(f.sender);
        let kind = EventKindModel::MessageReceived {
            sender,
            msg_id: bytes::array_16(f.msg_id),
            ttl: f.ttl,
            hops: f.hops,
            rssi,
            forward_secret: f.is_forward_secret(),
            body,
        };
        let room = if self.node.inbox.len() >= INBOX_CAPACITY {
            self.node.inbox.drop_first()
        } else {
            self.node.inbox
        };
        let delivered = Step {
            node: NodeModel {
                inbox: room.push(EventModel { seq: self.node.seq, ts_ms: now_ms, kind }),
                ..self.node
            },
            out: self.out,
        }.emit(now_ms, kind);
        if f.is_broadcast() {
            (delivered, Ok(()))
        } else {
            delivered.acknowledge(sender, bytes::array_16(f.msg_id), draw)
        }
    }

    /// A frame whose AEAD has verified. The replay check comes here, after
    /// verification, so that forged counters cannot lock out the real sender; a
    /// replay is dropped silently.
    pub open spec fn accept(
        self,
        f: FrameModel,
        body: Seq<u8>,
        rssi: i8,
        now_ms: u64,
        draw: Draw,
    ) -> (Step, Result<(), CoreError>) {
        let sender = bytes::array_32(f.sender);
        let judged = Step {
            node: self.node.judging(sender, f.epoch, f.counter),
            out: self.out,
        };
        if self.node.verdict(sender, f.epoch, f.counter) != ReplayVerdict::Fresh {
            (judged, Ok(()))
        } else {
            let heard = judged.touch(sender, f.nickname, rssi, f.hops, now_ms);
            match f.kind {
                FrameKind::Beacon => (heard.accept_beacon(sender, body, now_ms, draw), Ok(())),
                FrameKind::Ack => (heard.accept_ack(sender, body, now_ms), Ok(())),
                FrameKind::SenderKey => heard.accept_chain(f, body, draw),
                FrameKind::Message => heard.accept_message(f, body, rssi, now_ms, draw),
            }
        }
    }

    /// Pass a frame on: it is flooded with one hop less to live. A directed frame
    /// for a peer we cannot see is also carried.
    pub open spec fn pass_on(self, f: FrameModel, data: Seq<u8>, now_ms: u64) -> Step {
        let recipient = bytes::array_32(f.recipient);
        if f.ttl <= 1 || recipient == self.node.id {
            self
        } else {
            let copy = frame::relayed(data);
            let flooded = Step {
                node: self.node,
                out: self.out.push(ActionModel::Flood { wire: copy }),
            };
            if f.is_broadcast() || peer_at(self.node.peers, recipient) is Some {
                flooded
            } else {
                Step {
                    node: NodeModel {
                        carried: relaycache::stored(
                            self.node.carried,
                            CarriedModel {
                                recipient,
                                msg_id: bytes::array_16(f.msg_id),
                                wire: copy,
                                cached_at_ms: now_ms,
                            },
                        ),
                        ..self.node
                    },
                    out: flooded.out,
                }
            }
        }
    }

    /// Bytes came off the air.
    ///
    /// What is not a frame is an error. A frame seen before, or of our own making,
    /// is dropped. One that is for us, or for everyone, is opened: only what
    /// authenticates touches any state, and a failure is reported only where the
    /// frame was addressed to us. Last, whatever came of that, the frame is passed on.
    pub open spec fn ingest(self, rssi: i8, data: Seq<u8>, now_ms: u64, draw: Draw) -> (
        Step,
        Result<(), CoreError>,
    ) {
        match frame::parsed(data) {
            Err(error) => (self, Err(CoreError::Frame(error))),
            Ok(f) => {
                let msg_id = bytes::array_16(f.msg_id);
                if self.node.seen.contains(msg_id) {
                    (self, Ok(()))
                } else {
                    let fresh = Step { node: self.node.remembering(msg_id), out: self.out };
                    if f.sender == self.node.id@ {
                        (fresh, Ok(()))
                    } else if f.recipient == self.node.id@ || f.is_broadcast() {
                        match fresh.node.unsealed(f) {
                            Ok(body) => {
                                let opened = Step {
                                    node: fresh.node.after_unseal(f),
                                    out: fresh.out,
                                };
                                let (step, result) = opened.accept(f, body, rssi, now_ms, draw);
                                (step.pass_on(f, data, now_ms), result)
                            },
                            Err(error) => if f.is_broadcast() {
                                (fresh.pass_on(f, data, now_ms), Ok(()))
                            } else {
                                (
                                    fresh.fail(now_ms, error).pass_on(f, data, now_ms),
                                    Ok(()),
                                )
                            },
                        }
                    } else {
                        (fresh.pass_on(f, data, now_ms), Ok(()))
                    }
                }
            },
        }
    }

    // --- Housekeeping ----------------------------------------------------------

    /// Build the beacon and ask for it to be advertised.
    pub open spec fn send_beacon(self, starting: bool, now_ms: u64, draw: Draw) -> Step {
        let after = Step {
            node: NodeModel { counter: (self.node.counter + 1) as u64, ..self.node },
            out: self.out,
        };
        match self.node.beacon(draw) {
            Ok(wire) => Step {
                node: after.node,
                out: self.out.push(ActionModel::Beacon { wire, starting }),
            },
            Err(error) => after.fail(now_ms, error),
        }
    }

    /// Hand our chain to every listed peer whose prekey we hold.
    pub open spec fn share_with_all(
        self,
        peers: Seq<PeerModel>,
        draws: Seq<Draw>,
        now_ms: u64,
    ) -> Step
        decreases peers.len(),
    {
        if peers.len() == 0 {
            self
        } else {
            let before = self.share_with_all(peers.drop_last(), draws, now_ms);
            Step::reporting(
                before.share_chain(peers.last().id, now_ms, nth_draw(draws, peers.len() - 1)),
                now_ms,
            )
        }
    }

    /// Throw the sender chain away and hand a fresh one to every peer, in one go:
    /// no broadcast can fall between the two.
    pub open spec fn replace_chain(
        self,
        chain: (u32, Seq<u8>),
        draws: Seq<Draw>,
        now_ms: u64,
    ) -> Step {
        Step {
            node: NodeModel {
                chain: ChainModel { chain_id: chain.0, index: 0, key: chain.1 },
                shared_with: Seq::empty(),
                chain_since_ms: now_ms,
                ..self.node
            },
            out: self.out,
        }.share_with_all(self.node.peers, draws, now_ms)
    }

    /// Replace the chain if its time is up. A clock that went backwards makes
    /// nothing due.
    pub open spec fn rotate_chain(
        self,
        chain: Option<(u32, Seq<u8>)>,
        draws: Seq<Draw>,
        now_ms: u64,
    ) -> Step {
        if now_ms - self.node.chain_since_ms < self.node.chain_rotate_ms {
            self
        } else {
            match chain {
                Some(fresh) => self.replace_chain(fresh, draws, now_ms),
                None => self.fail(now_ms, no_randomness()),
            }
        }
    }

    /// Replace the prekey if its time is up.
    pub open spec fn rotate_prekey(self, secret: Option<Seq<u8>>, now_ms: u64) -> Step {
        if !self.node.prekeys.due(now_ms) {
            self
        } else {
            match secret {
                Some(fresh) => Step {
                    node: NodeModel {
                        prekeys: self.node.prekeys.rotated(fresh, now_ms),
                        ..self.node
                    },
                    out: self.out,
                },
                None => self.fail(now_ms, no_randomness()),
            }
        }
    }

    /// One round of housekeeping. Silent peers and stale carried frames go whether
    /// or not the node is running; everything else waits until it is.
    pub open spec fn tick(self, now_ms: u64, draw: TickDraw) -> Step {
        let expired = self.expire_peers(now_ms);
        let swept = Step {
            node: NodeModel {
                carried: relaycache::still_fresh(expired.node.carried, now_ms),
                ..expired.node
            },
            out: expired.out,
        };
        if !swept.node.running {
            swept
        } else {
            let flushed = swept.flush(now_ms);
            let rotated = flushed.rotate_prekey(draw.prekey, now_ms);
            let renewed = flushed.node.prekeys.due(now_ms) && draw.prekey is Some;
            let announced = if renewed || now_ms - rotated.node.last_beacon_ms
                >= BEACON_INTERVAL_MS {
                rotated.send_beacon(false, now_ms, draw.beacon)
            } else {
                rotated
            };
            announced.rotate_chain(draw.chain, draw.shares, now_ms)
        }
    }

    // --- Commands and outcomes -------------------------------------------------

    /// A step that can fail: a failure is told to the application.
    pub open spec fn reporting(outcome: (Step, Result<(), CoreError>), now_ms: u64) -> Step {
        match outcome.1 {
            Ok(_) => outcome.0,
            Err(error) => outcome.0.fail(now_ms, error),
        }
    }

    /// Ask the platform for something.
    pub open spec fn ask(self, action: ActionModel) -> Step {
        Step { node: self.node, out: self.out.push(action) }
    }

    /// Do what the node is told to.
    pub open spec fn handle(self, command: CommandModel, now_ms: u64, draw: Draw) -> Step {
        match command {
            CommandModel::Start => self.ask(ActionModel::StartScanning),
            CommandModel::Stop => self.ask(ActionModel::StopAdvertising),
            CommandModel::Ingest { rssi, data } => Step::reporting(
                self.ingest(rssi, data, now_ms, draw),
                now_ms,
            ),
            CommandModel::Send { to, body, msg_id } => Step::reporting(
                self.send(to, body, msg_id, now_ms, draw),
                now_ms,
            ),
            CommandModel::Shutdown => self,
        }
    }

    /// Scanning has started, or not. Once it has, the node runs, and announces
    /// itself.
    pub open spec fn scanning_started(
        self,
        result: Result<(), CoreError>,
        now_ms: u64,
        draw: Draw,
    ) -> Step {
        match result {
            Ok(_) => Step {
                node: NodeModel { running: true, ..self.node },
                out: self.out,
            }.send_beacon(true, now_ms, draw),
            Err(error) => self.fail(now_ms, error),
        }
    }

    /// The beacon is on the air, or not. The first one of a session completes its
    /// start.
    pub open spec fn beacon_sent(
        self,
        result: Result<(), CoreError>,
        starting: bool,
        now_ms: u64,
    ) -> Step {
        match result {
            Ok(_) => {
                let sent = Step {
                    node: NodeModel { last_beacon_ms: now_ms, ..self.node },
                    out: self.out,
                };
                if starting {
                    sent.emit(now_ms, EventKindModel::TransportState { running: true })
                } else {
                    sent
                }
            },
            Err(error) => self.fail(now_ms, error),
        }
    }

    /// Advertising has stopped, or not. Scanning is next.
    pub open spec fn advertising_stopped(
        self,
        result: Result<(), CoreError>,
        now_ms: u64,
    ) -> Step {
        match result {
            Ok(_) => self.ask(ActionModel::StopScanning),
            Err(error) => self.fail(now_ms, error),
        }
    }

    /// Scanning has stopped, or not. Once it has, the node no longer runs.
    pub open spec fn scanning_stopped(self, result: Result<(), CoreError>, now_ms: u64) -> Step {
        match result {
            Ok(_) => Step {
                node: NodeModel { running: false, ..self.node },
                out: self.out,
            }.emit(now_ms, EventKindModel::TransportState { running: false }),
            Err(error) => self.fail(now_ms, error),
        }
    }
}

// ---------------------------------------------------------------------------
// What steps leave alone
// ---------------------------------------------------------------------------

/// `longer` is `shorter` with actions added.
pub open spec fn extends(longer: Seq<ActionModel>, shorter: Seq<ActionModel>) -> bool {
    &&& shorter.len() <= longer.len()
    &&& forall|i: int| 0 <= i < shorter.len() ==> #[trigger] longer[i] == shorter[i]
}

/// Announcing lost peers changes nothing but the sequence number.
pub proof fn lemma_announce_lost(step: Step, gone: Seq<PeerModel>, now_ms: u64)
    ensures
        step.announce_lost(gone, now_ms).node == (NodeModel {
            seq: step.announce_lost(gone, now_ms).node.seq,
            ..step.node
        }),
        extends(step.announce_lost(gone, now_ms).out, step.out),
    decreases gone.len(),
{
    if gone.len() > 0 {
        lemma_announce_lost(step, gone.drop_last(), now_ms);
    }
}

/// Forgetting silent peers changes nothing but the table and the sequence number.
pub proof fn lemma_expire_peers(step: Step, now_ms: u64)
    ensures
        step.expire_peers(now_ms).node == (NodeModel {
            seq: step.expire_peers(now_ms).node.seq,
            peers: step.expire_peers(now_ms).node.peers,
            ..step.node
        }),
        step.expire_peers(now_ms).node.peers.len() <= step.node.peers.len(),
        extends(step.expire_peers(now_ms).out, step.out),
{
    let gone = step.node.peers.filter(|p: PeerModel| p.gone(now_ms));
    let left = Step {
        node: NodeModel {
            peers: step.node.peers.filter(|p: PeerModel| !p.gone(now_ms)),
            ..step.node
        },
        out: step.out,
    };
    lemma_announce_lost(left, gone, now_ms);
    step.node.peers.lemma_filter_len(|p: PeerModel| !p.gone(now_ms));
}

/// Acting on due entries changes nothing but the sequence number.
pub proof fn lemma_settle(step: Step, items: Seq<DueModel>, now_ms: u64)
    ensures
        step.settle(items, now_ms).node == (NodeModel {
            seq: step.settle(items, now_ms).node.seq,
            ..step.node
        }),
        extends(step.settle(items, now_ms).out, step.out),
    decreases items.len(),
{
    if items.len() > 0 {
        lemma_settle(step, items.drop_last(), now_ms);
    }
}

/// Flushing changes nothing but the queue and the sequence number.
pub proof fn lemma_flush(step: Step, now_ms: u64)
    ensures
        step.flush(now_ms).node == (NodeModel {
            seq: step.flush(now_ms).node.seq,
            outbox: outbox::after_due(step.node.outbox, now_ms),
            ..step.node
        }),
        extends(step.flush(now_ms).out, step.out),
{
    let taken = Step {
        node: NodeModel { outbox: outbox::after_due(step.node.outbox, now_ms), ..step.node },
        out: step.out,
    };
    lemma_settle(taken, outbox::all_due(step.node.outbox, now_ms), now_ms);
}

/// Hearing a peer changes nothing but the table, the queue, what is carried, and
/// the sequence number.
pub proof fn lemma_touch(
    step: Step,
    id: PeerId,
    nickname: Seq<char>,
    rssi: i8,
    hops: u8,
    now_ms: u64,
)
    ensures
        ({
            let heard = step.touch(id, nickname, rssi, hops, now_ms);
            &&& heard.node == (NodeModel {
                seq: heard.node.seq,
                peers: heard.node.peers,
                outbox: heard.node.outbox,
                carried: heard.node.carried,
                ..step.node
            })
            &&& extends(heard.out, step.out)
        }),
{
    if peer_at(step.node.peers, id) is None {
        let greeted = Step {
            node: NodeModel {
                peers: step.node.peers.push(
                    PeerModel { id, nickname, rssi, last_seen_ms: now_ms, hops },
                ),
                ..step.node
            },
            out: step.out,
        }.emit(now_ms, EventKindModel::PeerDiscovered { peer: id, nickname, rssi, hops }).hand_over(
            id,
        );
        let woken = Step {
            node: NodeModel {
                outbox: outbox::after_wake(greeted.node.outbox, id, now_ms),
                ..greeted.node
            },
            out: greeted.out,
        };
        lemma_flush(woken, now_ms);
    }
}

/// Handing over the chain changes nothing but the counter, the ids seen, the queue,
/// who holds the chain, and the sequence number.
pub proof fn lemma_share_chain(step: Step, peer: PeerId, now_ms: u64, draw: Draw)
    ensures
        ({
            let shared = step.share_chain(peer, now_ms, draw).0;
            &&& shared.node == (NodeModel {
                counter: shared.node.counter,
                seen: shared.node.seen,
                outbox: shared.node.outbox,
                shared_with: shared.node.shared_with,
                seq: shared.node.seq,
                ..step.node
            })
            &&& extends(shared.out, step.out)
        }),
{
}

} // verus!
