//! Store-and-forward for directed messages.
//!
//! A flood-routed mesh gives no delivery signal of its own. Here the recipient
//! acks, and until that ack arrives the sender keeps the frame and retries.
//! Broadcasts have no single recipient to ack them and are never queued.
//!
//! Sender-key distributions ride the same queue: they are directed, they are
//! acked, and losing one costs the peer every broadcast until the next. What they
//! must not do is surface as delivery receipts, so entries carry a [`Traffic`]
//! tag. Retry, backoff, waking and eviction are the same for both kinds.
//!
//! Backoff is exponential from one second, capped, with a hard deadline. The
//! peer-discovery hook is the real accelerator: everything queued for a peer is
//! due the moment that peer shows up.
use vstd::prelude::*;

use crate::bytes;
use crate::crypto::PeerId;
use crate::seqs;

verus! {

/// First retry delay. Doubles each attempt.
pub const BASE_BACKOFF_MS: u64 = 1_000;

/// Never wait longer than this between attempts.
pub const MAX_BACKOFF_MS: u64 = 15_000;

/// Give up after this long and report the message expired.
pub const DEADLINE_MS: u64 = 120_000;

/// Bound on queued messages. The oldest is dropped when full, so a peer that
/// never comes back cannot grow the queue without limit.
pub const CAPACITY: usize = 256;

/// Who a queued frame belongs to, and therefore whether its outcome is the
/// user's business.
#[derive(Debug, Clone, Copy, PartialEq, Eq, Structural)]
pub enum Traffic {
    /// A message the user sent. Delivery and expiry are reported.
    User,
    /// Protocol housekeeping: retried the same way, but silently.
    Internal,
}

/// A queued frame.
#[derive(Debug)]
pub struct Pending {
    pub msg_id: [u8; 16],
    pub recipient: PeerId,
    /// The sealed frame, kept verbatim. Sealing again would burn a fresh counter
    /// per attempt and leave gaps in the recipient's replay window.
    pub wire: Vec<u8>,
    pub traffic: Traffic,
    pub attempts: u32,
    pub queued_at_ms: u64,
    pub next_attempt_ms: u64,
}

impl Clone for Pending {
    fn clone(&self) -> (copy: Self)
        ensures
            copy@ == self@,
    {
        Pending {
            msg_id: self.msg_id,
            recipient: self.recipient,
            wire: bytes::copy_of(self.wire.as_slice()),
            traffic: self.traffic,
            attempts: self.attempts,
            queued_at_ms: self.queued_at_ms,
            next_attempt_ms: self.next_attempt_ms,
        }
    }
}

/// What to do with a pending entry now.
#[derive(Debug, PartialEq, Eq)]
pub enum Due {
    Retry(Vec<u8>),
    Expired,
}

/// A due entry, with its recipient, so that the caller need not parse the frame.
#[derive(Debug, PartialEq, Eq)]
pub struct DueItem {
    pub msg_id: [u8; 16],
    pub recipient: PeerId,
    pub traffic: Traffic,
    pub due: Due,
}

/// The retransmit queue, oldest entry first.
#[derive(Debug)]
pub struct Outbox {
    pending: Vec<Pending>,
}

// ---------------------------------------------------------------------------
// Model
// ---------------------------------------------------------------------------

/// A queued frame, with its bytes as a sequence.
pub struct PendingModel {
    pub msg_id: [u8; 16],
    pub recipient: PeerId,
    pub wire: Seq<u8>,
    pub traffic: Traffic,
    pub attempts: u32,
    pub queued_at_ms: u64,
    pub next_attempt_ms: u64,
}

/// A due entry; `retry` is `None` where it expired.
pub struct DueModel {
    pub msg_id: [u8; 16],
    pub recipient: PeerId,
    pub traffic: Traffic,
    pub retry: Option<Seq<u8>>,
}

impl View for Pending {
    type V = PendingModel;

    open spec fn view(&self) -> PendingModel {
        PendingModel {
            msg_id: self.msg_id,
            recipient: self.recipient,
            wire: self.wire@,
            traffic: self.traffic,
            attempts: self.attempts,
            queued_at_ms: self.queued_at_ms,
            next_attempt_ms: self.next_attempt_ms,
        }
    }
}

impl View for DueItem {
    type V = DueModel;

    open spec fn view(&self) -> DueModel {
        DueModel {
            msg_id: self.msg_id,
            recipient: self.recipient,
            traffic: self.traffic,
            retry: match self.due {
                Due::Retry(wire) => Some(wire@),
                Due::Expired => None,
            },
        }
    }
}

/// A list of due entries, each taken by its view.
pub open spec fn due_models(items: Seq<DueItem>) -> Seq<DueModel> {
    items.map_values(|item: DueItem| item@)
}

impl View for Outbox {
    type V = Seq<PendingModel>;

    closed spec fn view(&self) -> Seq<PendingModel> {
        pending_models(self.pending@)
    }
}

spec fn pending_models(pending: Seq<Pending>) -> Seq<PendingModel> {
    pending.map_values(|p: Pending| p@)
}

/// No id is queued twice, and the queue keeps its bound.
pub open spec fn queue_well_formed(queue: Seq<PendingModel>) -> bool {
    &&& queue.len() <= CAPACITY
    &&& forall|i: int, j: int|
        0 <= i < j < queue.len() ==> (#[trigger] queue[i]).msg_id != (#[trigger] queue[j]).msg_id
}

/// `base` doubled `times` over.
pub open spec fn doubled(base: nat, times: nat) -> nat
    decreases times,
{
    if times == 0 {
        base
    } else {
        2 * doubled(base, (times - 1) as nat)
    }
}

/// The wait before attempt number `attempts + 1`: it doubles, up to a cap.
pub open spec fn backoff_ms(attempts: u32) -> nat {
    let grown = doubled(
        BASE_BACKOFF_MS as nat,
        if attempts < 8 {
            attempts as nat
        } else {
            8
        },
    );
    if grown < MAX_BACKOFF_MS {
        grown
    } else {
        MAX_BACKOFF_MS as nat
    }
}

/// Whether `id` is queued.
pub open spec fn queued(queue: Seq<PendingModel>, id: [u8; 16]) -> bool {
    exists|i: int| 0 <= i < queue.len() && (#[trigger] queue[i]).msg_id == id
}

/// Whether `id` is queued for `peer`: whether an ack of it is that peer's to give.
pub open spec fn queued_for(queue: Seq<PendingModel>, id: [u8; 16], peer: PeerId) -> bool {
    exists|i: int|
        0 <= i < queue.len() && (#[trigger] queue[i]).msg_id == id && queue[i].recipient == peer
}

/// The queue without the entry of one id.
pub open spec fn without(queue: Seq<PendingModel>, id: [u8; 16]) -> Seq<PendingModel> {
    queue.filter(|p: PendingModel| p.msg_id != id)
}

/// The queue without its oldest entry where it is full.
pub open spec fn with_room(queue: Seq<PendingModel>) -> Seq<PendingModel> {
    if queue.len() >= CAPACITY {
        queue.drop_first()
    } else {
        queue
    }
}

/// The queue without the internal frames addressed to one peer.
pub open spec fn without_internal(queue: Seq<PendingModel>, peer: PeerId) -> Seq<PendingModel> {
    queue.filter(|p: PendingModel| !(p.traffic == Traffic::Internal && p.recipient == peer))
}

/// The messages the user is waiting on.
pub open spec fn user_messages(queue: Seq<PendingModel>) -> Seq<PendingModel> {
    queue.filter(|p: PendingModel| p.traffic == Traffic::User)
}

impl PendingModel {
    /// A frame as it enters the queue.
    pub open spec fn fresh(
        msg_id: [u8; 16],
        recipient: PeerId,
        wire: Seq<u8>,
        traffic: Traffic,
        now_ms: u64,
    ) -> PendingModel {
        PendingModel {
            msg_id,
            recipient,
            wire,
            traffic,
            attempts: 0,
            queued_at_ms: now_ms,
            next_attempt_ms: (now_ms + backoff_ms(0)) as u64,
        }
    }

    /// The deadline has passed. A clock that went backwards expires nothing.
    pub open spec fn expired(self, now_ms: u64) -> bool {
        now_ms - self.queued_at_ms >= DEADLINE_MS
    }

    /// An attempt is due.
    pub open spec fn retries(self, now_ms: u64) -> bool {
        !self.expired(now_ms) && now_ms >= self.next_attempt_ms
    }

    /// What is reported of the entry at `now_ms`.
    pub open spec fn due(self, now_ms: u64) -> Option<DueModel> {
        if self.expired(now_ms) {
            Some(
                DueModel {
                    msg_id: self.msg_id,
                    recipient: self.recipient,
                    traffic: self.traffic,
                    retry: None,
                },
            )
        } else if self.retries(now_ms) {
            Some(
                DueModel {
                    msg_id: self.msg_id,
                    recipient: self.recipient,
                    traffic: self.traffic,
                    retry: Some(self.wire),
                },
            )
        } else {
            None
        }
    }

    /// What stays of the entry once that was reported.
    pub open spec fn after_due(self, now_ms: u64) -> Option<PendingModel> {
        if self.expired(now_ms) {
            None
        } else if self.retries(now_ms) {
            let attempts = (self.attempts + 1) as u32;
            Some(
                PendingModel {
                    attempts,
                    next_attempt_ms: (now_ms + backoff_ms(attempts)) as u64,
                    ..self
                },
            )
        } else {
            Some(self)
        }
    }

    /// The entry waits for an attempt later than `now_ms`, and is for `peer`.
    pub open spec fn sleeps_for(self, peer: PeerId, now_ms: u64) -> bool {
        self.recipient == peer && self.next_attempt_ms > now_ms
    }

    /// The entry once `peer` has appeared.
    pub open spec fn woken(self, peer: PeerId, now_ms: u64) -> PendingModel {
        if self.sleeps_for(peer, now_ms) {
            PendingModel { next_attempt_ms: now_ms, ..self }
        } else {
            self
        }
    }
}

/// Everything due at `now_ms`, oldest entry first.
pub open spec fn all_due(queue: Seq<PendingModel>, now_ms: u64) -> Seq<DueModel> {
    queue.filter_map(|p: PendingModel| p.due(now_ms))
}

/// The queue once everything due was taken.
pub open spec fn after_due(queue: Seq<PendingModel>, now_ms: u64) -> Seq<PendingModel> {
    queue.filter_map(|p: PendingModel| p.after_due(now_ms))
}

/// The queue once everything due was taken at each of `times`, one after another.
pub open spec fn after_all(queue: Seq<PendingModel>, times: Seq<u64>) -> Seq<PendingModel>
    decreases times.len(),
{
    if times.len() == 0 {
        queue
    } else {
        after_due(after_all(queue, times.drop_last()), times.last())
    }
}

/// `what` is all that is reported of `id` at `now_ms`.
pub open spec fn reports_only(
    queue: Seq<PendingModel>,
    now_ms: u64,
    id: [u8; 16],
    what: Option<DueModel>,
) -> bool {
    &&& forall|item: DueModel| #[trigger]
        all_due(queue, now_ms).contains(item) && item.msg_id == id ==> what == Some(item)
    &&& what is Some ==> all_due(queue, now_ms).contains(what->Some_0)
}

/// The queue once a peer has appeared.
pub open spec fn after_wake(queue: Seq<PendingModel>, peer: PeerId, now_ms: u64) -> Seq<
    PendingModel,
> {
    queue.map_values(|p: PendingModel| p.woken(peer, now_ms))
}

/// Retrying at `now_ms` stays inside the range of the clock and of the attempt
/// counter.
pub open spec fn retries_fit(queue: Seq<PendingModel>, now_ms: u64) -> bool {
    forall|i: int|
        0 <= i < queue.len() && (#[trigger] queue[i]).retries(now_ms) ==> {
            &&& queue[i].attempts < u32::MAX
            &&& now_ms + backoff_ms((queue[i].attempts + 1) as u32) <= u64::MAX
        }
}

// ---------------------------------------------------------------------------
// Queue
// ---------------------------------------------------------------------------

impl Pending {
    /// The wait before the next attempt.
    pub fn backoff(attempts: u32) -> (wait: u64)
        ensures
            wait == backoff_ms(attempts),
            wait <= MAX_BACKOFF_MS,
    {
        let times: u32 = if attempts < 8 {
            attempts
        } else {
            8
        };
        let mut wait: u64 = BASE_BACKOFF_MS;
        let mut i: u32 = 0;
        while i < times
            invariant
                i <= times <= 8,
                wait == doubled(BASE_BACKOFF_MS as nat, i as nat),
                i == 0 ==> wait <= 1_000,
                i == 1 ==> wait <= 2_000,
                i == 2 ==> wait <= 4_000,
                i == 3 ==> wait <= 8_000,
                i == 4 ==> wait <= 16_000,
                i == 5 ==> wait <= 32_000,
                i == 6 ==> wait <= 64_000,
                i == 7 ==> wait <= 128_000,
                wait <= 256_000,
            decreases times - i,
        {
            wait = 2 * wait;
            i = i + 1;
        }
        if wait < MAX_BACKOFF_MS {
            wait
        } else {
            MAX_BACKOFF_MS
        }
    }
}

impl Default for Outbox {
    fn default() -> (outbox: Self)
        ensures
            outbox@ == Seq::<PendingModel>::empty(),
            queue_well_formed(outbox@),
    {
        let outbox = Outbox { pending: Vec::new() };
        assert(outbox@ =~= Seq::<PendingModel>::empty());
        outbox
    }
}

impl Outbox {
    pub fn len(&self) -> (len: usize)
        ensures
            len == self@.len(),
    {
        self.pending.len()
    }

    /// Entries the user is waiting on. This, not [`len`](Self::len), is what a
    /// "pending" count should show.
    pub fn user_len(&self) -> (len: usize)
        ensures
            len == user_messages(self@).len(),
    {
        let ghost keep = |p: PendingModel| p.traffic == Traffic::User;
        let mut count: usize = 0;
        let mut i: usize = 0;
        proof {
            seqs::lemma_filter_none(self@.take(0), keep);
        }
        while i < self.pending.len()
            invariant
                i <= self.pending@.len(),
                count <= i,
                count == self@.take(i as int).filter(keep).len(),
                keep == (|p: PendingModel| p.traffic == Traffic::User),
            decreases self.pending@.len() - i,
        {
            proof {
                seqs::lemma_filter_step(self@, i as int, keep);
            }
            if self.pending[i].traffic == Traffic::User {
                count = count + 1;
            }
            i = i + 1;
        }
        assert(self@.take(i as int) =~= self@);
        count
    }

    pub fn is_empty(&self) -> (empty: bool)
        ensures
            empty == (self@.len() == 0),
    {
        self.pending.len() == 0
    }

    /// Where an id is queued.
    fn find(&self, msg_id: &[u8; 16]) -> (at: Option<usize>)
        ensures
            match at {
                Some(i) => i < self@.len() && self@[i as int].msg_id == *msg_id,
                None => !queued(self@, *msg_id),
            },
    {
        let mut i: usize = 0;
        while i < self.pending.len()
            invariant
                i <= self.pending@.len(),
                forall|j: int| 0 <= j < i ==> (#[trigger] self@[j]).msg_id != *msg_id,
            decreases self.pending@.len() - i,
        {
            if bytes::same_16(&self.pending[i].msg_id, msg_id) {
                return Some(i);
            }
            i = i + 1;
        }
        None
    }

    pub fn contains(&self, msg_id: &[u8; 16]) -> (found: bool)
        ensures
            found == queued(self@, *msg_id),
    {
        self.find(msg_id).is_some()
    }

    /// Whether an id is queued for `peer`, so that an ack of it from that peer is to
    /// be believed.
    pub fn awaits(&self, msg_id: &[u8; 16], peer: &PeerId) -> (found: bool)
        requires
            queue_well_formed(self@),
        ensures
            found == queued_for(self@, *msg_id, *peer),
    {
        match self.find(msg_id) {
            Some(at) => {
                let found: bool = bytes::same_32(&self.pending[at].recipient, peer);
                assert(self@[at as int].recipient == self.pending@[at as int].recipient);
                found
            },
            None => false,
        }
    }

    /// Queue a directed frame. Returns the id evicted to make room, if any. An id
    /// that is already queued is replaced.
    pub fn push(
        &mut self,
        msg_id: [u8; 16],
        recipient: PeerId,
        wire: Vec<u8>,
        traffic: Traffic,
        now_ms: u64,
    ) -> (evicted: Option<[u8; 16]>)
        requires
            queue_well_formed(old(self)@),
            now_ms + BASE_BACKOFF_MS <= u64::MAX,
        ensures
            final(self)@ == with_room(without(old(self)@, msg_id)).push(
                PendingModel::fresh(msg_id, recipient, wire@, traffic, now_ms),
            ),
            evicted == (if without(old(self)@, msg_id).len() >= CAPACITY {
                Some(without(old(self)@, msg_id)[0].msg_id)
            } else {
                None
            }),
            queue_well_formed(final(self)@),
    {
        let removed: bool = self.remove(&msg_id);
        let ghost rest = self@;
        let evicted: Option<[u8; 16]> = if self.pending.len() >= CAPACITY {
            let oldest: Pending = self.pending.remove(0);
            assert(self@ =~= rest.drop_first());
            Some(oldest.msg_id)
        } else {
            None
        };
        let ghost room = self@;
        assert(backoff_ms(0) == BASE_BACKOFF_MS);
        let entry = Pending {
            msg_id,
            recipient,
            wire,
            traffic,
            attempts: 0,
            queued_at_ms: now_ms,
            next_attempt_ms: now_ms + Pending::backoff(0),
        };
        let ghost model = entry@;
        self.pending.push(entry);
        assert(self@ =~= room.push(model));
        evicted
    }

    /// What kind of traffic queuing `msg_id` would evict, if any.
    pub fn evicts(&self, msg_id: &[u8; 16]) -> (victim: Option<Traffic>)
        requires
            queue_well_formed(self@),
        ensures
            victim == (if without(self@, *msg_id).len() >= CAPACITY {
                Some(without(self@, *msg_id)[0].traffic)
            } else {
                None
            }),
    {
        let ghost keep = |p: PendingModel| p.msg_id != *msg_id;
        match self.find(msg_id) {
            Some(at) => {
                proof {
                    seqs::lemma_filter_around(self@, at as int, keep);
                    self@.take(at as int).lemma_filter_len(keep);
                    self@.skip(at + 1).lemma_filter_len(keep);
                }
                None
            },
            None => {
                proof {
                    seqs::lemma_filter_all(self@, keep);
                }
                if self.pending.len() >= CAPACITY {
                    Some(self.pending[0].traffic)
                } else {
                    None
                }
            },
        }
    }

    /// An ack arrived. Returns what kind of traffic it cleared, so that the caller
    /// knows whether the user should hear of it. `None` for a duplicate or
    /// unsolicited ack, which is normal on a lossy radio.
    pub fn ack(&mut self, msg_id: &[u8; 16]) -> (cleared: Option<Traffic>)
        requires
            queue_well_formed(old(self)@),
        ensures
            final(self)@ == without(old(self)@, *msg_id),
            match cleared {
                Some(traffic) => exists|i: int|
                    0 <= i < old(self)@.len() && (#[trigger] old(self)@[i]).msg_id == *msg_id
                        && old(self)@[i].traffic == traffic,
                None => !queued(old(self)@, *msg_id),
            },
            queue_well_formed(final(self)@),
    {
        let ghost before = self@;
        match self.find(msg_id) {
            Some(at) => {
                let traffic: Traffic = self.pending[at].traffic;
                assert(before[at as int].traffic == traffic);
                let removed: bool = self.remove(msg_id);
                Some(traffic)
            },
            None => {
                proof {
                    seqs::lemma_filter_all(before, |p: PendingModel| p.msg_id != *msg_id);
                }
                None
            },
        }
    }

    /// Drop any still-pending internal frame addressed to `peer`, and say how many
    /// there were.
    ///
    /// Used before queuing a fresh sender-key distribution: the previous one
    /// carries chain state we have since moved past.
    pub fn drop_superseded_internal(&mut self, peer: &PeerId) -> (dropped: usize)
        requires
            queue_well_formed(old(self)@),
        ensures
            final(self)@ == without_internal(old(self)@, *peer),
            dropped == old(self)@.len() - final(self)@.len(),
            queue_well_formed(final(self)@),
    {
        let ghost before = self@;
        let ghost keep = |p: PendingModel|
            !(p.traffic == Traffic::Internal && p.recipient == *peer);
        let mut dropped: usize = 0;
        let mut i: usize = 0;
        let ghost mut done: int = 0;
        proof {
            seqs::lemma_filter_none(before.take(0), keep);
            assert(before.take(0).filter(keep) + before.skip(0) =~= before);
        }
        while i < self.pending.len()
            invariant
                0 <= done <= before.len(),
                self@ == before.take(done).filter(keep) + before.skip(done),
                i == before.take(done).filter(keep).len(),
                dropped == before.len() - self@.len(),
                before.len() <= CAPACITY,
                keep == (|p: PendingModel|
                    !(p.traffic == Traffic::Internal && p.recipient == *peer)),
            decreases self.pending@.len() - i,
        {
            let ghost kept = before.take(done).filter(keep);
            let ghost now = self@;
            proof {
                seqs::lemma_filter_step(before, done, keep);
                assert(self@[i as int] == before[done]);
            }
            if self.pending[i].traffic == Traffic::Internal && bytes::same_32(
                &self.pending[i].recipient,
                peer,
            ) {
                let superseded: Pending = self.pending.remove(i);
                dropped = dropped + 1;
                assert(self@ =~= now.remove(i as int));
                assert(self@ =~= kept + before.skip(done + 1));
            } else {
                i = i + 1;
                assert(self@ =~= kept.push(before[done]) + before.skip(done + 1));
            }
            proof {
                done = done + 1;
            }
        }
        proof {
            assert(before.take(done) =~= before);
            assert(self@ =~= before.filter(keep));
            lemma_filter_keeps_well_formed(before, keep);
        }
        dropped
    }

    /// Everything due at `now_ms`: frames to retransmit, and messages that hit
    /// their deadline. Expired entries leave the queue.
    pub fn take_due(&mut self, now_ms: u64) -> (items: Vec<DueItem>)
        requires
            queue_well_formed(old(self)@),
            retries_fit(old(self)@, now_ms),
        ensures
            due_models(items@) == all_due(old(self)@, now_ms),
            final(self)@ == after_due(old(self)@, now_ms),
            queue_well_formed(final(self)@),
    {
        let ghost before = self@;
        let ghost due = |p: PendingModel| p.due(now_ms);
        let ghost stays = |p: PendingModel| p.after_due(now_ms);
        let mut items: Vec<DueItem> = Vec::new();
        let mut i: usize = 0;
        let ghost mut done: int = 0;
        proof {
            assert(before.take(0).filter_map(stays) + before.skip(0) =~= before);
            assert(due_models(items@) =~= before.take(0).filter_map(due));
        }
        while i < self.pending.len()
            invariant
                0 <= done <= before.len(),
                retries_fit(before, now_ms),
                self@ == before.take(done).filter_map(stays) + before.skip(done),
                i == before.take(done).filter_map(stays).len(),
                due_models(items@) == before.take(done).filter_map(due),
                due == (|p: PendingModel| p.due(now_ms)),
                stays == (|p: PendingModel| p.after_due(now_ms)),
            decreases self.pending@.len() - i,
        {
            let ghost kept = before.take(done).filter_map(stays);
            let ghost reported = due_models(items@);
            let ghost entry = before[done];
            let ghost now = self@;
            proof {
                assert(before.take(done + 1).drop_last() =~= before.take(done));
                assert(before.take(done + 1).last() == entry);
                assert(self@[i as int] == entry);
            }
            let queued_at: u64 = self.pending[i].queued_at_ms;
            let waited: u64 = if now_ms < queued_at {
                0
            } else {
                now_ms - queued_at
            };
            if waited >= DEADLINE_MS {
                let gone: Pending = self.pending.remove(i);
                let item = DueItem {
                    msg_id: gone.msg_id,
                    recipient: gone.recipient,
                    traffic: gone.traffic,
                    due: Due::Expired,
                };
                let ghost model = item@;
                items.push(item);
                assert(due_models(items@) =~= reported + seq![model]);
                assert(self@ =~= now.remove(i as int));
                assert(self@ =~= kept + before.skip(done + 1));
            } else if now_ms >= self.pending[i].next_attempt_ms {
                let attempts: u32 = self.pending[i].attempts + 1;
                let next: u64 = now_ms + Pending::backoff(attempts);
                let wire: Vec<u8> = bytes::copy_of(self.pending[i].wire.as_slice());
                let item = DueItem {
                    msg_id: self.pending[i].msg_id,
                    recipient: self.pending[i].recipient,
                    traffic: self.pending[i].traffic,
                    due: Due::Retry(wire),
                };
                let ghost model = item@;
                items.push(item);
                self.pending[i].attempts = attempts;
                self.pending[i].next_attempt_ms = next;
                assert(due_models(items@) =~= reported + seq![model]);
                assert(self@ =~= now.update(i as int, entry.after_due(now_ms)->Some_0));
                i = i + 1;
                assert(self@ =~= (kept + seq![entry.after_due(now_ms)->Some_0]) + before.skip(
                    done + 1,
                ));
            } else {
                i = i + 1;
                assert(self@ =~= (kept + seq![entry]) + before.skip(done + 1));
            }
            proof {
                done = done + 1;
            }
        }
        proof {
            assert(before.take(done) =~= before);
            assert(self@ =~= before.filter_map(stays));
            lemma_after_due_well_formed(before, now_ms);
        }
        items
    }

    /// Whether [`take_due`](Self::take_due) stays inside the range of the clock
    /// and of the attempt counters at `now_ms`.
    pub fn can_retry(&self, now_ms: u64) -> (fits: bool)
        ensures
            fits == retries_fit(self@, now_ms),
    {
        let mut i: usize = 0;
        while i < self.pending.len()
            invariant
                i <= self.pending@.len(),
                forall|j: int|
                    0 <= j < i && (#[trigger] self@[j]).retries(now_ms) ==> {
                        &&& self@[j].attempts < u32::MAX
                        &&& now_ms + backoff_ms((self@[j].attempts + 1) as u32) <= u64::MAX
                    },
            decreases self.pending@.len() - i,
        {
            let queued_at: u64 = self.pending[i].queued_at_ms;
            let waited: u64 = if now_ms < queued_at {
                0
            } else {
                now_ms - queued_at
            };
            let attempts: u32 = self.pending[i].attempts;
            assert(self@[i as int].attempts == attempts);
            if waited < DEADLINE_MS && now_ms >= self.pending[i].next_attempt_ms {
                assert(self@[i as int].retries(now_ms));
                if attempts == u32::MAX || now_ms > u64::MAX - Pending::backoff(attempts + 1) {
                    return false;
                }
            }
            i = i + 1;
        }
        true
    }

    /// Whether every entry can be tried once more without its attempt counter
    /// running over.
    pub fn has_attempts_left(&self) -> (left: bool)
        ensures
            left == (forall|i: int|
                0 <= i < self@.len() ==> (#[trigger] self@[i]).attempts < u32::MAX),
    {
        let mut i: usize = 0;
        while i < self.pending.len()
            invariant
                i <= self.pending@.len(),
                forall|j: int| 0 <= j < i ==> (#[trigger] self@[j]).attempts < u32::MAX,
            decreases self.pending@.len() - i,
        {
            assert(self@[i as int].attempts == self.pending@[i as int].attempts);
            if self.pending[i].attempts == u32::MAX {
                return false;
            }
            i = i + 1;
        }
        true
    }

    /// A peer just appeared. Make everything queued for them due immediately, and
    /// say how many entries that woke.
    pub fn wake_for_peer(&mut self, peer: &PeerId, now_ms: u64) -> (woken: usize)
        requires
            queue_well_formed(old(self)@),
        ensures
            final(self)@ == after_wake(old(self)@, *peer, now_ms),
            woken == old(self)@.filter(|p: PendingModel| p.sleeps_for(*peer, now_ms)).len(),
            queue_well_formed(final(self)@),
    {
        let ghost before = self@;
        let ghost sleeps = |p: PendingModel| p.sleeps_for(*peer, now_ms);
        let mut woken: usize = 0;
        let mut i: usize = 0;
        proof {
            seqs::lemma_filter_none(before.take(0), sleeps);
        }
        while i < self.pending.len()
            invariant
                i <= self.pending@.len(),
                self@.len() == before.len(),
                forall|j: int|
                    0 <= j < i ==> #[trigger] self@[j] == before[j].woken(*peer, now_ms),
                forall|j: int| i <= j < self@.len() ==> #[trigger] self@[j] == before[j],
                woken <= i,
                woken == before.take(i as int).filter(sleeps).len(),
                sleeps == (|p: PendingModel| p.sleeps_for(*peer, now_ms)),
            decreases self.pending@.len() - i,
        {
            proof {
                seqs::lemma_filter_step(before, i as int, sleeps);
                assert(self@[i as int] == before[i as int]);
            }
            if bytes::same_32(&self.pending[i].recipient, peer) && self.pending[i].next_attempt_ms
                > now_ms {
                let ghost now = self@;
                self.pending[i].next_attempt_ms = now_ms;
                woken = woken + 1;
                assert(self@ =~= now.update(i as int, before[i as int].woken(*peer, now_ms)));
            }
            i = i + 1;
        }
        proof {
            assert(before.take(i as int) =~= before);
            assert(self@ =~= after_wake(before, *peer, now_ms));
        }
        woken
    }

    /// Take an id out of the queue, and say whether it was there.
    fn remove(&mut self, msg_id: &[u8; 16]) -> (removed: bool)
        requires
            queue_well_formed(old(self)@),
        ensures
            final(self)@ == without(old(self)@, *msg_id),
            removed == queued(old(self)@, *msg_id),
            queue_well_formed(final(self)@),
            !queued(final(self)@, *msg_id),
    {
        let ghost before = self@;
        let ghost keep = |p: PendingModel| p.msg_id != *msg_id;
        proof {
            lemma_filter_keeps_well_formed(before, keep);
            lemma_without(before, *msg_id);
        }
        match self.find(msg_id) {
            Some(at) => {
                let gone: Pending = self.pending.remove(at);
                proof {
                    assert(self@ =~= before.remove(at as int));
                    seqs::lemma_filter_around(before, at as int, keep);
                    let rest = before.remove(at as int);
                    assert forall|j: int| 0 <= j < rest.len() implies keep(#[trigger] rest[j]) by {
                        let from = if j < at {
                            j
                        } else {
                            j + 1
                        };
                        assert(rest[j] == before[from]);
                        assert(before[at as int].msg_id == *msg_id);
                    }
                    seqs::lemma_filter_all(rest, keep);
                    assert(before.filter(keep) =~= rest);
                }
                true
            },
            None => {
                proof {
                    seqs::lemma_filter_all(before, keep);
                }
                false
            },
        }
    }
}

// ---------------------------------------------------------------------------
// Lemmas
// ---------------------------------------------------------------------------

proof fn lemma_filter_keeps_well_formed(
    queue: Seq<PendingModel>,
    keep: spec_fn(PendingModel) -> bool,
)
    requires
        queue_well_formed(queue),
    ensures
        queue_well_formed(queue.filter(keep)),
{
    queue.lemma_filter_len(keep);
    let kept = queue.filter(keep);
    assert forall|i: int, j: int| 0 <= i < j < kept.len() implies (#[trigger] kept[i]).msg_id != (
    #[trigger] kept[j]).msg_id by {
        seqs::lemma_filter_order(queue, keep, i, j);
    }
}

proof fn lemma_without(queue: Seq<PendingModel>, id: [u8; 16])
    ensures
        !queued(without(queue, id), id),
{
    let keep = |p: PendingModel| p.msg_id != id;
    assert forall|i: int| 0 <= i < queue.filter(keep).len() implies (
    #[trigger] queue.filter(keep)[i]).msg_id != id by {
        seqs::lemma_filter_members(queue, keep, i);
    }
}

/// Each entry that stays after a tick comes from one entry of the queue, in the
/// same order.
proof fn lemma_after_due_order(queue: Seq<PendingModel>, now_ms: u64, i: int)
    requires
        0 <= i < after_due(queue, now_ms).len(),
    ensures
        exists|p: int|
            0 <= p < queue.len() && (#[trigger] queue[p]).msg_id == after_due(
                queue,
                now_ms,
            )[i].msg_id,
    decreases queue.len(),
{
    let rest = queue.drop_last();
    if i < after_due(rest, now_ms).len() {
        lemma_after_due_order(rest, now_ms, i);
        let p = choose|p: int|
            0 <= p < rest.len() && (#[trigger] rest[p]).msg_id == after_due(
                rest,
                now_ms,
            )[i].msg_id;
        assert(queue[p] == rest[p]);
        assert(after_due(queue, now_ms)[i] == after_due(rest, now_ms)[i]);
    } else {
        assert(queue[queue.len() - 1].msg_id == after_due(queue, now_ms)[i].msg_id);
    }
}

/// A tick keeps the queue well formed.
pub proof fn lemma_after_due_well_formed(queue: Seq<PendingModel>, now_ms: u64)
    requires
        queue_well_formed(queue),
    ensures
        queue_well_formed(after_due(queue, now_ms)),
        after_due(queue, now_ms).len() <= queue.len(),
    decreases queue.len(),
{
    if queue.len() > 0 {
        let rest = queue.drop_last();
        assert(queue_well_formed(rest)) by {
            assert forall|i: int, j: int| 0 <= i < j < rest.len() implies (
            #[trigger] rest[i]).msg_id != (#[trigger] rest[j]).msg_id by {
                assert(rest[i] == queue[i] && rest[j] == queue[j]);
            }
        }
        lemma_after_due_well_formed(rest, now_ms);
        let after = after_due(queue, now_ms);
        let before = after_due(rest, now_ms);
        assert forall|i: int, j: int| 0 <= i < j < after.len() implies (
        #[trigger] after[i]).msg_id != (#[trigger] after[j]).msg_id by {
            assert(after[i] == before[i]);
            if j < before.len() {
                assert(after[j] == before[j]);
            } else {
                lemma_after_due_order(rest, now_ms, i);
                let p = choose|p: int|
                    0 <= p < rest.len() && (#[trigger] rest[p]).msg_id == before[i].msg_id;
                assert(queue[p] == rest[p]);
                assert(queue[queue.len() - 1].msg_id == after[j].msg_id);
            }
        }
    }
}

/// The entry of an id, where it is queued.
spec fn entry_of(queue: Seq<PendingModel>, id: [u8; 16]) -> Option<PendingModel> {
    if queued(queue, id) {
        Some(queue[choose|i: int| 0 <= i < queue.len() && (#[trigger] queue[i]).msg_id == id])
    } else {
        None
    }
}

proof fn lemma_entry_of(queue: Seq<PendingModel>, at: int)
    requires
        queue_well_formed(queue),
        0 <= at < queue.len(),
    ensures
        entry_of(queue, queue[at].msg_id) == Some(queue[at]),
{
    let id = queue[at].msg_id;
    let i = choose|i: int| 0 <= i < queue.len() && (#[trigger] queue[i]).msg_id == id;
    assert(queue[i].msg_id == queue[at].msg_id);
}

/// Taking what is due does to each entry what `PendingModel::after_due` says.
proof fn lemma_entry_after_due(queue: Seq<PendingModel>, now_ms: u64, id: [u8; 16])
    requires
        queue_well_formed(queue),
    ensures
        entry_of(after_due(queue, now_ms), id) == match entry_of(queue, id) {
            Some(entry) => entry.after_due(now_ms),
            None => None,
        },
{
    let stays = |p: PendingModel| p.after_due(now_ms);
    let after = after_due(queue, now_ms);
    lemma_after_due_well_formed(queue, now_ms);
    if queued(after, id) {
        let j = choose|j: int| 0 <= j < after.len() && (#[trigger] after[j]).msg_id == id;
        assert(after.contains(after[j]));
        queue.lemma_filter_map_contains(stays, after[j]);
        let p = choose|p: PendingModel| #[trigger]
            queue.contains(p) && stays(p) == Some(after[j]);
        let i = choose|i: int| 0 <= i < queue.len() && queue[i] == p;
        assert(queue[i].msg_id == id);
        lemma_entry_of(queue, i);
    } else if queued(queue, id) {
        let i = choose|i: int| 0 <= i < queue.len() && (#[trigger] queue[i]).msg_id == id;
        if queue[i].after_due(now_ms) is Some {
            seqs::lemma_filter_map_keeps(queue, stays, i);
            let j = choose|j: int|
                0 <= j < after.len() && #[trigger] after[j] == stays(queue[i])->Some_0;
            assert(after[j].msg_id == id);
        }
    }
}

/// What is reported of an id is what `PendingModel::due` says of its entry.
proof fn lemma_reports_only(queue: Seq<PendingModel>, now_ms: u64, id: [u8; 16])
    requires
        queue_well_formed(queue),
    ensures
        reports_only(
            queue,
            now_ms,
            id,
            match entry_of(queue, id) {
                Some(entry) => entry.due(now_ms),
                None => None,
            },
        ),
{
    let due = |p: PendingModel| p.due(now_ms);
    let items = all_due(queue, now_ms);
    assert forall|item: DueModel| #[trigger] items.contains(item) && item.msg_id == id implies {
        &&& entry_of(queue, id) is Some
        &&& entry_of(queue, id)->Some_0.due(now_ms) == Some(item)
    } by {
        queue.lemma_filter_map_contains(due, item);
        let p = choose|p: PendingModel| #[trigger] queue.contains(p) && due(p) == Some(item);
        let i = choose|i: int| 0 <= i < queue.len() && queue[i] == p;
        assert(queue[i].msg_id == id);
        lemma_entry_of(queue, i);
    }
    if queued(queue, id) {
        let i = choose|i: int| 0 <= i < queue.len() && (#[trigger] queue[i]).msg_id == id;
        if due(queue[i]) is Some {
            seqs::lemma_filter_map_keeps(queue, due, i);
            let j = choose|j: int|
                0 <= j < items.len() && #[trigger] items[j] == due(queue[i])->Some_0;
            assert(items.contains(items[j]));
        }
    }
}

/// An entry that waits is neither tried nor changed, until its deadline passes.
proof fn lemma_entry_waits(
    queue: Seq<PendingModel>,
    entry: PendingModel,
    times: Seq<u64>,
)
    requires
        queue_well_formed(queue),
        entry_of(queue, entry.msg_id) == Some(entry),
        forall|i: int| 0 <= i < times.len() ==> #[trigger] times[i] < entry.next_attempt_ms,
    ensures
        queue_well_formed(after_all(queue, times)),
        entry_of(after_all(queue, times), entry.msg_id) == if expires_in(entry, times) {
            None
        } else {
            Some(entry)
        },
    decreases times.len(),
{
    if times.len() > 0 {
        let fewer = times.drop_last();
        assert forall|i: int| 0 <= i < fewer.len() implies #[trigger] fewer[i]
            < entry.next_attempt_ms by {
            assert(fewer[i] == times[i]);
        }
        lemma_entry_waits(queue, entry, fewer);
        let before = after_all(queue, fewer);
        lemma_after_due_well_formed(before, times.last());
        lemma_entry_after_due(before, times.last(), entry.msg_id);
        assert(times[times.len() - 1] == times.last());
        if expires_in(entry, fewer) {
            let i = choose|i: int| 0 <= i < fewer.len() && entry.expired(#[trigger] fewer[i]);
            assert(entry.expired(times[i]));
        } else if expires_in(entry, times) {
            let i = choose|i: int| 0 <= i < times.len() && entry.expired(#[trigger] times[i]);
            if i < fewer.len() {
                assert(entry.expired(fewer[i]));
            }
        }
    }
}

proof fn lemma_after_wake_well_formed(queue: Seq<PendingModel>, peer: PeerId, now_ms: u64)
    requires
        queue_well_formed(queue),
    ensures
        queue_well_formed(after_wake(queue, peer, now_ms)),
{
    let woken = after_wake(queue, peer, now_ms);
    assert forall|i: int, j: int| 0 <= i < j < woken.len() implies (#[trigger] woken[i]).msg_id != (
    #[trigger] woken[j]).msg_id by {
        assert(woken[i] == queue[i].woken(peer, now_ms));
        assert(woken[j] == queue[j].woken(peer, now_ms));
    }
}

// ---------------------------------------------------------------------------
// Laws
// ---------------------------------------------------------------------------

/// Backoff starts at the base, never shrinks with more attempts, and never
/// exceeds its cap.
pub proof fn law_backoff_grows_and_caps(fewer: u32, more: u32)
    requires
        fewer <= more,
    ensures
        backoff_ms(0) == BASE_BACKOFF_MS,
        backoff_ms(fewer) <= backoff_ms(more) <= MAX_BACKOFF_MS,
{
    let a = if fewer < 8 {
        fewer as nat
    } else {
        8
    };
    let b = if more < 8 {
        more as nat
    } else {
        8
    };
    lemma_doubled_grows(BASE_BACKOFF_MS as nat, a, b);
}

proof fn lemma_doubled_grows(base: nat, fewer: nat, more: nat)
    requires
        fewer <= more,
    ensures
        doubled(base, fewer) <= doubled(base, more),
    decreases more,
{
    if fewer < more {
        lemma_doubled_grows(base, fewer, (more - 1) as nat);
    }
}

/// A retry is the original frame, byte for byte, and what stays queued is the
/// same frame for the same recipient, with the clock of its deadline untouched.
pub proof fn law_retry_reuses_the_frame(entry: PendingModel, now_ms: u64)
    ensures
        entry.retries(now_ms) ==> entry.due(now_ms) is Some && entry.due(now_ms)->Some_0.retry
            == Some(entry.wire),
        entry.after_due(now_ms) matches Some(kept) ==> {
            &&& kept.wire == entry.wire
            &&& kept.msg_id == entry.msg_id
            &&& kept.recipient == entry.recipient
            &&& kept.traffic == entry.traffic
            &&& kept.queued_at_ms == entry.queued_at_ms
        },
{
}

/// An entry is reported expired exactly when its deadline has passed, and leaves
/// the queue at that moment and no other.
pub proof fn law_expiry_is_reported_once(entry: PendingModel, now_ms: u64)
    ensures
        entry.after_due(now_ms) is None <==> entry.expired(now_ms),
        entry.expired(now_ms) <==> (entry.due(now_ms) is Some && entry.due(
            now_ms,
        )->Some_0.retry is None),
{
}

/// No message is reported twice in one go.
pub proof fn law_each_message_is_due_once(queue: Seq<PendingModel>, now_ms: u64, i: int, j: int)
    requires
        queue_well_formed(queue),
        0 <= i < j < all_due(queue, now_ms).len(),
    ensures
        all_due(queue, now_ms)[i].msg_id != all_due(queue, now_ms)[j].msg_id,
    decreases queue.len(),
{
    let due = |p: PendingModel| p.due(now_ms);
    let rest = queue.drop_last();
    let items = all_due(queue, now_ms);
    let before = all_due(rest, now_ms);
    assert forall|a: int, b: int| 0 <= a < b < rest.len() implies (#[trigger] rest[a]).msg_id != (
    #[trigger] rest[b]).msg_id by {
        assert(rest[a] == queue[a] && rest[b] == queue[b]);
    }
    assert(items[i] == before[i]);
    if j < before.len() {
        assert(items[j] == before[j]);
        law_each_message_is_due_once(rest, now_ms, i, j);
    } else {
        assert(before.contains(before[i]));
        rest.lemma_filter_map_contains(due, before[i]);
        let p = choose|p: PendingModel| #[trigger] rest.contains(p) && due(p) == Some(before[i]);
        let a = choose|a: int| 0 <= a < rest.len() && rest[a] == p;
        assert(queue[a] == rest[a]);
        assert(queue[queue.len() - 1].msg_id == items[j].msg_id);
    }
}

/// What was taken is not due again at once: taking a second time at the same moment
/// gives nothing, and changes nothing.
pub proof fn law_nothing_is_due_twice(queue: Seq<PendingModel>, now_ms: u64)
    requires
        retries_fit(queue, now_ms),
    ensures
        all_due(after_due(queue, now_ms), now_ms).len() == 0,
        after_due(after_due(queue, now_ms), now_ms) == after_due(queue, now_ms),
{
    let due = |p: PendingModel| p.due(now_ms);
    let stays = |p: PendingModel| p.after_due(now_ms);
    let after = after_due(queue, now_ms);
    assert forall|i: int| 0 <= i < after.len() implies {
        &&& due(#[trigger] after[i]) is None
        &&& stays(after[i]) == Some(after[i])
    } by {
        assert(after.contains(after[i]));
        queue.lemma_filter_map_contains(stays, after[i]);
        let p = choose|p: PendingModel| #[trigger]
            queue.contains(p) && stays(p) == Some(after[i]);
        let k = choose|k: int| 0 <= k < queue.len() && queue[k] == p;
        if queue[k].retries(now_ms) {
            law_backoff_grows_and_caps(0, (queue[k].attempts + 1) as u32);
        }
    }
    seqs::lemma_filter_map_none(after, due);
    seqs::lemma_filter_map_same(after, stays);
}

/// A wait was cut short by the deadline: it passes at one of `times`.
pub open spec fn expires_in(entry: PendingModel, times: Seq<u64>) -> bool {
    exists|i: int| 0 <= i < times.len() && entry.expired(#[trigger] times[i])
}

/// The retry schedule. A frame that is tried at `tried_ms` is not tried again before
/// its backoff has passed, however often the queue is asked meanwhile, at whichever
/// `times`. The first time it is asked after that, at `now_ms`, the same frame is due,
/// byte for byte. Where the deadline passes first, the frame is reported expired at
/// the first time it is asked from then on, once, and never heard of again.
pub proof fn law_retry_schedule(
    queue: Seq<PendingModel>,
    at: int,
    tried_ms: u64,
    times: Seq<u64>,
    now_ms: u64,
)
    requires
        queue_well_formed(queue),
        0 <= at < queue.len(),
        queue[at].retries(tried_ms),
        queue[at].attempts < u32::MAX,
        tried_ms + MAX_BACKOFF_MS <= u64::MAX,
        forall|i: int|
            0 <= i < times.len() ==> #[trigger] times[i] < tried_ms + backoff_ms(
                (queue[at].attempts + 1) as u32,
            ),
    ensures
        ({
            let entry = queue[at];
            let retry = DueModel {
                msg_id: entry.msg_id,
                recipient: entry.recipient,
                traffic: entry.traffic,
                retry: Some(entry.wire),
            };
            let later = after_all(after_due(queue, tried_ms), times);
            &&& reports_only(queue, tried_ms, entry.msg_id, Some(retry))
            &&& reports_only(
                later,
                now_ms,
                entry.msg_id,
                if expires_in(entry, times) {
                    None
                } else if entry.expired(now_ms) {
                    Some(DueModel { retry: None, ..retry })
                } else if now_ms < tried_ms + backoff_ms((entry.attempts + 1) as u32) {
                    None
                } else {
                    Some(retry)
                },
            )
        }),
{
    let entry = queue[at];
    law_backoff_grows_and_caps(0, (entry.attempts + 1) as u32);
    lemma_entry_of(queue, at);
    lemma_reports_only(queue, tried_ms, entry.msg_id);
    lemma_entry_after_due(queue, tried_ms, entry.msg_id);
    lemma_after_due_well_formed(queue, tried_ms);
    let kept = entry.after_due(tried_ms)->Some_0;
    let held = after_due(queue, tried_ms);
    lemma_entry_waits(held, kept, times);
    assert(expires_in(entry, times) == expires_in(kept, times)) by {
        assert forall|i: int| 0 <= i < times.len() implies entry.expired(#[trigger] times[i])
            == kept.expired(times[i]) by {}
    }
    lemma_reports_only(after_all(held, times), now_ms, entry.msg_id);
}

/// Once acked, a message is gone, and a second ack clears nothing.
pub proof fn law_ack_clears_once(queue: Seq<PendingModel>, id: [u8; 16])
    ensures
        !queued(without(queue, id), id),
        without(without(queue, id), id) == without(queue, id),
{
    lemma_without(queue, id);
    let once = without(queue, id);
    let keep = |p: PendingModel| p.msg_id != id;
    assert forall|i: int| 0 <= i < once.len() implies keep(#[trigger] once[i]) by {
        seqs::lemma_filter_members(queue, keep, i);
    }
    seqs::lemma_filter_all(once, keep);
}

/// When a peer appears, everything queued for it is due at once: what has not
/// expired is retried now. Nothing else changes.
pub proof fn law_waking_makes_everything_due(entry: PendingModel, peer: PeerId, now_ms: u64)
    ensures
        entry.recipient == peer && !entry.expired(now_ms) ==> entry.woken(peer, now_ms).retries(
            now_ms,
        ),
        entry.recipient != peer ==> entry.woken(peer, now_ms) == entry,
        entry.woken(peer, now_ms).wire == entry.wire,
        entry.woken(peer, now_ms).queued_at_ms == entry.queued_at_ms,
{
}

/// Waking, and then taking what is due: every message queued for the peer is in what
/// is taken, as a retry or, past its deadline, as expired. Of messages for others,
/// exactly what would have been taken anyway is. Nothing is added to the queue, taken
/// from it or put off by waking, and waking again wakes nothing.
pub proof fn law_waking_then_taking(
    queue: Seq<PendingModel>,
    peer: PeerId,
    now_ms: u64,
    at: int,
)
    requires
        queue_well_formed(queue),
        0 <= at < queue.len(),
    ensures
        ({
            let entry = queue[at];
            let woken = after_wake(queue, peer, now_ms);
            &&& entry.recipient == peer ==> reports_only(
                woken,
                now_ms,
                entry.msg_id,
                Some(
                    DueModel {
                        msg_id: entry.msg_id,
                        recipient: peer,
                        traffic: entry.traffic,
                        retry: if entry.expired(now_ms) {
                            None
                        } else {
                            Some(entry.wire)
                        },
                    },
                ),
            )
            &&& entry.recipient != peer ==> {
                &&& reports_only(woken, now_ms, entry.msg_id, entry.due(now_ms))
                &&& reports_only(queue, now_ms, entry.msg_id, entry.due(now_ms))
            }
            &&& woken.len() == queue.len()
            &&& woken[at] == (PendingModel {
                next_attempt_ms: woken[at].next_attempt_ms,
                ..entry
            })
            &&& woken[at].next_attempt_ms <= entry.next_attempt_ms
            &&& woken.filter(|p: PendingModel| p.sleeps_for(peer, now_ms)).len() == 0
            &&& after_wake(woken, peer, now_ms) == woken
        }),
{
    let woken = after_wake(queue, peer, now_ms);
    assert(woken[at] == queue[at].woken(peer, now_ms));
    lemma_after_wake_well_formed(queue, peer, now_ms);
    lemma_entry_of(woken, at);
    lemma_reports_only(woken, now_ms, queue[at].msg_id);
    lemma_entry_of(queue, at);
    lemma_reports_only(queue, now_ms, queue[at].msg_id);
    let asleep = |p: PendingModel| p.sleeps_for(peer, now_ms);
    assert forall|i: int| 0 <= i < woken.len() implies !asleep(#[trigger] woken[i]) by {
        assert(woken[i] == queue[i].woken(peer, now_ms));
    }
    seqs::lemma_filter_none(woken, asleep);
    assert(after_wake(woken, peer, now_ms) =~= woken);
}

/// Housekeeping is retried, woken and expired exactly as user messages are: only
/// the tag differs.
pub proof fn law_traffic_is_treated_alike(entry: PendingModel, peer: PeerId, now_ms: u64)
    ensures
        ({
            let twin = PendingModel { traffic: Traffic::Internal, ..entry };
            &&& twin.expired(now_ms) == entry.expired(now_ms)
            &&& twin.retries(now_ms) == entry.retries(now_ms)
            &&& twin.woken(peer, now_ms).next_attempt_ms == entry.woken(
                peer,
                now_ms,
            ).next_attempt_ms
        }),
{
}

/// Each wait is twice the one before, until it would pass a quarter of a minute.
pub proof fn law_backoff_doubles(attempts: u32)
    requires
        attempts < u32::MAX,
    ensures
        backoff_ms(0) == 1_000,
        backoff_ms((attempts + 1) as u32) == if 2 * backoff_ms(attempts) < 15_000 {
            2 * backoff_ms(attempts)
        } else {
            15_000
        },
{
    reveal_with_fuel(doubled, 10);
}

/// An ack takes one message from the queue and no other.
pub proof fn law_ack_spares_the_rest(queue: Seq<PendingModel>, id: [u8; 16], at: int)
    requires
        0 <= at < queue.len(),
    ensures
        queue[at].msg_id != id ==> without(queue, id).contains(queue[at]),
        forall|i: int|
            0 <= i < without(queue, id).len() ==> queue.contains(#[trigger] without(queue, id)[i]),
{
    let keep = |p: PendingModel| p.msg_id != id;
    if queue[at].msg_id != id {
        seqs::lemma_filter_keeps(queue, keep, at);
    }
    assert forall|i: int| 0 <= i < without(queue, id).len() implies queue.contains(
        #[trigger] without(queue, id)[i],
    ) by {
        seqs::lemma_filter_members(queue, keep, i);
    }
}

/// What supersedes a distribution drops every frame of our own for that peer, and
/// nothing that the user sent, nor anything for another peer.
pub proof fn law_superseding_spares_the_user(queue: Seq<PendingModel>, peer: PeerId, at: int)
    requires
        0 <= at < queue.len(),
    ensures
        queue[at].traffic == Traffic::User || queue[at].recipient != peer ==> without_internal(
            queue,
            peer,
        ).contains(queue[at]),
        forall|i: int|
            0 <= i < without_internal(queue, peer).len() ==> {
                let left = #[trigger] without_internal(queue, peer)[i];
                queue.contains(left) && (left.traffic == Traffic::User || left.recipient != peer)
            },
{
    let keep = |p: PendingModel| !(p.traffic == Traffic::Internal && p.recipient == peer);
    if keep(queue[at]) {
        seqs::lemma_filter_keeps(queue, keep, at);
    }
    assert forall|i: int| 0 <= i < without_internal(queue, peer).len() implies {
        let left = #[trigger] without_internal(queue, peer)[i];
        queue.contains(left) && (left.traffic == Traffic::User || left.recipient != peer)
    } by {
        seqs::lemma_filter_members(queue, keep, i);
    }
}

/// The count shown to the user is of the user's messages, one for each: queueing one
/// more of them adds one, and queueing a frame of our own adds none.
pub proof fn law_user_count_is_of_user_messages(queue: Seq<PendingModel>, entry: PendingModel)
    ensures
        user_messages(Seq::empty()).len() == 0,
        user_messages(queue.push(entry)).len() == user_messages(queue).len() + if entry.traffic
            == Traffic::User {
            1int
        } else {
            0
        },
{
    let keep = |p: PendingModel| p.traffic == Traffic::User;
    seqs::lemma_filter_none(Seq::<PendingModel>::empty(), keep);
    seqs::lemma_filter_push(queue, entry, keep);
}

/// An entry sleeps for a peer where it is for that peer and its time is yet to come,
/// and is given up or tried where its time has come.
pub proof fn law_when_entries_are_due(entry: PendingModel, peer: PeerId, now_ms: u64)
    requires
        entry.attempts < u32::MAX,
        now_ms + 15_000 <= u64::MAX,
    ensures
        entry.sleeps_for(peer, now_ms) == (entry.recipient == peer && entry.next_attempt_ms
            > now_ms),
        entry.due(now_ms) is Some == (now_ms - entry.queued_at_ms >= 120_000 || now_ms
            >= entry.next_attempt_ms),
        entry.due(now_ms) matches Some(item) ==> {
            &&& item.msg_id == entry.msg_id
            &&& item.recipient == entry.recipient
            &&& item.traffic == entry.traffic
            &&& item.retry == if now_ms - entry.queued_at_ms >= 120_000 {
                None::<Seq<u8>>
            } else {
                Some(entry.wire)
            }
        },
        entry.after_due(now_ms) is None == (now_ms - entry.queued_at_ms >= 120_000),
        entry.after_due(now_ms) matches Some(kept) ==> if now_ms >= entry.next_attempt_ms {
            kept.attempts == entry.attempts + 1 && kept.next_attempt_ms == now_ms + backoff_ms(
                (entry.attempts + 1) as u32,
            )
        } else {
            kept == entry
        },
{
    law_backoff_grows_and_caps(0, (entry.attempts + 1) as u32);
}

/// Queueing again what is queued already leaves one entry of it, the new one, and the
/// rest as it was.
pub proof fn law_requeueing_replaces(
    queue: Seq<PendingModel>,
    entry: PendingModel,
    at: int,
    other: int,
)
    requires
        queue_well_formed(queue),
        0 <= at < queue.len(),
        0 <= other < queue.len(),
        queue[at].msg_id == entry.msg_id,
        other != at,
    ensures
        ({
            let after = with_room(without(queue, entry.msg_id)).push(entry);
            &&& after.len() == queue.len()
            &&& after.last() == entry
            &&& after.contains(queue[other])
            &&& forall|i: int|
                0 <= i < after.len() - 1 ==> (#[trigger] after[i]).msg_id != entry.msg_id
        }),
{
    let keep = |p: PendingModel| p.msg_id != entry.msg_id;
    let rest = without(queue, entry.msg_id);
    let after = with_room(rest).push(entry);
    assert(queue[other].msg_id != queue[at].msg_id);
    seqs::lemma_filter_around(queue, at, keep);
    let before = queue.take(at);
    let behind = queue.skip(at + 1);
    assert forall|i: int| 0 <= i < before.len() implies keep(#[trigger] before[i]) by {
        assert(before[i] == queue[i] && queue[i].msg_id != queue[at].msg_id);
    }
    assert forall|i: int| 0 <= i < behind.len() implies keep(#[trigger] behind[i]) by {
        assert(behind[i] == queue[at + 1 + i] && queue[at].msg_id != queue[at + 1 + i].msg_id);
    }
    seqs::lemma_filter_all(before, keep);
    seqs::lemma_filter_all(behind, keep);
    assert(rest =~= before + behind);
    let place = if other < at {
        other
    } else {
        other - 1
    };
    assert(rest[place] == queue[other]);
    assert(after[place] == queue[other]);
    assert forall|i: int| 0 <= i < after.len() - 1 implies (#[trigger] after[i]).msg_id
        != entry.msg_id by {
        assert(after[i] == rest[i]);
        seqs::lemma_filter_members(queue, keep, i);
    }
}

} // verus!
