//! Relay-side store-and-forward: carrying someone else's mail.
//!
//! The outbox makes a node retry its *own* undelivered messages. This is the other
//! half, the part that makes a mesh delay-tolerant rather than merely multi-hop:
//! a directed frame for a peer who is out of range is held, and handed over when
//! that peer is discovered.
//!
//! Only **directed frames for a peer we cannot currently see** are held: not
//! broadcasts, which every node repeats anyway, not frames addressed to us, and
//! not frames for a peer in our table, who was just flooded to. The relay cannot
//! read any of it; it knows the recipient id from the header.
//!
//! Taking is destructive: each relay forwards a frame once. [`CAPACITY`] keeps a
//! flooder from turning every relay into its memory, and [`TTL_MS`] keeps a relay
//! from delivering a message whose sender has already reported it expired.
use std::collections::VecDeque;

use vstd::prelude::*;
use vstd::string::StringExecFns;

use crate::bytes;
use crate::crypto::PeerId;
use crate::outbox;
use crate::seqs;
use crate::text;

verus! {

/// Frames held for absent peers.
pub const CAPACITY: usize = 128;

/// How long a carried frame stays worth delivering. It must never exceed the
/// deadline after which the sender reports the message expired.
pub const TTL_MS: u64 = 120_000;

/// One carried frame.
struct Cached {
    recipient: PeerId,
    msg_id: [u8; 16],
    wire: Vec<u8>,
    cached_at_ms: u64,
}

/// Frames this node is carrying for peers it cannot currently see, oldest first.
pub struct RelayCache {
    entries: VecDeque<Cached>,
}

// ---------------------------------------------------------------------------
// Model
// ---------------------------------------------------------------------------

/// One carried frame, with its bytes as a sequence.
pub struct CarriedModel {
    pub recipient: PeerId,
    pub msg_id: [u8; 16],
    pub wire: Seq<u8>,
    pub cached_at_ms: u64,
}

impl CarriedModel {
    /// The frame is too old to hand over. A clock that went backwards makes
    /// nothing old.
    pub open spec fn stale(self, now_ms: u64) -> bool {
        now_ms - self.cached_at_ms >= TTL_MS
    }
}

/// No message is carried twice, and the cache keeps its bound.
pub open spec fn cache_well_formed(cache: Seq<CarriedModel>) -> bool {
    &&& cache.len() <= CAPACITY
    &&& forall|i: int, j: int|
        0 <= i < j < cache.len() ==> (#[trigger] cache[i]).msg_id != (#[trigger] cache[j]).msg_id
}

/// Whether a message is carried.
pub open spec fn carries(cache: Seq<CarriedModel>, msg_id: [u8; 16]) -> bool {
    exists|i: int| 0 <= i < cache.len() && (#[trigger] cache[i]).msg_id == msg_id
}

/// The cache once a frame was offered to it: one that is carried already changes
/// nothing, and a full cache drops its oldest frame.
pub open spec fn stored(cache: Seq<CarriedModel>, entry: CarriedModel) -> Seq<CarriedModel> {
    if carries(cache, entry.msg_id) {
        cache
    } else if cache.len() >= CAPACITY {
        cache.drop_first().push(entry)
    } else {
        cache.push(entry)
    }
}

/// What is carried for one peer.
pub open spec fn held_for(cache: Seq<CarriedModel>, peer: PeerId) -> Seq<CarriedModel> {
    cache.filter(|entry: CarriedModel| entry.recipient == peer)
}

/// What is carried for everyone else.
pub open spec fn held_for_others(cache: Seq<CarriedModel>, peer: PeerId) -> Seq<CarriedModel> {
    cache.filter(|entry: CarriedModel| entry.recipient != peer)
}

/// What is still worth delivering.
pub open spec fn still_fresh(cache: Seq<CarriedModel>, now_ms: u64) -> Seq<CarriedModel> {
    cache.filter(|entry: CarriedModel| !entry.stale(now_ms))
}

/// The frames of some entries.
pub open spec fn frames_of(cache: Seq<CarriedModel>) -> Seq<Seq<u8>> {
    cache.map_values(|entry: CarriedModel| entry.wire)
}

/// A list of frames, each taken by its bytes.
pub open spec fn frame_bytes(frames: Seq<Vec<u8>>) -> Seq<Seq<u8>> {
    frames.map_values(|frame: Vec<u8>| frame@)
}

impl View for Cached {
    type V = CarriedModel;

    closed spec fn view(&self) -> CarriedModel {
        CarriedModel {
            recipient: self.recipient,
            msg_id: self.msg_id,
            wire: self.wire@,
            cached_at_ms: self.cached_at_ms,
        }
    }
}

spec fn carried_models(entries: Seq<Cached>) -> Seq<CarriedModel> {
    entries.map_values(|entry: Cached| entry@)
}

impl View for RelayCache {
    type V = Seq<CarriedModel>;

    closed spec fn view(&self) -> Seq<CarriedModel> {
        carried_models(self.entries@)
    }
}

// ---------------------------------------------------------------------------
// Cache
// ---------------------------------------------------------------------------

impl Default for RelayCache {
    fn default() -> (cache: Self)
        ensures
            cache@ == Seq::<CarriedModel>::empty(),
            cache_well_formed(cache@),
    {
        let cache = RelayCache { entries: VecDeque::new() };
        assert(cache@ =~= Seq::<CarriedModel>::empty());
        cache
    }
}

impl RelayCache {
    pub fn len(&self) -> (len: usize)
        ensures
            len == self@.len(),
    {
        self.entries.len()
    }

    pub fn is_empty(&self) -> (empty: bool)
        ensures
            empty == (self@.len() == 0),
    {
        self.entries.len() == 0
    }

    pub fn contains(&self, msg_id: &[u8; 16]) -> (found: bool)
        ensures
            found == carries(self@, *msg_id),
    {
        let mut i: usize = 0;
        while i < self.entries.len()
            invariant
                i <= self.entries@.len(),
                forall|j: int| 0 <= j < i ==> (#[trigger] self@[j]).msg_id != *msg_id,
            decreases self.entries@.len() - i,
        {
            if bytes::same_16(&self.entries[i].msg_id, msg_id) {
                assert(self@[i as int].msg_id == *msg_id);
                return true;
            }
            i = i + 1;
        }
        false
    }

    /// Hold a frame for an absent peer. Returns false if it was already held: the
    /// same frame reaches us from several neighbours in a flood, and storing each
    /// arrival would let one message evict the rest of the cache.
    pub fn store(&mut self, recipient: PeerId, msg_id: [u8; 16], wire: Vec<u8>, now_ms: u64) -> (
    held: bool)
        requires
            cache_well_formed(old(self)@),
        ensures
            held == !carries(old(self)@, msg_id),
            final(self)@ == stored(
                old(self)@,
                CarriedModel { recipient, msg_id, wire: wire@, cached_at_ms: now_ms },
            ),
            cache_well_formed(final(self)@),
    {
        if self.contains(&msg_id) {
            return false;
        }
        let ghost before = self@;
        if self.entries.len() >= CAPACITY {
            let oldest: Option<Cached> = self.entries.pop_front();
            assert(self@ =~= before.drop_first());
        }
        let ghost room = self@;
        let entry = Cached { recipient, msg_id, wire, cached_at_ms: now_ms };
        let ghost model = entry@;
        self.entries.push_back(entry);
        assert(self@ =~= room.push(model));
        true
    }

    /// Take everything held for `peer`, removing it.
    pub fn take_for_peer(&mut self, peer: &PeerId) -> (frames: Vec<Vec<u8>>)
        requires
            cache_well_formed(old(self)@),
        ensures
            frame_bytes(frames@) == frames_of(held_for(old(self)@, *peer)),
            final(self)@ == held_for_others(old(self)@, *peer),
            cache_well_formed(final(self)@),
    {
        let ghost before = self@;
        let ghost theirs = |entry: CarriedModel| entry.recipient == *peer;
        let ghost others = |entry: CarriedModel| entry.recipient != *peer;
        let mut frames: Vec<Vec<u8>> = Vec::new();
        let mut kept: VecDeque<Cached> = VecDeque::new();
        let ghost mut done: int = 0;
        proof {
            seqs::lemma_filter_none(before.take(0), theirs);
            seqs::lemma_filter_none(before.take(0), others);
            assert(before.skip(0) =~= before);
        }
        while self.entries.len() > 0
            invariant
                0 <= done <= before.len(),
                self@ == before.skip(done),
                frame_bytes(frames@) == frames_of(before.take(done).filter(theirs)),
                carried_models(kept@) == before.take(done).filter(others),
                theirs == (|entry: CarriedModel| entry.recipient == *peer),
                others == (|entry: CarriedModel| entry.recipient != *peer),
            decreases self.entries@.len(),
        {
            let ghost now = self@;
            assert(now.len() == self.entries@.len());
            let ghost taken = frame_bytes(frames@);
            let ghost left = carried_models(kept@);
            proof {
                seqs::lemma_filter_step(before, done, theirs);
                seqs::lemma_filter_step(before, done, others);
            }
            if let Some(entry) = self.entries.pop_front() {
                let ghost model = entry@;
                proof {
                    assert(self@ =~= now.drop_first());
                    assert(model == now[0]);
                    assert(model == before[done]);
                    assert(self@ =~= before.skip(done + 1));
                }
                if bytes::same_32(&entry.recipient, peer) {
                    frames.push(entry.wire);
                    assert(frame_bytes(frames@) =~= taken.push(model.wire));
                    assert(frames_of(before.take(done + 1).filter(theirs)) =~= frames_of(
                        before.take(done).filter(theirs),
                    ).push(model.wire));
                } else {
                    kept.push_back(entry);
                    assert(carried_models(kept@) =~= left.push(model));
                }
                proof {
                    done = done + 1;
                }
            }
        }
        self.entries = kept;
        proof {
            assert(before.take(done) =~= before);
            lemma_filter_keeps_well_formed(before, others);
        }
        frames
    }

    /// Drop frames older than [`TTL_MS`], and say how many there were.
    pub fn expire(&mut self, now_ms: u64) -> (dropped: usize)
        requires
            cache_well_formed(old(self)@),
        ensures
            final(self)@ == still_fresh(old(self)@, now_ms),
            dropped == old(self)@.len() - final(self)@.len(),
            cache_well_formed(final(self)@),
    {
        let ghost before = self@;
        let ghost fresh = |entry: CarriedModel| !entry.stale(now_ms);
        let count: usize = self.entries.len();
        let mut kept: VecDeque<Cached> = VecDeque::new();
        let ghost mut done: int = 0;
        proof {
            seqs::lemma_filter_none(before.take(0), fresh);
            assert(before.skip(0) =~= before);
        }
        while self.entries.len() > 0
            invariant
                0 <= done <= before.len(),
                self@ == before.skip(done),
                carried_models(kept@) == before.take(done).filter(fresh),
                fresh == (|entry: CarriedModel| !entry.stale(now_ms)),
            decreases self.entries@.len(),
        {
            let ghost now = self@;
            assert(now.len() == self.entries@.len());
            let ghost left = carried_models(kept@);
            proof {
                seqs::lemma_filter_step(before, done, fresh);
            }
            if let Some(entry) = self.entries.pop_front() {
                let ghost model = entry@;
                proof {
                    assert(self@ =~= now.drop_first());
                    assert(model == now[0]);
                    assert(model == before[done]);
                    assert(self@ =~= before.skip(done + 1));
                }
                if now_ms < entry.cached_at_ms || now_ms - entry.cached_at_ms < TTL_MS {
                    kept.push_back(entry);
                    assert(carried_models(kept@) =~= left.push(model));
                }
                proof {
                    done = done + 1;
                }
            }
        }
        self.entries = kept;
        proof {
            assert(before.take(done) =~= before);
            lemma_filter_keeps_well_formed(before, fresh);
        }
        count - self.entries.len()
    }

    /// A short name for log lines. It never shows a frame: they are other
    /// people's ciphertext.
    pub fn describe(&self) -> (text: String)
        ensures
            text@ == "RelayCache("@ + text::decimal_chars(self@.len()) + " carried)"@,
    {
        "RelayCache(".to_owned().concat(text::decimal(self.len() as u64).as_str()).concat(
            " carried)",
        )
    }
}

// ---------------------------------------------------------------------------
// Lemmas
// ---------------------------------------------------------------------------

proof fn lemma_filter_keeps_well_formed(
    cache: Seq<CarriedModel>,
    keep: spec_fn(CarriedModel) -> bool,
)
    requires
        cache_well_formed(cache),
    ensures
        cache_well_formed(cache.filter(keep)),
{
    cache.lemma_filter_len(keep);
    let kept = cache.filter(keep);
    assert forall|i: int, j: int| 0 <= i < j < kept.len() implies (#[trigger] kept[i]).msg_id != (
    #[trigger] kept[j]).msg_id by {
        seqs::lemma_filter_order(cache, keep, i, j);
    }
}

// ---------------------------------------------------------------------------
// Laws
// ---------------------------------------------------------------------------

/// A relay gives up no later than the sender reports the message expired.
pub proof fn law_relay_gives_up_before_the_sender()
    ensures
        TTL_MS <= outbox::DEADLINE_MS,
{
}

/// Taking is destructive: a frame is handed over once, and a second take for the
/// same peer yields nothing and changes nothing.
pub proof fn law_taking_is_destructive(cache: Seq<CarriedModel>, peer: PeerId)
    ensures
        held_for(held_for_others(cache, peer), peer).len() == 0,
        held_for_others(held_for_others(cache, peer), peer) == held_for_others(cache, peer),
{
    let theirs = |entry: CarriedModel| entry.recipient == peer;
    let others = |entry: CarriedModel| entry.recipient != peer;
    let left = cache.filter(others);
    assert forall|i: int| 0 <= i < left.len() implies others(#[trigger] left[i]) && !theirs(
        left[i],
    ) by {
        seqs::lemma_filter_members(cache, others, i);
    }
    seqs::lemma_filter_none(left, theirs);
    seqs::lemma_filter_all(left, others);
}

/// Taking one peer's mail leaves everyone else's as it was.
pub proof fn law_taking_spares_other_peers(
    cache: Seq<CarriedModel>,
    peer: PeerId,
    other: PeerId,
)
    requires
        other != peer,
    ensures
        held_for(held_for_others(cache, peer), other) == held_for(cache, other),
    decreases cache.len(),
{
    reveal(Seq::filter);
    if cache.len() > 0 {
        law_taking_spares_other_peers(cache.drop_last(), peer, other);
        let kept = held_for_others(cache.drop_last(), peer);
        seqs::lemma_filter_push(kept, cache.last(), |e: CarriedModel| e.recipient == other);
    }
}

/// The same message is held once, however many neighbours it arrives from and
/// whatever recipient a later copy claims.
pub proof fn law_held_only_once(
    cache: Seq<CarriedModel>,
    first: CarriedModel,
    again: CarriedModel,
)
    requires
        first.msg_id == again.msg_id,
    ensures
        stored(stored(cache, first), again) == stored(cache, first),
{
    let once = stored(cache, first);
    if !carries(cache, first.msg_id) {
        assert(once.last().msg_id == first.msg_id);
        assert(once[once.len() - 1].msg_id == again.msg_id);
    }
}

/// A carried frame is handed over unchanged when its recipient appears, as long
/// as it was neither taken, evicted nor expired before.
pub proof fn law_carried_frame_comes_back(cache: Seq<CarriedModel>, i: int)
    requires
        0 <= i < cache.len(),
    ensures
        frames_of(held_for(cache, cache[i].recipient)).contains(cache[i].wire),
{
    let peer = cache[i].recipient;
    let theirs = |entry: CarriedModel| entry.recipient == peer;
    seqs::lemma_filter_around(cache, i, theirs);
    let at = cache.take(i).filter(theirs).len() as int;
    assert(held_for(cache, peer)[at] == cache[i]);
    assert(frames_of(held_for(cache, peer))[at] == cache[i].wire);
}

/// A frame is stale two minutes after it was taken in. A clock that went back makes
/// none stale.
pub proof fn law_frames_are_stale_after_two_minutes(entry: CarriedModel, now_ms: u64)
    ensures
        entry.stale(now_ms) == (now_ms - entry.cached_at_ms >= 120_000),
{
}

/// What expires is what is stale, and nothing else.
pub proof fn law_expiry_spares_the_fresh(cache: Seq<CarriedModel>, now_ms: u64, at: int)
    requires
        0 <= at < cache.len(),
    ensures
        now_ms - cache[at].cached_at_ms < 120_000 ==> still_fresh(cache, now_ms).contains(
            cache[at],
        ),
        forall|i: int|
            0 <= i < still_fresh(cache, now_ms).len() ==> {
                let left = #[trigger] still_fresh(cache, now_ms)[i];
                cache.contains(left) && now_ms - left.cached_at_ms < 120_000
            },
{
    let keep = |entry: CarriedModel| !entry.stale(now_ms);
    if keep(cache[at]) {
        seqs::lemma_filter_keeps(cache, keep, at);
    }
    assert forall|i: int| 0 <= i < still_fresh(cache, now_ms).len() implies {
        let left = #[trigger] still_fresh(cache, now_ms)[i];
        cache.contains(left) && now_ms - left.cached_at_ms < 120_000
    } by {
        seqs::lemma_filter_members(cache, keep, i);
    }
}

/// A full cache of a hundred and twenty-eight makes room by its oldest frame; the rest
/// stays, in order, and what is new is last.
pub proof fn law_full_cache_drops_its_oldest(cache: Seq<CarriedModel>, entry: CarriedModel)
    requires
        !carries(cache, entry.msg_id),
    ensures
        ({
            let after = stored(cache, entry);
            let shift: int = if cache.len() >= 128 {
                1
            } else {
                0
            };
            &&& after.len() == cache.len() + 1 - shift
            &&& after.last() == entry
            &&& forall|i: int|
                0 <= i < after.len() - 1 ==> #[trigger] after[i] == cache[i + shift]
        }),
{
}

/// What is handed over is everything for the peer, in the order it came in, and what
/// is left is everything else.
pub proof fn law_taking_parts_the_cache(cache: Seq<CarriedModel>, peer: PeerId, at: int)
    requires
        0 <= at < cache.len(),
    ensures
        cache[at].recipient == peer ==> held_for(cache, peer).contains(cache[at])
            && !held_for_others(cache, peer).contains(cache[at]),
        cache[at].recipient != peer ==> held_for_others(cache, peer).contains(cache[at])
            && !held_for(cache, peer).contains(cache[at]),
        forall|i: int|
            0 <= i < held_for(cache, peer).len() ==> cache.contains(
                #[trigger] held_for(cache, peer)[i],
            ),
        forall|i: int|
            0 <= i < held_for_others(cache, peer).len() ==> cache.contains(
                #[trigger] held_for_others(cache, peer)[i],
            ),
        frames_of(held_for(cache, peer)).len() == held_for(cache, peer).len(),
        forall|i: int|
            0 <= i < held_for(cache, peer).len() ==> #[trigger] frames_of(
                held_for(cache, peer),
            )[i] == held_for(cache, peer)[i].wire,
{
    let theirs = |entry: CarriedModel| entry.recipient == peer;
    let others = |entry: CarriedModel| entry.recipient != peer;
    assert forall|i: int| 0 <= i < held_for(cache, peer).len() implies cache.contains(
        #[trigger] held_for(cache, peer)[i],
    ) && theirs(held_for(cache, peer)[i]) by {
        seqs::lemma_filter_members(cache, theirs, i);
    }
    assert forall|i: int| 0 <= i < held_for_others(cache, peer).len() implies cache.contains(
        #[trigger] held_for_others(cache, peer)[i],
    ) && others(held_for_others(cache, peer)[i]) by {
        seqs::lemma_filter_members(cache, others, i);
    }
    if theirs(cache[at]) {
        seqs::lemma_filter_keeps(cache, theirs, at);
    } else {
        seqs::lemma_filter_keeps(cache, others, at);
    }
}

} // verus!
