//! Sender keys: forward secrecy for broadcasts.
//!
//! A broadcast has no single recipient to agree on a key with. Instead each node
//! runs **one outbound chain**, ratcheted once per broadcast:
//!
//! ```text
//!   ck0 --step--> ck1 --step--> ck2 --step--> ck3   (erased as it advances)
//!    |             |             |             |
//!    v             v             v             v
//!   mk0           mk1           mk2           mk3    (one broadcast each)
//! ```
//!
//! The chain key is **never broadcast**. It is delivered peer to peer in a
//! directed frame sealed on the forward-secret prekey path, as the chain stands
//! at that moment: a peer reads from where it joined and nothing before.
//!
//! BLE reorders and drops. A frame ahead of our position makes us ratchet forward
//! and keep the message keys we jumped over, so the late frames still open; that
//! cache is bounded, and a key leaves it the moment it is used.
//!
//! Ratcheting is not committed until the AEAD verifies. Anyone can put a frame on
//! the air that claims a high index; if that moved our state at once, it would
//! destroy the keys of the real sender's messages. [`InboundChain::derive`]
//! changes nothing and returns a [`Derived`] that the caller commits only after
//! decryption succeeds.
use std::collections::BTreeMap;

use vstd::prelude::*;
use vstd::string::StringExecFns;

use crate::bytes;
use crate::crypto;
use crate::crypto::PeerId;
use crate::error::CoreError;
use crate::seqs;
use crate::text;

verus! {

/// Wire preamble on a sender-key broadcast: chain id, then index, both u32.
pub const PREAMBLE_LEN: usize = 8;

/// Body of a distribution frame: chain id, index, chain key.
pub const DISTRIBUTION_LEN: usize = 40;

/// How far ahead of our position a single frame may claim to be. Bounds the work
/// an unauthenticated frame can cause, and the size of one skip.
pub const MAX_SKIP: u32 = 64;

/// Ceiling on retained skipped message keys, per chain.
pub const SKIPPED_CAP: usize = 128;

/// Chains retained per peer. A peer that restarts announces a fresh chain id;
/// keeping one previous chain lets its last broadcasts in flight land.
pub const CHAINS_PER_PEER: usize = 2;

/// How often the outbound chain is thrown away and replaced by a fresh one.
pub const ROTATE_INTERVAL_MS: u64 = 60_000;

// ---------------------------------------------------------------------------
// Model
// ---------------------------------------------------------------------------

/// A chain at one position: what a distribution carries.
pub struct ChainModel {
    pub chain_id: u32,
    pub index: u32,
    pub key: Seq<u8>,
}

impl ChainModel {
    /// The body of a distribution frame.
    pub open spec fn encoded(self) -> Seq<u8> {
        bytes::le_bytes(self.chain_id as nat, 4) + bytes::le_bytes(self.index as nat, 4) + self.key
    }

    /// What a distribution body says. Its length is the only thing to check.
    pub open spec fn decoded(body: Seq<u8>) -> Option<ChainModel> {
        if body.len() != DISTRIBUTION_LEN {
            None
        } else {
            Some(
                ChainModel {
                    chain_id: bytes::le_value(body.subrange(0, 4)) as u32,
                    index: bytes::le_value(body.subrange(4, 8)) as u32,
                    key: body.subrange(8, 40),
                },
            )
        }
    }

    /// The chain one broadcast later.
    pub open spec fn stepped(self) -> ChainModel {
        ChainModel {
            chain_id: self.chain_id,
            index: (self.index + 1) as u32,
            key: crypto::next_chain_key(self.key),
        }
    }

    /// The chain `steps` broadcasts later.
    pub open spec fn after(self, steps: nat) -> ChainModel
        decreases steps,
    {
        if steps == 0 {
            self
        } else {
            self.after((steps - 1) as nat).stepped()
        }
    }
}

/// A message key together with the state change it stands for.
pub struct DerivedModel {
    pub key: Seq<u8>,
    /// Where the chain moves to, with its key there. `None` when the key came
    /// out of the skip cache: the chain does not move then.
    pub advance_to: Option<(u32, Seq<u8>)>,
    pub newly_skipped: Seq<(u32, Seq<u8>)>,
    pub consumed_from_cache: Option<u32>,
}

/// The receiving side of one chain.
pub struct InboundModel {
    pub index: u32,
    pub key: Seq<u8>,
    pub skipped: Map<u32, Seq<u8>>,
}

/// The smallest index of a non-empty cache.
pub open spec fn oldest(skipped: Map<u32, Seq<u8>>) -> u32 {
    choose|i: u32|
        skipped.contains_key(i) && forall|j: u32| skipped.contains_key(j) ==> i <= j
}

/// A non-empty cache has a smallest index.
pub proof fn lemma_oldest(skipped: Map<u32, Seq<u8>>)
    requires
        skipped.dom().finite(),
        skipped.len() > 0,
    ensures
        skipped.contains_key(oldest(skipped)),
        forall|j: u32| skipped.contains_key(j) ==> oldest(skipped) <= j,
    decreases skipped.len(),
{
    let some = skipped.dom().choose();
    assert(skipped.contains_key(some));
    let rest = skipped.remove(some);
    assert(rest.dom() =~= skipped.dom().remove(some));
    let smallest = if rest.len() == 0 {
        assert forall|j: u32| skipped.contains_key(j) implies some <= j by {
            if j != some {
                assert(rest.dom().contains(j));
            }
        }
        some
    } else {
        lemma_oldest(rest);
        if oldest(rest) < some {
            oldest(rest)
        } else {
            some
        }
    };
    assert forall|j: u32| skipped.contains_key(j) implies smallest <= j by {
        if j != some {
            assert(rest.contains_key(j));
        }
    }
    assert(skipped.contains_key(smallest));
}

/// The cache with its oldest keys dropped until it fits.
pub open spec fn trimmed(skipped: Map<u32, Seq<u8>>) -> Map<u32, Seq<u8>>
    decreases skipped.len(),
    when skipped.dom().finite()
{
    if skipped.len() <= SKIPPED_CAP {
        skipped
    } else {
        proof {
            lemma_oldest(skipped);
        }
        trimmed(skipped.remove(oldest(skipped)))
    }
}

/// The cache with more keys put into it.
pub open spec fn with_all(skipped: Map<u32, Seq<u8>>, more: Seq<(u32, Seq<u8>)>) -> Map<
    u32,
    Seq<u8>,
>
    decreases more.len(),
{
    if more.len() == 0 {
        skipped
    } else {
        with_all(skipped, more.drop_last()).insert(more.last().0, more.last().1)
    }
}

impl InboundModel {
    /// A chain as a distribution hands it over.
    pub open spec fn starting_at(chain: ChainModel) -> InboundModel {
        InboundModel { index: chain.index, key: chain.key, skipped: Map::empty() }
    }

    /// The message key of the position `ahead` of the current one.
    pub open spec fn key_ahead(self, ahead: nat) -> Seq<u8> {
        crypto::message_key(crypto::chain_key_after(self.key, ahead))
    }

    /// What opening a frame at `index` takes. `None` where it cannot be opened:
    /// behind us with its key spent, or further ahead than [`MAX_SKIP`].
    pub open spec fn derived(self, index: u32) -> Option<DerivedModel> {
        if index < self.index {
            if self.skipped.contains_key(index) {
                Some(
                    DerivedModel {
                        key: self.skipped[index],
                        advance_to: None,
                        newly_skipped: Seq::empty(),
                        consumed_from_cache: Some(index),
                    },
                )
            } else {
                None
            }
        } else if index - self.index > MAX_SKIP || index == u32::MAX {
            None
        } else {
            let ahead = (index - self.index) as nat;
            Some(
                DerivedModel {
                    key: self.key_ahead(ahead),
                    advance_to: Some(
                        ((index + 1) as u32, crypto::chain_key_after(self.key, ahead + 1)),
                    ),
                    newly_skipped: Seq::new(
                        ahead,
                        |i: int| ((self.index + i) as u32, self.key_ahead(i as nat)),
                    ),
                    consumed_from_cache: None,
                },
            )
        }
    }

    /// The chain once a derived key's frame has been authenticated.
    pub open spec fn committed(self, d: DerivedModel) -> InboundModel {
        let unspent = match d.consumed_from_cache {
            Some(index) => self.skipped.remove(index),
            None => self.skipped,
        };
        let (index, key) = match d.advance_to {
            Some(position) => position,
            None => (self.index, self.key),
        };
        InboundModel { index, key, skipped: trimmed(with_all(unspent, d.newly_skipped)) }
    }

    /// Held keys are for positions we have passed, and there are not too many.
    pub open spec fn well_formed(self) -> bool {
        &&& self.skipped.dom().finite()
        &&& self.skipped.len() <= SKIPPED_CAP
        &&& forall|i: u32| self.skipped.contains_key(i) ==> i < self.index
    }
}

/// One chain in the store.
pub struct HeldModel {
    pub peer: PeerId,
    pub chain_id: u32,
    pub chain: InboundModel,
}

// ---------------------------------------------------------------------------
// Keys
// ---------------------------------------------------------------------------

/// A chain or message key. It is overwritten when the value is dropped.
pub struct ChainKey {
    bytes: [u8; 32],
}

impl View for ChainKey {
    type V = Seq<u8>;

    closed spec fn view(&self) -> Seq<u8> {
        self.bytes@
    }
}

impl Drop for ChainKey {
    /// A key does not outlive its holder: its bytes are zeroed.
    fn drop(&mut self)
        ensures
            final(self)@ == bytes::zeros(32),
        opens_invariants none
        no_unwind
    {
        crypto::wipe(&mut self.bytes);
    }
}

// ---------------------------------------------------------------------------
// Outbound
// ---------------------------------------------------------------------------

/// Our own broadcast chain.
pub struct SenderChain {
    chain_id: u32,
    index: u32,
    key: ChainKey,
}

impl View for SenderChain {
    type V = ChainModel;

    closed spec fn view(&self) -> ChainModel {
        ChainModel { chain_id: self.chain_id, index: self.index, key: self.key@ }
    }
}

impl SenderChain {
    /// A fresh chain with a random id and key. The only failure is that the
    /// system has no randomness.
    pub fn new() -> (chain: Result<Self, CoreError>)
        ensures
            chain matches Ok(fresh) ==> fresh@.index == 0 && fresh@.key.len() == 32,
            chain matches Err(error) ==> error == CoreError::Crypto("getrandom failed"),
    {
        let chain_id: u32 = match crypto::random_u32() {
            Ok(chain_id) => chain_id,
            Err(error) => {
                return Err(error);
            },
        };
        match crypto::random_32() {
            Ok(key) => Ok(SenderChain::starting_with(chain_id, key)),
            Err(error) => Err(error),
        }
    }

    /// The chain that starts from a given id and key.
    pub fn starting_with(chain_id: u32, key: [u8; 32]) -> (chain: Self)
        ensures
            chain@ == (ChainModel { chain_id, index: 0, key: key@ }),
            chain@.key.len() == 32,
    {
        SenderChain { chain_id, index: 0, key: ChainKey { bytes: key } }
    }

    pub fn chain_id(&self) -> (chain_id: u32)
        ensures
            chain_id == self@.chain_id,
    {
        self.chain_id
    }

    pub fn index(&self) -> (index: u32)
        ensures
            index == self@.index,
    {
        self.index
    }

    /// Take the next message key and advance, erasing the key that produced it.
    ///
    /// Returns `None` once the chain is exhausted: wrapping would reuse keys.
    pub fn next_message_key(&mut self) -> (next: Option<([u8; 32], u32)>)
        ensures
            next is None <==> old(self)@.index == u32::MAX,
            match next {
                None => final(self)@ == old(self)@,
                Some((key, index)) => {
                    &&& key@ == crypto::message_key(old(self)@.key)
                    &&& index == old(self)@.index
                    &&& final(self)@ == old(self)@.stepped()
                    &&& final(self)@.key.len() == 32
                },
            },
    {
        let index: u32 = self.index;
        if index == u32::MAX {
            return None;
        }
        let (message, next) = crypto::sender_chain_step(&self.key.bytes);
        crypto::wipe(&mut self.key.bytes);
        self.key.bytes = next;
        self.index = index + 1;
        Some((message, index))
    }

    /// The chain *as it stands now*, for a distribution frame: a peer we meet at
    /// index 40 can read from 40 on and nothing before it.
    pub fn distribution(&self) -> (body: [u8; DISTRIBUTION_LEN])
        ensures
            body@ == self@.encoded(),
    {
        let mut position: Vec<u8> = Vec::with_capacity(8);
        bytes::put_le(&mut position, self.chain_id as u64, 4);
        bytes::put_le(&mut position, self.index as u64, 4);
        proof {
            bytes::lemma_le_bytes_len(self.chain_id as nat, 4);
            bytes::lemma_le_bytes_len(self.index as nat, 4);
        }
        let mut body: [u8; 40] = [0u8; 40];
        let mut i: usize = 0;
        while i < 40
            invariant
                i <= 40,
                position@.len() == 8,
                forall|j: int| 0 <= j < i ==> body@[j] == (position@ + self.key.bytes@)[j],
            decreases 40 - i,
        {
            body[i] = if i < 8 {
                position[i]
            } else {
                self.key.bytes[i - 8]
            };
            i = i + 1;
        }
        assert(body@ =~= self@.encoded());
        body
    }

    /// A short name for log lines. It never shows the key.
    pub fn describe(&self) -> (text: String)
        ensures
            text@ == "SenderChain(id "@ + text::hex_digits(self@.chain_id as nat, 8) + ", index "@
                + text::decimal_chars(self@.index as nat) + ")"@,
    {
        "SenderChain(id ".to_owned().concat(text::hex(self.chain_id as u64, 8).as_str()).concat(
            ", index ",
        ).concat(text::decimal(self.index as u64).as_str()).concat(")")
    }
}

// ---------------------------------------------------------------------------
// Inbound
// ---------------------------------------------------------------------------

/// A peer's chain, as received in a distribution frame.
pub struct Distribution {
    pub chain_id: u32,
    pub index: u32,
    pub key: ChainKey,
}

impl View for Distribution {
    type V = ChainModel;

    open spec fn view(&self) -> ChainModel {
        ChainModel { chain_id: self.chain_id, index: self.index, key: self.key@ }
    }
}

impl Clone for Distribution {
    fn clone(&self) -> (copy: Self)
        ensures
            copy@ == self@,
    {
        Distribution {
            chain_id: self.chain_id,
            index: self.index,
            key: ChainKey { bytes: self.key.bytes },
        }
    }
}

impl Distribution {
    /// A short name for log lines. It never shows the key.
    pub fn describe(&self) -> (text: String)
        ensures
            text@ == "Distribution(id "@ + text::hex_digits(self@.chain_id as nat, 8) + ", index "@
                + text::decimal_chars(self@.index as nat) + ")"@,
    {
        "Distribution(id ".to_owned().concat(text::hex(self.chain_id as u64, 8).as_str()).concat(
            ", index ",
        ).concat(text::decimal(self.index as u64).as_str()).concat(")")
    }
}

/// Parse a distribution body. Length is the only validity check available here;
/// authenticity comes from the frame it arrived in, which was sealed to us.
pub fn parse_distribution(body: &[u8]) -> (parsed: Option<Distribution>)
    ensures
        match parsed {
            Some(d) => ChainModel::decoded(body@) == Some(d@),
            None => ChainModel::decoded(body@) is None,
        },
{
    if body.len() != DISTRIBUTION_LEN {
        return None;
    }
    proof {
        bytes::lemma_le_limits();
    }
    let d = Distribution {
        chain_id: bytes::get_le(body, 0, 4) as u32,
        index: bytes::get_le(body, 4, 4) as u32,
        key: ChainKey { bytes: bytes::get_32(body, 8) },
    };
    Some(d)
}

/// A message key plus the state change that produced it, held back until the
/// AEAD says the frame was genuine.
pub struct Derived {
    pub key: [u8; 32],
    /// Where the chain moves to. `None` when the key came out of the skip cache.
    pub advance_to: Option<(u32, ChainKey)>,
    pub newly_skipped: Vec<(u32, ChainKey)>,
    pub consumed_from_cache: Option<u32>,
}

impl View for Derived {
    type V = DerivedModel;

    open spec fn view(&self) -> DerivedModel {
        DerivedModel {
            key: self.key@,
            advance_to: match self.advance_to {
                Some((index, key)) => Some((index, key@)),
                None => None,
            },
            newly_skipped: held_keys(self.newly_skipped@),
            consumed_from_cache: self.consumed_from_cache,
        }
    }
}

impl Drop for Derived {
    /// A key that was derived, and used or not, is zeroed.
    fn drop(&mut self)
        ensures
            final(self).key@ == bytes::zeros(32),
        opens_invariants none
        no_unwind
    {
        crypto::wipe(&mut self.key);
    }
}

/// Indexed keys, taken by their bytes.
pub open spec fn held_keys(keys: Seq<(u32, ChainKey)>) -> Seq<(u32, Seq<u8>)> {
    keys.map_values(|entry: (u32, ChainKey)| (entry.0, entry.1@))
}

/// One peer's chain state, receiving side.
pub struct InboundChain {
    index: u32,
    key: ChainKey,
    /// Message keys for indices we jumped over, awaiting the late frames.
    skipped: BTreeMap<u32, ChainKey>,
}

spec fn cached_keys(skipped: Map<u32, ChainKey>) -> Map<u32, Seq<u8>> {
    skipped.map_values(|key: ChainKey| key@)
}

impl View for InboundChain {
    type V = InboundModel;

    closed spec fn view(&self) -> InboundModel {
        InboundModel {
            index: self.index,
            key: self.key@,
            skipped: cached_keys(self.skipped@),
        }
    }
}

impl InboundChain {
    /// The receiving side of a chain, from the position it was handed over at.
    pub fn from_distribution(d: &Distribution) -> (chain: Self)
        ensures
            chain@ == InboundModel::starting_at(d@),
            chain@.well_formed(),
    {
        let chain = InboundChain {
            index: d.index,
            key: ChainKey { bytes: d.key.bytes },
            skipped: BTreeMap::new(),
        };
        assert(chain@.skipped =~= Map::empty());
        chain
    }

    pub fn index(&self) -> (index: u32)
        ensures
            index == self@.index,
    {
        self.index
    }

    /// How many message keys are held for late frames.
    pub fn skipped_len(&self) -> (len: usize)
        ensures
            len == self@.skipped.len(),
    {
        assert(self@.skipped.dom() =~= self.skipped@.dom());
        self.skipped.len()
    }

    /// Compute the message key for `index` **without changing anything**.
    ///
    /// `None` means it cannot be opened: the index is behind us and its key has
    /// been spent, or it is further ahead than [`MAX_SKIP`].
    pub fn derive(&self, index: u32) -> (derived: Option<Derived>)
        ensures
            match derived {
                Some(d) => self@.derived(index) == Some(d@),
                None => self@.derived(index) is None,
            },
    {
        if index < self.index {
            // Behind us: only openable if the key was kept when we skipped it.
            return match self.skipped.get(&index) {
                Some(held) => {
                    let d = Derived {
                        key: held.bytes,
                        advance_to: None,
                        newly_skipped: Vec::new(),
                        consumed_from_cache: Some(index),
                    };
                    assert(d@.newly_skipped =~= Seq::empty());
                    Some(d)
                },
                None => None,
            };
        }
        let skip: u32 = index - self.index;
        if skip > MAX_SKIP || index == u32::MAX {
            return None;
        }
        let mut chain = ChainKey { bytes: self.key.bytes };
        let mut newly_skipped: Vec<(u32, ChainKey)> = Vec::with_capacity(skip as usize);
        let mut i: u32 = self.index;
        while i < index
            invariant
                self.index <= i <= index,
                chain@ == crypto::chain_key_after(self@.key, (i - self.index) as nat),
                newly_skipped@.len() == i - self.index,
                forall|j: int|
                    #![trigger newly_skipped@[j]]
                    0 <= j < newly_skipped@.len() ==> {
                        &&& newly_skipped@[j].0 == self.index + j
                        &&& newly_skipped@[j].1@ == self@.key_ahead(j as nat)
                    },
            decreases index - i,
        {
            let (message, next) = crypto::sender_chain_step(&chain.bytes);
            newly_skipped.push((i, ChainKey { bytes: message }));
            crypto::wipe(&mut chain.bytes);
            chain.bytes = next;
            i = i + 1;
        }
        let (key, next) = crypto::sender_chain_step(&chain.bytes);
        let d = Derived {
            key,
            advance_to: Some((index + 1, ChainKey { bytes: next })),
            newly_skipped,
            consumed_from_cache: None,
        };
        proof {
            let wanted = self@.derived(index)->Some_0;
            assert(d@.newly_skipped =~= wanted.newly_skipped);
            assert(d@ == wanted);
        }
        Some(d)
    }

    /// Apply a [`Derived`] once its frame has been authenticated. Erases the
    /// superseded chain key and the message key that was just spent.
    pub fn commit(&mut self, d: Derived)
        ensures
            final(self)@ == old(self)@.committed(d@),
    {
        let mut d = d;
        let ghost before = *self;
        let ghost model = d@;
        let consumed: Option<u32> = d.consumed_from_cache;
        if let Some(index) = consumed {
            let spent: Option<ChainKey> = self.skipped.remove(&index);
            assert(cached_keys(self.skipped@) =~= before@.skipped.remove(index));
        }
        let ghost unspent = self@.skipped;
        let mut newly_skipped: Vec<(u32, ChainKey)> = Vec::new();
        std::mem::swap(&mut newly_skipped, &mut d.newly_skipped);
        let ghost all = newly_skipped@;
        proof {
            assert(all.skip(0) =~= all);
            assert(held_keys(all).take(0) =~= Seq::empty());
        }
        let ghost mut done: int = 0;
        while newly_skipped.len() > 0
            invariant
                0 <= done <= all.len(),
                newly_skipped@ == all.skip(done),
                cached_keys(self.skipped@) == with_all(unspent, held_keys(all).take(done)),
                self.index == before.index,
                self.key == before.key,
            decreases newly_skipped@.len(),
        {
            let ghost held = self.skipped@;
            let (index, key) = newly_skipped.remove(0);
            let ghost key_bytes = key@;
            let replaced: Option<ChainKey> = self.skipped.insert(index, key);
            proof {
                assert(all.skip(done)[0] == all[done]);
                assert(all.skip(done).remove(0) =~= all.skip(done + 1));
                let longer = held_keys(all).take(done + 1);
                assert(longer.drop_last() =~= held_keys(all).take(done));
                assert(longer.last() == (index, key_bytes));
                assert(cached_keys(self.skipped@) =~= cached_keys(held).insert(index, key_bytes));
                done = done + 1;
            }
        }
        proof {
            assert(held_keys(all).take(done) =~= model.newly_skipped);
        }
        let position: Option<(u32, ChainKey)> = d.advance_to.take();
        if let Some((next_index, next)) = position {
            self.key = next;
            self.index = next_index;
        }
        let ghost full = self@.skipped;
        let ghost moved = *self;
        // Oldest first: the further behind an index is, the less likely its frame
        // is still in flight, and the longer its key has been kept.
        while self.skipped.len() > SKIPPED_CAP
            invariant
                trimmed(cached_keys(self.skipped@)) == trimmed(full),
                self.index == moved.index,
                self.key == moved.key,
            decreases self.skipped@.len(),
        {
            let ghost held = self.skipped@;
            let oldest_index: u32 = smallest_key(&self.skipped);
            let spent: Option<ChainKey> = self.skipped.remove(&oldest_index);
            proof {
                assert(cached_keys(held).dom() =~= held.dom());
                assert(oldest(cached_keys(held)) == oldest_index);
                assert(cached_keys(self.skipped@) =~= cached_keys(held).remove(oldest_index));
            }
        }
        proof {
            assert(self@.skipped.dom() =~= self.skipped@.dom());
        }
    }

    /// A short name for log lines. It never shows a key.
    pub fn describe(&self) -> (text: String)
        ensures
            text@ == "InboundChain(index "@ + text::decimal_chars(self@.index as nat) + ", "@
                + text::decimal_chars(self@.skipped.len()) + " skipped)"@,
    {
        "InboundChain(index ".to_owned().concat(text::decimal(self.index as u64).as_str()).concat(
            ", ",
        ).concat(text::decimal(self.skipped_len() as u64).as_str()).concat(" skipped)")
    }
}

/// The smallest key of a non-empty map.
fn smallest_key(map: &BTreeMap<u32, ChainKey>) -> (smallest: u32)
    requires
        map@.len() > 0,
    ensures
        map@.contains_key(smallest),
        forall|j: u32| map@.contains_key(j) ==> smallest <= j,
{
    let mut smallest: u32 = u32::MAX;
    let mut found: bool = false;
    for key in keys: map.keys()
        invariant
            found == (keys.index() > 0),
            found ==> map@.contains_key(smallest),
            forall|j: int| 0 <= j < keys.index() ==> smallest <= *#[trigger] keys.seq()[j],
            keys.seq().unref().to_set() == map@.dom(),
    {
        if !found || *key < smallest {
            smallest = *key;
            found = true;
        }
    }
    smallest
}

// ---------------------------------------------------------------------------
// Store
// ---------------------------------------------------------------------------

/// Every peer chain we hold, newest first.
pub struct ChainStore {
    entries: Vec<HeldChain>,
}

/// One chain in the store.
struct HeldChain {
    peer: PeerId,
    chain_id: u32,
    chain: InboundChain,
}

/// Where the chain `(peer, chain_id)` stands in the store, if it does.
pub open spec fn position(entries: Seq<HeldModel>, peer: PeerId, chain_id: u32) -> Option<int> {
    if exists|i: int|
        0 <= i < entries.len() && (#[trigger] entries[i]).peer == peer && entries[i].chain_id
            == chain_id {
        Some(
            choose|i: int|
                0 <= i < entries.len() && (#[trigger] entries[i]).peer == peer
                    && entries[i].chain_id == chain_id,
        )
    } else {
        None
    }
}

/// The chains of one peer, newest first.
pub open spec fn chains_of(entries: Seq<HeldModel>, peer: PeerId) -> Seq<HeldModel> {
    entries.filter(|held: HeldModel| held.peer == peer)
}

/// No chain is held twice, and no peer has more than its share.
pub open spec fn store_well_formed(entries: Seq<HeldModel>) -> bool {
    &&& forall|i: int, j: int|
        0 <= i < j < entries.len() && (#[trigger] entries[i]).peer == (#[trigger] entries[j]).peer
            ==> entries[i].chain_id != entries[j].chain_id
    &&& forall|peer: PeerId| #[trigger] chains_of(entries, peer).len() <= CHAINS_PER_PEER
    &&& forall|i: int| 0 <= i < entries.len() ==> (#[trigger] entries[i]).chain.well_formed()
}

/// The store with a chain added in front, and that peer's oldest dropped where
/// the peer would have more than its share.
pub open spec fn with_newest(entries: Seq<HeldModel>, held: HeldModel) -> Seq<HeldModel> {
    if chains_of(entries, held.peer).len() < CHAINS_PER_PEER {
        seq![held] + entries
    } else {
        seq![held] + entries.remove(last_of(entries, held.peer))
    }
}

/// Where a peer's oldest chain stands.
pub open spec fn last_of(entries: Seq<HeldModel>, peer: PeerId) -> int
    decreases entries.len(),
{
    if entries.len() == 0 || entries.last().peer == peer {
        entries.len() - 1
    } else {
        last_of(entries.drop_last(), peer)
    }
}

/// The store after a distribution from `peer`, and whether it was accepted.
pub open spec fn installed(entries: Seq<HeldModel>, peer: PeerId, d: ChainModel) -> (
    Seq<HeldModel>,
    bool,
) {
    let fresh = HeldModel { peer, chain_id: d.chain_id, chain: InboundModel::starting_at(d) };
    match position(entries, peer, d.chain_id) {
        Some(at) => if d.index <= entries[at].chain.index {
            (entries, false)
        } else {
            (entries.update(at, fresh), true)
        },
        None => (with_newest(entries, fresh), true),
    }
}

spec fn held_models(entries: Seq<HeldChain>) -> Seq<HeldModel> {
    entries.map_values(
        |held: HeldChain|
            HeldModel { peer: held.peer, chain_id: held.chain_id, chain: held.chain@ },
    )
}

impl View for ChainStore {
    type V = Seq<HeldModel>;

    closed spec fn view(&self) -> Seq<HeldModel> {
        held_models(self.entries@)
    }
}

impl Default for ChainStore {
    fn default() -> (store: Self)
        ensures
            store@ == Seq::<HeldModel>::empty(),
            store_well_formed(store@),
    {
        let store = ChainStore { entries: Vec::new() };
        assert(store@ =~= Seq::<HeldModel>::empty());
        store
    }
}

impl ChainStore {
    /// Where a chain stands in the store.
    fn find(&self, peer: &PeerId, chain_id: u32) -> (at: Option<usize>)
        requires
            store_well_formed(self@),
        ensures
            match at {
                Some(i) => position(self@, *peer, chain_id) == Some(i as int) && i
                    < self.entries@.len(),
                None => position(self@, *peer, chain_id) is None,
            },
    {
        let mut i: usize = 0;
        while i < self.entries.len()
            invariant
                i <= self.entries@.len(),
                store_well_formed(self@),
                forall|j: int|
                    0 <= j < i ==> !((#[trigger] self@[j]).peer == *peer && self@[j].chain_id
                        == chain_id),
            decreases self.entries@.len() - i,
        {
            if bytes::same_32(&self.entries[i].peer, peer) && self.entries[i].chain_id == chain_id {
                assert(self@[i as int].peer == *peer && self@[i as int].chain_id == chain_id);
                return Some(i);
            }
            i = i + 1;
        }
        None
    }

    /// Install a distribution.
    ///
    /// One for a chain already held is only accepted when it moves *forward*. A
    /// replayed older one would hand us back chain keys we had ratcheted past and
    /// erased. Beyond [`CHAINS_PER_PEER`] the peer's oldest chain is dropped, so a
    /// peer that keeps restarting cannot make us hold its history open.
    pub fn install(&mut self, peer: PeerId, d: &Distribution) -> (accepted: bool)
        requires
            store_well_formed(old(self)@),
        ensures
            (final(self)@, accepted) == installed(old(self)@, peer, d@),
            store_well_formed(final(self)@),
    {
        let ghost before = self@;
        proof {
            lemma_installed_well_formed(before, peer, d@);
        }
        match self.find(&peer, d.chain_id) {
            Some(at) => {
                if d.index <= self.entries[at].chain.index() {
                    return false;
                }
                let held = HeldChain {
                    peer,
                    chain_id: d.chain_id,
                    chain: InboundChain::from_distribution(d),
                };
                self.entries.set(at, held);
                assert(self@ =~= installed(before, peer, d@).0);
                true
            },
            None => {
                let held = HeldChain {
                    peer,
                    chain_id: d.chain_id,
                    chain: InboundChain::from_distribution(d),
                };
                self.make_room(&peer);
                self.entries.insert(0, held);
                assert(self@ =~= installed(before, peer, d@).0);
                true
            },
        }
    }

    /// Drop a peer's oldest chain if the peer already has its share.
    fn make_room(&mut self, peer: &PeerId)
        requires
            store_well_formed(old(self)@),
        ensures
            final(self)@ == (if chains_of(old(self)@, *peer).len() < CHAINS_PER_PEER {
                old(self)@
            } else {
                old(self)@.remove(last_of(old(self)@, *peer))
            }),
    {
        let ghost before = self@;
        let mut count: usize = 0;
        let mut last: usize = 0;
        let mut i: usize = 0;
        while i < self.entries.len()
            invariant
                i <= self.entries@.len(),
                self@ == before,
                count <= i,
                count == chains_of(before.take(i as int), *peer).len(),
                count > 0 ==> last < i && last == last_of(before.take(i as int), *peer),
            decreases self.entries@.len() - i,
        {
            proof {
                let longer = before.take(i + 1);
                assert(longer.drop_last() =~= before.take(i as int));
                assert(longer.last() == before[i as int]);
                reveal(Seq::filter);
            }
            if bytes::same_32(&self.entries[i].peer, peer) {
                count = count + 1;
                last = i;
            }
            i = i + 1;
        }
        assert(before.take(i as int) =~= before);
        if count >= CHAINS_PER_PEER {
            let dropped: HeldChain = self.entries.remove(last);
            assert(self@ =~= before.remove(last as int));
        }
    }

    /// The chain `(peer, chain_id)`, to read.
    pub fn get(&self, peer: &PeerId, chain_id: u32) -> (chain: Option<&InboundChain>)
        requires
            store_well_formed(self@),
        ensures
            match chain {
                Some(held) => {
                    &&& position(self@, *peer, chain_id) is Some
                    &&& held@ == self@[position(self@, *peer, chain_id)->Some_0].chain
                },
                None => position(self@, *peer, chain_id) is None,
            },
    {
        match self.find(peer, chain_id) {
            Some(at) => Some(&self.entries[at].chain),
            None => None,
        }
    }

    /// The chain `(peer, chain_id)`, to read or to advance.
    pub fn get_mut(&mut self, peer: &PeerId, chain_id: u32) -> (chain: Option<&mut InboundChain>)
        requires
            store_well_formed(old(self)@),
        ensures
            match chain {
                Some(held) => {
                    &&& position(old(self)@, *peer, chain_id) is Some
                    &&& {
                        let at = position(old(self)@, *peer, chain_id)->Some_0;
                        &&& held@ == old(self)@[at].chain
                        &&& final(self)@ == old(self)@.update(
                            at,
                            HeldModel { peer: *peer, chain_id, chain: final(held)@ },
                        )
                    }
                },
                None => position(old(self)@, *peer, chain_id) is None && final(self)@
                    == old(self)@,
            },
    {
        let ghost before = self@;
        match self.find(peer, chain_id) {
            Some(at) => {
                let entry = &mut self.entries[at];
                Some(&mut entry.chain)
            },
            None => None,
        }
    }

    /// The ids of a peer's chains, newest first.
    pub fn chain_ids(&self, peer: &PeerId) -> (ids: Vec<u32>)
        ensures
            ids@ == chains_of(self@, *peer).map_values(|held: HeldModel| held.chain_id),
    {
        let mut ids: Vec<u32> = Vec::new();
        let mut i: usize = 0;
        while i < self.entries.len()
            invariant
                i <= self.entries@.len(),
                ids@ == chains_of(self@.take(i as int), *peer).map_values(
                    |held: HeldModel| held.chain_id,
                ),
            decreases self.entries@.len() - i,
        {
            proof {
                let longer = self@.take(i + 1);
                assert(longer.drop_last() =~= self@.take(i as int));
                assert(longer.last() == self@[i as int]);
                reveal(Seq::filter);
            }
            if bytes::same_32(&self.entries[i].peer, peer) {
                ids.push(self.entries[i].chain_id);
            }
            proof {
                assert(ids@ =~= chains_of(self@.take(i + 1), *peer).map_values(
                    |held: HeldModel| held.chain_id,
                ));
            }
            i = i + 1;
        }
        assert(self@.take(i as int) =~= self@);
        ids
    }
}

/// Where a peer has a chain, its oldest one is found.
proof fn lemma_last_of(entries: Seq<HeldModel>, peer: PeerId)
    requires
        chains_of(entries, peer).len() > 0,
    ensures
        0 <= last_of(entries, peer) < entries.len(),
        entries[last_of(entries, peer)].peer == peer,
        forall|i: int|
            last_of(entries, peer) < i < entries.len() ==> (#[trigger] entries[i]).peer != peer,
    decreases entries.len(),
{
    reveal(Seq::filter);
    if entries.last().peer != peer {
        let rest = entries.drop_last();
        lemma_last_of(rest, peer);
        assert forall|i: int| last_of(entries, peer) < i < entries.len() implies (
        #[trigger] entries[i]).peer != peer by {
            if i < rest.len() {
                assert(rest[i] == entries[i]);
            }
        }
    }
}

/// Advancing a held chain keeps the store well formed.
pub proof fn lemma_store_update(entries: Seq<HeldModel>, at: int, chain: InboundModel)
    requires
        store_well_formed(entries),
        0 <= at < entries.len(),
        chain.well_formed(),
    ensures
        store_well_formed(
            entries.update(
                at,
                HeldModel { peer: entries[at].peer, chain_id: entries[at].chain_id, chain },
            ),
        ),
{
    let held = HeldModel { peer: entries[at].peer, chain_id: entries[at].chain_id, chain };
    let after = entries.update(at, held);
    assert forall|peer: PeerId| #[trigger]
        chains_of(after, peer).len() <= CHAINS_PER_PEER by {
        let keep = |held: HeldModel| held.peer == peer;
        seqs::lemma_filter_update(entries, at, held, keep);
        seqs::lemma_filter_around(entries, at, keep);
        assert(chains_of(entries, peer).len() <= CHAINS_PER_PEER);
    }
}

/// Installing a distribution keeps the store well formed.
pub proof fn lemma_installed_well_formed(entries: Seq<HeldModel>, peer: PeerId, d: ChainModel)
    requires
        store_well_formed(entries),
    ensures
        store_well_formed(installed(entries, peer, d).0),
{
    let fresh = HeldModel { peer, chain_id: d.chain_id, chain: InboundModel::starting_at(d) };
    assert(fresh.chain.well_formed()) by {
        assert(Map::<u32, Seq<u8>>::empty().dom() =~= Set::empty());
    }
    match position(entries, peer, d.chain_id) {
        Some(at) => {
            lemma_store_update(entries, at, fresh.chain);
        },
        None => {
            let full = chains_of(entries, peer).len() >= CHAINS_PER_PEER;
            if full {
                lemma_last_of(entries, peer);
            }
            let last = last_of(entries, peer);
            let kept = if full {
                entries.remove(last)
            } else {
                entries
            };
            let after = seq![fresh] + kept;
            assert(after == with_newest(entries, fresh));
            assert forall|i: int| 0 <= i < kept.len() implies {
                &&& (#[trigger] kept[i]).chain.well_formed()
                &&& !(kept[i].peer == peer && kept[i].chain_id == d.chain_id)
            } by {
                let from = if full && i >= last {
                    i + 1
                } else {
                    i
                };
                assert(kept[i] == entries[from]);
            }
            assert forall|i: int, j: int|
                0 <= i < j < after.len() && (#[trigger] after[i]).peer == (
                #[trigger] after[j]).peer implies after[i].chain_id != after[j].chain_id by {
                assert(after[j] == kept[j - 1]);
                if i > 0 {
                    assert(after[i] == kept[i - 1]);
                    let p = if full && i - 1 >= last {
                        i
                    } else {
                        i - 1
                    };
                    let q = if full && j - 1 >= last {
                        j
                    } else {
                        j - 1
                    };
                    assert(kept[i - 1] == entries[p]);
                    assert(kept[j - 1] == entries[q]);
                }
            }
            assert forall|other: PeerId| #[trigger]
                chains_of(after, other).len() <= CHAINS_PER_PEER by {
                let keep = |held: HeldModel| held.peer == other;
                seqs::lemma_filter_front(fresh, kept, keep);
                assert(chains_of(entries, other).len() <= CHAINS_PER_PEER);
                if full {
                    seqs::lemma_filter_around(entries, last, keep);
                }
            }
            assert forall|i: int| 0 <= i < after.len() implies (
            #[trigger] after[i]).chain.well_formed() by {
                if i > 0 {
                    assert(after[i] == kept[i - 1]);
                }
            }
        },
    }
}

// ---------------------------------------------------------------------------
// Laws
// ---------------------------------------------------------------------------

/// A distribution reads back as the chain that was serialised.
pub proof fn law_distribution_round_trips(chain: ChainModel)
    requires
        chain.key.len() == 32,
    ensures
        ChainModel::decoded(chain.encoded()) == Some(chain),
{
    let id = bytes::le_bytes(chain.chain_id as nat, 4);
    let index = bytes::le_bytes(chain.index as nat, 4);
    bytes::lemma_le_limits();
    bytes::lemma_le_bytes_len(chain.chain_id as nat, 4);
    bytes::lemma_le_bytes_len(chain.index as nat, 4);
    bytes::lemma_le_round_trip(chain.chain_id as nat, 4);
    bytes::lemma_le_round_trip(chain.index as nat, 4);
    assert(chain.encoded().subrange(0, 4) =~= id);
    assert(chain.encoded().subrange(4, 8) =~= index);
    assert(chain.encoded().subrange(8, 40) =~= chain.key);
}

/// A sender that has made `steps` broadcasts stands `steps` positions on, with
/// the chain key of that position.
pub proof fn law_sender_position(chain: ChainModel, steps: nat)
    requires
        chain.index + steps <= u32::MAX,
    ensures
        chain.after(steps).chain_id == chain.chain_id,
        chain.after(steps).index == chain.index + steps,
        chain.after(steps).key == crypto::chain_key_after(chain.key, steps),
    decreases steps,
{
    if steps > 0 {
        law_sender_position(chain, (steps - 1) as nat);
    }
}

/// The receiver holds exactly the keys of the sender's chain: its own position,
/// and under each cached index that position's message key.
pub open spec fn in_step(receiver: InboundModel, origin: ChainModel) -> bool {
    &&& origin.index <= receiver.index
    &&& receiver.key == crypto::chain_key_after(
        origin.key,
        (receiver.index - origin.index) as nat,
    )
    &&& forall|i: u32| #[trigger]
        receiver.skipped.contains_key(i) ==> {
            &&& origin.index <= i
            &&& receiver.skipped[i] == crypto::message_key(
                crypto::chain_key_after(origin.key, (i - origin.index) as nat),
            )
        }
}

/// A receiver starts in step with the chain it was handed.
pub proof fn law_receiver_starts_in_step(origin: ChainModel)
    ensures
        in_step(InboundModel::starting_at(origin), origin),
        InboundModel::starting_at(origin).well_formed(),
{
    assert(Map::<u32, Seq<u8>>::empty().dom() =~= Set::empty());
}

/// What `in_step` says of one held key.
spec fn key_of(origin: ChainModel, index: u32) -> Seq<u8> {
    crypto::message_key(crypto::chain_key_after(origin.key, (index - origin.index) as nat))
}

/// The receiver's chain walks on as the sender's did.
proof fn lemma_walks_in_step(receiver: InboundModel, origin: ChainModel, steps: nat)
    requires
        in_step(receiver, origin),
    ensures
        crypto::chain_key_after(receiver.key, steps) == crypto::chain_key_after(
            origin.key,
            (receiver.index - origin.index + steps) as nat,
        ),
{
    crypto::law_chain_walk_composes(
        origin.key,
        (receiver.index - origin.index) as nat,
        steps,
    );
}

/// A key that was skipped and held is the sender's, and spending it keeps the
/// receiver in step.
proof fn lemma_agrees_behind(receiver: InboundModel, origin: ChainModel, index: u32)
    requires
        receiver.well_formed(),
        in_step(receiver, origin),
        index < receiver.index,
        receiver.derived(index) is Some,
    ensures
        origin.index <= index,
        receiver.derived(index)->Some_0.key == key_of(origin, index),
        in_step(receiver.committed(receiver.derived(index)->Some_0), origin),
{
    let d = receiver.derived(index)->Some_0;
    let unspent = receiver.skipped.remove(index);
    assert(with_all(unspent, d.newly_skipped) == unspent);
    lemma_trimmed(unspent);
    let after = receiver.committed(d);
    assert forall|i: u32| #[trigger] after.skipped.contains_key(i) implies origin.index <= i
        && after.skipped[i] == key_of(origin, i) by {
        assert(unspent.contains_key(i));
        assert(receiver.skipped.contains_key(i));
    }
}

/// The keys that a derivation leaves behind are the sender's at their indices, each
/// of which occurs once.
proof fn lemma_skipped_over(receiver: InboundModel, origin: ChainModel, index: u32, j: int)
    requires
        in_step(receiver, origin),
        receiver.index <= index,
        receiver.derived(index) is Some,
        0 <= j < index - receiver.index,
    ensures
        ({
            let over = receiver.derived(index)->Some_0.newly_skipped;
            &&& over.len() == index - receiver.index
            &&& over[j].0 == receiver.index + j
            &&& over[j].1 == key_of(origin, over[j].0)
            &&& forall|k: int| 0 <= k < over.len() && (#[trigger] over[k]).0 == over[j].0 ==> k == j
        }),
{
    lemma_walks_in_step(receiver, origin, j as nat);
}

/// What the cache holds once a key ahead was committed is the sender's.
proof fn lemma_cache_in_step(receiver: InboundModel, origin: ChainModel, index: u32, i: u32)
    requires
        receiver.well_formed(),
        in_step(receiver, origin),
        receiver.index <= index,
        receiver.derived(index) is Some,
        receiver.committed(receiver.derived(index)->Some_0).skipped.contains_key(i),
    ensures
        origin.index <= i,
        receiver.committed(receiver.derived(index)->Some_0).skipped[i] == key_of(origin, i),
{
    let over = receiver.derived(index)->Some_0.newly_skipped;
    let full = with_all(receiver.skipped, over);
    lemma_with_all(receiver.skipped, over);
    lemma_trimmed(full);
    assert(full.contains_key(i));
    if exists|j: int| 0 <= j < over.len() && (#[trigger] over[j]).0 == i {
        let j = choose|j: int| 0 <= j < over.len() && (#[trigger] over[j]).0 == i;
        lemma_skipped_over(receiver, origin, index, j);
        assert(full[i] == over[j].1);
    } else {
        assert(receiver.skipped.contains_key(i));
        assert(full[i] == receiver.skipped[i]);
    }
}

/// A key at or ahead of the receiver's position is the sender's, and committing it
/// keeps the receiver in step.
proof fn lemma_agrees_ahead(receiver: InboundModel, origin: ChainModel, index: u32)
    requires
        receiver.well_formed(),
        in_step(receiver, origin),
        receiver.index <= index,
        receiver.derived(index) is Some,
    ensures
        origin.index <= index,
        receiver.derived(index)->Some_0.key == key_of(origin, index),
        in_step(receiver.committed(receiver.derived(index)->Some_0), origin),
{
    let ahead = (index - receiver.index) as nat;
    lemma_walks_in_step(receiver, origin, ahead);
    lemma_walks_in_step(receiver, origin, ahead + 1);
    let after = receiver.committed(receiver.derived(index)->Some_0);
    assert forall|i: u32| #[trigger] after.skipped.contains_key(i) implies origin.index <= i
        && after.skipped[i] == key_of(origin, i) by {
        lemma_cache_in_step(receiver, origin, index, i);
    }
}

/// Sender and receiver agree, in whatever order frames arrive: every key the
/// receiver derives is the one the sender used at that index, and committing it
/// keeps the receiver in step.
pub proof fn law_sender_and_receiver_agree(receiver: InboundModel, origin: ChainModel, index: u32)
    requires
        receiver.well_formed(),
        in_step(receiver, origin),
        receiver.derived(index) is Some,
    ensures
        origin.index <= index,
        receiver.derived(index)->Some_0.key == crypto::message_key(
            origin.after((index - origin.index) as nat).key,
        ),
        in_step(receiver.committed(receiver.derived(index)->Some_0), origin),
{
    if index < receiver.index {
        lemma_agrees_behind(receiver, origin, index);
    } else {
        lemma_agrees_ahead(receiver, origin, index);
    }
    law_sender_position(origin, (index - origin.index) as nat);
}

/// What putting keys into the cache does: it holds the old keys and the new ones,
/// and under an index that occurs once among the new ones, that key.
proof fn lemma_with_all(skipped: Map<u32, Seq<u8>>, more: Seq<(u32, Seq<u8>)>)
    requires
        skipped.dom().finite(),
    ensures
        with_all(skipped, more).dom().finite(),
        with_all(skipped, more).len() <= skipped.len() + more.len(),
        forall|i: u32| #[trigger]
            with_all(skipped, more).contains_key(i) <==> (skipped.contains_key(i) || exists|j: int|
                0 <= j < more.len() && (#[trigger] more[j]).0 == i),
        forall|i: u32, j: int|
            #![trigger with_all(skipped, more)[i], more[j]]
            0 <= j < more.len() && more[j].0 == i && (forall|k: int|
                0 <= k < more.len() && (#[trigger] more[k]).0 == i ==> k == j) ==> with_all(
                skipped,
                more,
            )[i] == more[j].1,
        forall|i: u32|
            (forall|j: int| 0 <= j < more.len() ==> (#[trigger] more[j]).0 != i) ==> #[trigger]
            with_all(skipped, more)[i] == skipped[i],
    decreases more.len(),
{
    if more.len() > 0 {
        let rest = more.drop_last();
        lemma_with_all(skipped, rest);
        let before = with_all(skipped, rest);
        let after = with_all(skipped, more);
        assert(after == before.insert(more.last().0, more.last().1));
        assert forall|i: u32| #[trigger] after.contains_key(i) <==> (skipped.contains_key(i)
            || exists|j: int| 0 <= j < more.len() && (#[trigger] more[j]).0 == i) by {
            if before.contains_key(i) && !skipped.contains_key(i) {
                let j = choose|j: int| 0 <= j < rest.len() && (#[trigger] rest[j]).0 == i;
                assert(more[j].0 == i);
            }
            if i == more.last().0 {
                assert(more[more.len() - 1].0 == i);
            }
            if exists|j: int| 0 <= j < more.len() && (#[trigger] more[j]).0 == i {
                let j = choose|j: int| 0 <= j < more.len() && (#[trigger] more[j]).0 == i;
                if j < rest.len() {
                    assert(rest[j].0 == i);
                }
            }
        }
        assert forall|i: u32, j: int|
            #![trigger after[i], more[j]]
            0 <= j < more.len() && more[j].0 == i && (forall|k: int|
                0 <= k < more.len() && (#[trigger] more[k]).0 == i ==> k == j) implies after[i]
            == more[j].1 by {
            if j < rest.len() {
                assert(rest[j] == more[j]);
                assert(more[more.len() - 1].0 != i);
                assert forall|k: int| 0 <= k < rest.len() && (#[trigger] rest[k]).0 == i implies k
                    == j by {
                    assert(more[k].0 == i);
                }
                assert(before[i] == rest[j].1);
            }
        }
        assert forall|i: u32|
            (forall|j: int| 0 <= j < more.len() ==> (#[trigger] more[j]).0 != i) implies
            #[trigger] after[i] == skipped[i] by {
            assert(more[more.len() - 1].0 != i);
            assert forall|j: int| 0 <= j < rest.len() implies (#[trigger] rest[j]).0 != i by {
                assert(more[j].0 != i);
            }
            assert(before[i] == skipped[i]);
        }
    }
}

/// What trimming does: the cache fits, and holds only what it held.
proof fn lemma_trimmed(skipped: Map<u32, Seq<u8>>)
    requires
        skipped.dom().finite(),
    ensures
        trimmed(skipped).dom().finite(),
        trimmed(skipped).len() <= SKIPPED_CAP,
        skipped.len() <= SKIPPED_CAP ==> trimmed(skipped) == skipped,
        forall|i: u32| #[trigger]
            trimmed(skipped).contains_key(i) ==> skipped.contains_key(i) && trimmed(skipped)[i]
                == skipped[i],
    decreases skipped.len(),
{
    if skipped.len() > SKIPPED_CAP {
        lemma_oldest(skipped);
        lemma_trimmed(skipped.remove(oldest(skipped)));
    }
}

/// The skip cache stays bounded, and holds only keys of positions passed.
pub proof fn law_skip_cache_is_bounded(receiver: InboundModel, index: u32)
    requires
        receiver.well_formed(),
        receiver.derived(index) is Some,
    ensures
        receiver.committed(receiver.derived(index)->Some_0).well_formed(),
{
    let d = receiver.derived(index)->Some_0;
    let unspent = match d.consumed_from_cache {
        Some(i) => receiver.skipped.remove(i),
        None => receiver.skipped,
    };
    lemma_with_all(unspent, d.newly_skipped);
    lemma_trimmed(with_all(unspent, d.newly_skipped));
    let after = receiver.committed(d);
    assert forall|i: u32| after.skipped.contains_key(i) implies i < after.index by {
        assert(with_all(unspent, d.newly_skipped).contains_key(i));
    }
}

/// A spent message key is gone: no index opens twice.
pub proof fn law_spent_key_is_gone(receiver: InboundModel, index: u32)
    requires
        receiver.well_formed(),
        receiver.derived(index) is Some,
    ensures
        receiver.committed(receiver.derived(index)->Some_0).derived(index) is None,
{
    let d = receiver.derived(index)->Some_0;
    let unspent = match d.consumed_from_cache {
        Some(i) => receiver.skipped.remove(i),
        None => receiver.skipped,
    };
    lemma_with_all(unspent, d.newly_skipped);
    lemma_trimmed(with_all(unspent, d.newly_skipped));
    let after = receiver.committed(d);
    if after.skipped.contains_key(index) {
        assert(with_all(unspent, d.newly_skipped).contains_key(index));
        assert(false);
    }
}

/// A frame that was jumped over can still be opened when it arrives, as long as
/// the cache had room for the jump.
pub proof fn law_skipped_frame_still_opens(receiver: InboundModel, index: u32, late: u32)
    requires
        receiver.well_formed(),
        receiver.derived(index) is Some,
        receiver.index <= late < index,
        receiver.skipped.len() + (index - receiver.index) <= SKIPPED_CAP,
    ensures
        receiver.committed(receiver.derived(index)->Some_0).derived(late) is Some,
        receiver.committed(receiver.derived(index)->Some_0).derived(late)->Some_0.key
            == receiver.key_ahead((late - receiver.index) as nat),
{
    let d = receiver.derived(index)->Some_0;
    lemma_with_all(receiver.skipped, d.newly_skipped);
    let full = with_all(receiver.skipped, d.newly_skipped);
    lemma_trimmed(full);
    let j = late - receiver.index;
    assert(d.newly_skipped[j].0 == late);
    assert forall|k: int| 0 <= k < d.newly_skipped.len() && (#[trigger] d.newly_skipped[k]).0
        == late implies k == j by {}
    assert(full.contains_key(late));
    assert(full[late] == d.newly_skipped[j].1);
}

/// A distribution cannot rewind a chain: whatever is installed, a chain that is
/// still held afterwards stands no earlier than before.
pub proof fn law_install_never_rewinds(
    entries: Seq<HeldModel>,
    peer: PeerId,
    d: ChainModel,
    other: PeerId,
    chain_id: u32,
)
    requires
        store_well_formed(entries),
        position(entries, other, chain_id) is Some,
        position(installed(entries, peer, d).0, other, chain_id) is Some,
    ensures
        entries[position(entries, other, chain_id)->Some_0].chain.index <= installed(
            entries,
            peer,
            d,
        ).0[position(installed(entries, peer, d).0, other, chain_id)->Some_0].chain.index,
{
    let after = installed(entries, peer, d).0;
    lemma_installed_well_formed(entries, peer, d);
    let from = position(entries, other, chain_id)->Some_0;
    let to = position(after, other, chain_id)->Some_0;
    match position(entries, peer, d.chain_id) {
        Some(at) => {
            assert(after[from].peer == other && after[from].chain_id == chain_id);
            assert(to == from);
        },
        None => {
            let fresh = HeldModel {
                peer,
                chain_id: d.chain_id,
                chain: InboundModel::starting_at(d),
            };
            if to > 0 {
                if chains_of(entries, peer).len() < CHAINS_PER_PEER {
                    assert(after[to] == entries[to - 1]);
                } else {
                    lemma_last_of(entries, peer);
                    let last = last_of(entries, peer);
                    let old_at = if to - 1 >= last {
                        to
                    } else {
                        to - 1
                    };
                    assert(after[to] == entries[old_at]);
                }
            } else {
                assert(after[0] == fresh);
                assert(entries[from].peer == peer && entries[from].chain_id == d.chain_id);
                assert(false);
            }
        },
    }
}

/// A restarting peer does not accumulate chains: after any number of
/// distributions a peer has at most [`CHAINS_PER_PEER`], and a newly announced
/// chain is its first.
pub proof fn law_chains_are_bounded(entries: Seq<HeldModel>, peer: PeerId, d: ChainModel)
    requires
        store_well_formed(entries),
    ensures
        chains_of(installed(entries, peer, d).0, peer).len() <= CHAINS_PER_PEER,
        CHAINS_PER_PEER == 2,
        position(entries, peer, d.chain_id) is None ==> chains_of(
            installed(entries, peer, d).0,
            peer,
        )[0].chain_id == d.chain_id,
{
    lemma_installed_well_formed(entries, peer, d);
    if position(entries, peer, d.chain_id) is None {
        let fresh = HeldModel { peer, chain_id: d.chain_id, chain: InboundModel::starting_at(d) };
        let keep = |held: HeldModel| held.peer == peer;
        if chains_of(entries, peer).len() < CHAINS_PER_PEER {
            seqs::lemma_filter_front(fresh, entries, keep);
        } else {
            seqs::lemma_filter_front(fresh, entries.remove(last_of(entries, peer)), keep);
        }
    }
}

/// How far a receiver reaches: up to sixty-four positions past the one it stands at,
/// and behind it to the positions it skipped and has not used.
pub proof fn law_how_far_a_receiver_reaches(receiver: InboundModel, index: u32)
    requires
        index < u32::MAX,
    ensures
        index >= receiver.index ==> receiver.derived(index) is Some == (index - receiver.index
            <= 64),
        index < receiver.index ==> receiver.derived(index) is Some
            == receiver.skipped.contains_key(index),
{
}

/// Opening a frame ahead moves the receiver right behind it; opening one that was
/// skipped leaves it where it stands.
pub proof fn law_receiver_moves_behind_the_frame(receiver: InboundModel, index: u32)
    requires
        receiver.derived(index) is Some,
    ensures
        receiver.committed(receiver.derived(index)->Some_0).index == if index >= receiver.index {
            index + 1
        } else {
            receiver.index as int
        },
        index < receiver.index ==> receiver.committed(
            receiver.derived(index)->Some_0,
        ).key == receiver.key,
        index >= receiver.index ==> receiver.committed(receiver.derived(index)->Some_0).key
            == crypto::chain_key_after(receiver.key, (index - receiver.index + 1) as nat),
{
}

/// What does not fit in the cache of a hundred and twenty-eight is its oldest keys:
/// each that is kept is of a later position than each that is dropped.
pub proof fn law_cache_drops_its_oldest(skipped: Map<u32, Seq<u8>>, kept: u32, dropped: u32)
    requires
        skipped.dom().finite(),
        trimmed(skipped).contains_key(kept),
        skipped.contains_key(dropped),
        !trimmed(skipped).contains_key(dropped),
    ensures
        dropped < kept,
        skipped.len() > 128,
        trimmed(skipped).len() == 128,
    decreases skipped.len(),
{
    if skipped.len() > 128 {
        lemma_oldest(skipped);
        let first = oldest(skipped);
        let rest = skipped.remove(first);
        lemma_trimmed(rest);
        assert(rest.contains_key(kept));
        if dropped != first {
            law_cache_drops_its_oldest(rest, kept, dropped);
        } else if rest.len() > 128 {
            lemma_trimmed_len(rest);
        }
    }
}

proof fn lemma_trimmed_len(skipped: Map<u32, Seq<u8>>)
    requires
        skipped.dom().finite(),
        skipped.len() >= 128,
    ensures
        trimmed(skipped).len() == 128,
    decreases skipped.len(),
{
    if skipped.len() > 128 {
        lemma_oldest(skipped);
        lemma_trimmed_len(skipped.remove(oldest(skipped)));
    }
}

/// Where each field of a distribution stands.
pub proof fn law_distribution_layout(chain: ChainModel)
    requires
        chain.key.len() == 32,
    ensures
        chain.encoded().len() == 40,
        bytes::le_value(chain.encoded().subrange(0, 4)) == chain.chain_id,
        bytes::le_value(chain.encoded().subrange(4, 8)) == chain.index,
        chain.encoded().subrange(8, 40) == chain.key,
{
    let wire = chain.encoded();
    bytes::lemma_le_limits();
    bytes::lemma_le_bytes_len(chain.chain_id as nat, 4);
    bytes::lemma_le_bytes_len(chain.index as nat, 4);
    bytes::lemma_le_round_trip(chain.chain_id as nat, 4);
    bytes::lemma_le_round_trip(chain.index as nat, 4);
    assert(wire.subrange(0, 4) =~= bytes::le_bytes(chain.chain_id as nat, 4));
    assert(wire.subrange(4, 8) =~= bytes::le_bytes(chain.index as nat, 4));
    assert(wire.subrange(8, 40) =~= chain.key);
}

/// A distribution is taken where it is of a chain that we do not hold, or stands past
/// where we stand; the chain is then held as it was handed over. Chains of other peers
/// stay as they are.
pub proof fn law_when_a_distribution_is_taken(
    entries: Seq<HeldModel>,
    peer: PeerId,
    d: ChainModel,
    other: int,
)
    requires
        store_well_formed(entries),
        0 <= other < entries.len(),
        entries[other].peer != peer,
    ensures
        ({
            let (after, taken) = installed(entries, peer, d);
            let held = position(entries, peer, d.chain_id);
            &&& taken == (held is None || entries[held->Some_0].chain.index < d.index)
            &&& !taken ==> after == entries
            &&& taken ==> {
                let at = position(after, peer, d.chain_id);
                &&& at is Some
                &&& after[at->Some_0].chain.index == d.index
                &&& after[at->Some_0].chain.key == d.key
                &&& after[at->Some_0].chain.skipped == Map::<u32, Seq<u8>>::empty()
            }
            &&& after.contains(entries[other])
        }),
{
    let (after, taken) = installed(entries, peer, d);
    let fresh = HeldModel { peer, chain_id: d.chain_id, chain: InboundModel::starting_at(d) };
    lemma_installed_well_formed(entries, peer, d);
    match position(entries, peer, d.chain_id) {
        Some(at) => {
            assert(after[other] == entries[other]);
            if taken {
                assert(after[at].peer == peer && after[at].chain_id == d.chain_id);
                let to = position(after, peer, d.chain_id)->Some_0;
                assert(to == at);
            }
        },
        None => {
            assert(after[0] == fresh);
            let to = position(after, peer, d.chain_id)->Some_0;
            assert(to == 0);
            if chains_of(entries, peer).len() < CHAINS_PER_PEER {
                assert(after[other + 1] == entries[other]);
            } else {
                lemma_last_of(entries, peer);
                let last = last_of(entries, peer);
                let place = if other > last {
                    other
                } else {
                    other + 1
                };
                assert(after[place] == entries[other]);
            }
        },
    }
}

/// A peer that starts a chain afresh keeps the one before it, so that what was under
/// way can still be read: of two chains that a peer has, the newer one stays.
pub proof fn law_newer_chain_outlives_the_older(
    entries: Seq<HeldModel>,
    peer: PeerId,
    d: ChainModel,
    newer: int,
)
    requires
        store_well_formed(entries),
        0 <= newer < entries.len(),
        entries[newer].peer == peer,
        forall|i: int| 0 <= i < newer ==> (#[trigger] entries[i]).peer != peer,
        position(entries, peer, d.chain_id) is None,
    ensures
        installed(entries, peer, d).0.contains(entries[newer]),
{
    let after = installed(entries, peer, d).0;
    let keep = |held: HeldModel| held.peer == peer;
    if chains_of(entries, peer).len() < CHAINS_PER_PEER {
        assert(after[newer + 1] == entries[newer]);
    } else {
        lemma_last_of(entries, peer);
        let last = last_of(entries, peer);
        if last == newer {
            seqs::lemma_filter_around(entries, newer, keep);
            let before = entries.take(newer);
            let behind = entries.skip(newer + 1);
            assert forall|i: int| 0 <= i < before.len() implies !keep(#[trigger] before[i]) by {
                assert(before[i] == entries[i]);
            }
            assert forall|i: int| 0 <= i < behind.len() implies !keep(#[trigger] behind[i]) by {
                assert(behind[i] == entries[newer + 1 + i]);
            }
            seqs::lemma_filter_none(before, keep);
            seqs::lemma_filter_none(behind, keep);
            assert(chains_of(entries, peer).len() <= 1);
        }
        let place = if newer > last {
            newer
        } else {
            newer + 1
        };
        assert(after[place] == entries[newer]);
    }
}

/// A chain is looked up by whose it is and by its number, and by both.
pub proof fn law_chain_is_found_by_peer_and_number(
    entries: Seq<HeldModel>,
    peer: PeerId,
    chain_id: u32,
    at: int,
)
    requires
        0 <= at < entries.len(),
    ensures
        position(entries, peer, chain_id) matches Some(i) ==> {
            &&& 0 <= i < entries.len()
            &&& entries[i].peer == peer
            &&& entries[i].chain_id == chain_id
        },
        position(entries, peer, chain_id) is None ==> entries[at].peer != peer
            || entries[at].chain_id != chain_id,
{
}

} // verus!
