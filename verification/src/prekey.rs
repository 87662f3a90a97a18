//! Rotating signed prekeys: what makes directed messages forward secret without
//! a round trip.
//!
//! Each node keeps a small ring: one **current** prekey, published in every
//! beacon, plus a few **retired** ones kept only long enough for messages that
//! were already in flight when rotation happened.
//!
//! ```text
//!   gen 7  current   <- advertised, everyone sends to this
//!   gen 6  retired   \
//!   gen 5  retired    > still decryptable; in-flight grace
//!   gen 4  retired   /
//!   gen 3  dropped   <- secret overwritten: these messages are unrecoverable
//! ```
//!
//! **Dropping is the feature.** Forward secrecy is delivered by the secret ceasing
//! to exist. The window during which a stolen ring exposes traffic is
//! `ROTATE_INTERVAL_MS * (RETAINED + 1)`; retention has to exceed the outbox
//! deadline, or a retried message could arrive addressed to a prekey that no
//! longer exists.
use std::collections::VecDeque;

use vstd::prelude::*;
use vstd::string::StringExecFns;

use crate::bytes;
use crate::crypto;
use crate::crypto::{Identity, PeerId, StaticSecret};
use crate::error::CoreError;
use crate::outbox;
use crate::senderkey;
use crate::text;

verus! {

/// How often the current prekey is replaced.
pub const ROTATE_INTERVAL_MS: u64 = 60_000;

/// How many superseded prekeys stay decryptable.
pub const RETAINED: usize = 3;

/// Serialised length of a bundle: generation, public key, signature.
pub const BUNDLE_LEN: usize = 100;

/// One prekey. The secret is overwritten when this is dropped.
pub struct PrekeyPair {
    pub generation: u32,
    pub public: [u8; 32],
    /// Its bytes stay inside [`StaticSecret`].
    pub secret: StaticSecret,
}

/// A peer's advertised prekey, after its signature has been verified.
#[derive(Debug, Clone, Copy, PartialEq, Eq)]
pub struct PeerPrekey {
    pub generation: u32,
    pub public: [u8; 32],
}

/// Our own ring of prekeys.
pub struct PrekeyRing {
    current: PrekeyPair,
    retired: VecDeque<PrekeyPair>,
    rotated_at_ms: u64,
    next_generation: u32,
}

// ---------------------------------------------------------------------------
// Model
// ---------------------------------------------------------------------------

/// One prekey.
pub struct PrekeyModel {
    pub generation: u32,
    pub public: Seq<u8>,
    pub secret: Seq<u8>,
}

impl PrekeyModel {
    /// The prekey of a secret.
    pub open spec fn of(generation: u32, secret: Seq<u8>) -> PrekeyModel {
        PrekeyModel { generation, public: crypto::x25519_public(secret), secret }
    }

    /// The public key belongs to the secret.
    pub open spec fn sound(self) -> bool {
        self.secret.len() == 32 && self.public == crypto::x25519_public(self.secret)
    }
}

/// A ring of prekeys, the most recently retired first.
pub struct RingModel {
    pub current: PrekeyModel,
    pub retired: Seq<PrekeyModel>,
    pub rotated_at_ms: u64,
    pub next_generation: u32,
}

/// How many rotations lie between two generations. Generations wrap around.
pub open spec fn rotations_between(older: u32, newer: u32) -> int {
    (newer - older) % 0x1_0000_0000
}

/// The generation that follows one.
pub open spec fn generation_after(generation: u32) -> u32 {
    if generation == u32::MAX {
        0
    } else {
        (generation + 1) as u32
    }
}

impl RingModel {
    /// A ring that starts with one secret.
    pub open spec fn started(secret: Seq<u8>, now_ms: u64) -> RingModel {
        RingModel {
            current: PrekeyModel::of(0, secret),
            retired: Seq::empty(),
            rotated_at_ms: now_ms,
            next_generation: 1,
        }
    }

    /// The generations in the ring are consecutive and not too many.
    pub open spec fn well_formed(self) -> bool {
        &&& self.retired.len() <= RETAINED
        &&& self.next_generation == generation_after(self.current.generation)
        &&& forall|i: int|
            0 <= i < self.retired.len() ==> rotations_between(
                (#[trigger] self.retired[i]).generation,
                self.current.generation,
            ) == i + 1
    }

    /// Every public key in the ring belongs to its secret.
    pub open spec fn sound(self) -> bool {
        &&& self.current.sound()
        &&& forall|i: int| 0 <= i < self.retired.len() ==> (#[trigger] self.retired[i]).sound()
    }

    /// The prekey of a generation, where the ring still has it.
    pub open spec fn find(self, generation: u32) -> Option<PrekeyModel> {
        let age = rotations_between(generation, self.current.generation);
        if age == 0 {
            Some(self.current)
        } else if age <= self.retired.len() {
            Some(self.retired[age - 1])
        } else {
            None
        }
    }

    /// A rotation is due. A clock that went backwards makes none due.
    pub open spec fn due(self, now_ms: u64) -> bool {
        now_ms - self.rotated_at_ms >= ROTATE_INTERVAL_MS
    }

    /// The ring once a fresh secret has superseded the current one.
    pub open spec fn rotated(self, secret: Seq<u8>, now_ms: u64) -> RingModel {
        let retired = seq![self.current] + self.retired;
        RingModel {
            current: PrekeyModel::of(self.next_generation, secret),
            retired: if retired.len() > RETAINED {
                retired.take(RETAINED as int)
            } else {
                retired
            },
            rotated_at_ms: now_ms,
            next_generation: generation_after(self.next_generation),
        }
    }

    /// The ring after a run of rotations, each with its secret and time.
    pub open spec fn rotated_all(self, runs: Seq<(Seq<u8>, u64)>) -> RingModel
        decreases runs.len(),
    {
        if runs.len() == 0 {
            self
        } else {
            self.rotated_all(runs.drop_last()).rotated(runs.last().0, runs.last().1)
        }
    }
}

impl View for PrekeyPair {
    type V = PrekeyModel;

    open spec fn view(&self) -> PrekeyModel {
        PrekeyModel { generation: self.generation, public: self.public@, secret: self.secret@ }
    }
}

spec fn pair_models(pairs: Seq<PrekeyPair>) -> Seq<PrekeyModel> {
    pairs.map_values(|pair: PrekeyPair| pair@)
}

impl View for PrekeyRing {
    type V = RingModel;

    closed spec fn view(&self) -> RingModel {
        RingModel {
            current: self.current@,
            retired: pair_models(self.retired@),
            rotated_at_ms: self.rotated_at_ms,
            next_generation: self.next_generation,
        }
    }
}

/// A bundle: generation, public key, signature.
pub open spec fn bundle_bytes(generation: u32, public: Seq<u8>, signature: Seq<u8>) -> Seq<u8> {
    bytes::le_bytes(generation as nat, 4) + public + signature
}

/// What a bundle advertises for `peer`: nothing unless it is well formed and
/// `peer` signed it.
pub open spec fn advertised(peer: Seq<u8>, body: Seq<u8>) -> Option<(u32, Seq<u8>)> {
    if body.len() != BUNDLE_LEN {
        None
    } else {
        let generation = bytes::le_value(body.subrange(0, 4)) as u32;
        let public = body.subrange(4, 36);
        let statement = crypto::prekey_statement(generation, public);
        if crypto::ed25519_verifies(peer, statement, body.subrange(36, 100)) {
            Some((generation, public))
        } else {
            None
        }
    }
}

// ---------------------------------------------------------------------------
// Ring
// ---------------------------------------------------------------------------

impl PrekeyPair {
    /// The prekey of a given secret.
    fn of_secret(generation: u32, secret: StaticSecret) -> (pair: Self)
        ensures
            pair@ == PrekeyModel::of(generation, secret@),
            pair@.sound(),
    {
        let public: [u8; 32] = secret.public_key();
        PrekeyPair { generation, public, secret }
    }

    pub fn secret(&self) -> (secret: &StaticSecret)
        ensures
            secret@ == self@.secret,
    {
        &self.secret
    }

    /// A short name for log lines. It never shows the secret.
    pub fn describe(&self) -> (text: String)
        ensures
            text@ == "PrekeyPair(gen "@ + text::decimal_chars(self@.generation as nat) + ", "@
                + text::hex_chars(self@.public.subrange(0, 8)) + ")"@,
    {
        "PrekeyPair(gen ".to_owned().concat(text::decimal(self.generation as u64).as_str()).concat(
            ", ",
        ).concat(crypto::hex16(&self.public).as_str()).concat(")")
    }
}

impl PrekeyRing {
    /// A ring with one fresh prekey. The only failure is that the system has no
    /// randomness.
    pub fn new(now_ms: u64) -> (ring: Result<Self, CoreError>)
        ensures
            match ring {
                Ok(ring) => {
                    &&& exists|secret: Seq<u8>|
                        ring@ == #[trigger] RingModel::started(secret, now_ms)
                    &&& ring@.well_formed()
                    &&& ring@.sound()
                },
                Err(error) => error == CoreError::Crypto("getrandom failed"),
            },
    {
        match crypto::random_secret() {
            Ok(secret) => Ok(PrekeyRing::starting_with(secret, now_ms)),
            Err(error) => Err(error),
        }
    }

    /// A ring that starts with a given secret.
    pub fn starting_with(secret: StaticSecret, now_ms: u64) -> (ring: Self)
        ensures
            ring@ == RingModel::started(secret@, now_ms),
            ring@.well_formed(),
            ring@.sound(),
    {
        let ring = PrekeyRing {
            current: PrekeyPair::of_secret(0, secret),
            retired: VecDeque::new(),
            rotated_at_ms: now_ms,
            next_generation: 1,
        };
        assert(ring@.retired =~= Seq::empty());
        ring
    }

    pub fn current(&self) -> (pair: &PrekeyPair)
        ensures
            pair@ == self@.current,
            pair.generation == self@.current.generation,
            pair.public@ == self@.current.public,
    {
        &self.current
    }

    /// Look up a prekey by the generation a sender addressed. `None` means it has
    /// been rotated out: the message is undecryptable, by design.
    pub fn get(&self, generation: u32) -> (pair: Option<&PrekeyPair>)
        requires
            self@.well_formed(),
        ensures
            match pair {
                Some(pair) => {
                    &&& self@.find(generation) == Some(pair@)
                    &&& pair.generation == generation
                    &&& pair.public@ == self@.find(generation)->Some_0.public
                },
                None => self@.find(generation) is None,
            },
    {
        if self.current.generation == generation {
            return Some(&self.current);
        }
        let mut i: usize = 0;
        while i < self.retired.len()
            invariant
                i <= self.retired@.len(),
                self@.well_formed(),
                self.current.generation != generation,
                forall|j: int| 0 <= j < i ==> (#[trigger] self@.retired[j]).generation
                    != generation,
            decreases self.retired@.len() - i,
        {
            assert(self@.retired[i as int] == self.retired@[i as int]@);
            if self.retired[i].generation == generation {
                return Some(&self.retired[i]);
            }
            i = i + 1;
        }
        proof {
            let age = rotations_between(generation, self@.current.generation);
            if age <= self@.retired.len() && age != 0 {
                let held = self@.retired[age - 1].generation;
                assert(rotations_between(held, self@.current.generation) == age);
                assert(held == generation);
            }
        }
        None
    }

    /// Whether the interval has elapsed.
    pub fn is_due(&self, now_ms: u64) -> (due: bool)
        ensures
            due == self@.due(now_ms),
    {
        now_ms >= self.rotated_at_ms && now_ms - self.rotated_at_ms >= ROTATE_INTERVAL_MS
    }

    /// Rotate if the interval has elapsed. Returns whether it did, so that the
    /// caller knows to publish its beacon again.
    pub fn rotate_if_due(&mut self, now_ms: u64) -> (rotated: Result<bool, CoreError>)
        requires
            old(self)@.well_formed(),
        ensures
            final(self)@.well_formed(),
            old(self)@.sound() ==> final(self)@.sound(),
            match rotated {
                Ok(true) => old(self)@.due(now_ms) && exists|secret: Seq<u8>|
                    final(self)@ == #[trigger] old(self)@.rotated(secret, now_ms),
                Ok(false) => !old(self)@.due(now_ms) && final(self)@ == old(self)@,
                Err(error) => {
                    &&& old(self)@.due(now_ms)
                    &&& error == CoreError::Crypto("getrandom failed")
                    &&& final(self)@ == old(self)@
                },
            },
    {
        if !self.is_due(now_ms) {
            return Ok(false);
        }
        match self.rotate(now_ms) {
            Ok(_) => Ok(true),
            Err(error) => Err(error),
        }
    }

    /// Replace the current prekey by a fresh one. The only failure is that the
    /// system has no randomness; the ring is then as it was.
    pub fn rotate(&mut self, now_ms: u64) -> (rotated: Result<(), CoreError>)
        requires
            old(self)@.well_formed(),
        ensures
            final(self)@.well_formed(),
            old(self)@.sound() ==> final(self)@.sound(),
            match rotated {
                Ok(_) => exists|secret: Seq<u8>|
                    final(self)@ == #[trigger] old(self)@.rotated(secret, now_ms),
                Err(error) => {
                    &&& error == CoreError::Crypto("getrandom failed")
                    &&& final(self)@ == old(self)@
                },
            },
    {
        match crypto::random_secret() {
            Ok(secret) => {
                self.rotate_to(secret, now_ms);
                Ok(())
            },
            Err(error) => Err(error),
        }
    }

    /// Replace the current prekey by the one of a given secret. What is retired
    /// beyond [`RETAINED`] is dropped, and its secret overwritten: that traffic
    /// becomes unrecoverable to anyone, including us.
    pub fn rotate_to(&mut self, secret: StaticSecret, now_ms: u64)
        requires
            old(self)@.well_formed(),
        ensures
            final(self)@ == old(self)@.rotated(secret@, now_ms),
            final(self)@.well_formed(),
            old(self)@.sound() ==> final(self)@.sound(),
    {
        let ghost before = self@;
        let mut fresh = PrekeyPair::of_secret(self.next_generation, secret);
        std::mem::swap(&mut self.current, &mut fresh);
        self.next_generation = if self.next_generation == u32::MAX {
            0
        } else {
            self.next_generation + 1
        };
        self.retired.push_front(fresh);
        assert(self@.retired =~= seq![before.current] + before.retired);
        if self.retired.len() > RETAINED {
            let dropped: Option<PrekeyPair> = self.retired.pop_back();
            assert(self@.retired =~= (seq![before.current] + before.retired).take(
                RETAINED as int,
            ));
        }
        self.rotated_at_ms = now_ms;
        proof {
            lemma_rotated(before, secret@, now_ms);
        }
    }

    /// Serialise the current prekey plus its signature, for the beacon body. It
    /// reads back as what the identity advertises.
    pub fn bundle(&self, identity: &Identity) -> (body: Vec<u8>)
        ensures
            body@ == bundle_bytes(
                self@.current.generation,
                self@.current.public,
                crypto::ed25519_signature(
                    identity.seed(),
                    crypto::prekey_statement(self@.current.generation, self@.current.public),
                ),
            ),
            body@.len() == BUNDLE_LEN,
            advertised(identity.id()@, body@) == Some(
                (self@.current.generation, self@.current.public),
            ),
    {
        let signature: [u8; 64] = crypto::sign_prekey(
            identity,
            self.current.generation,
            &self.current.public,
        );
        let mut body: Vec<u8> = Vec::with_capacity(BUNDLE_LEN);
        bytes::put_le(&mut body, self.current.generation as u64, 4);
        bytes::put_all(&mut body, &self.current.public);
        bytes::put_all(&mut body, &signature);
        proof {
            let generation = self.current.generation;
            bytes::lemma_le_limits();
            bytes::lemma_le_bytes_len(generation as nat, 4);
            bytes::lemma_le_round_trip(generation as nat, 4);
            assert(body@ =~= bundle_bytes(generation, self.current.public@, signature@));
            assert(body@.subrange(0, 4) =~= bytes::le_bytes(generation as nat, 4));
            assert(body@.subrange(4, 36) =~= self.current.public@);
            assert(body@.subrange(36, 100) =~= signature@);
        }
        body
    }

    /// The generations still held besides the current one, newest first.
    pub fn retired_generations(&self) -> (generations: Vec<u32>)
        ensures
            generations@ == self@.retired.map_values(|pair: PrekeyModel| pair.generation),
    {
        let mut generations: Vec<u32> = Vec::new();
        let mut i: usize = 0;
        while i < self.retired.len()
            invariant
                i <= self.retired@.len(),
                generations@ == self@.retired.take(i as int).map_values(
                    |pair: PrekeyModel| pair.generation,
                ),
            decreases self.retired@.len() - i,
        {
            generations.push(self.retired[i].generation);
            proof {
                assert(generations@ =~= self@.retired.take(i + 1).map_values(
                    |pair: PrekeyModel| pair.generation,
                ));
            }
            i = i + 1;
        }
        assert(self@.retired.take(i as int) =~= self@.retired);
        generations
    }
}

/// Parse and **verify** a peer's advertised bundle.
///
/// Returns `None` for anything malformed or incorrectly signed. Beacons are sealed
/// with the shared channel key, so without a signature any member could advertise
/// a prekey under another member's id and receive their directed mail.
pub fn parse_bundle(peer: &PeerId, body: &[u8]) -> (prekey: Option<PeerPrekey>)
    ensures
        match prekey {
            Some(prekey) => advertised(peer@, body@) == Some((prekey.generation, prekey.public@)),
            None => advertised(peer@, body@) is None,
        },
{
    if body.len() != BUNDLE_LEN {
        return None;
    }
    proof {
        bytes::lemma_le_limits();
    }
    let generation: u32 = bytes::get_le(body, 0, 4) as u32;
    let public: [u8; 32] = bytes::get_32(body, 4);
    let signature: [u8; 64] = bytes::get_64(body, 36);
    if crypto::verify_prekey(peer, generation, &public, &signature) {
        Some(PeerPrekey { generation, public })
    } else {
        None
    }
}

// ---------------------------------------------------------------------------
// Laws
// ---------------------------------------------------------------------------

proof fn lemma_rotated(ring: RingModel, secret: Seq<u8>, now_ms: u64)
    requires
        ring.well_formed(),
    ensures
        ring.rotated(secret, now_ms).well_formed(),
        ring.sound() && secret.len() == 32 ==> ring.rotated(secret, now_ms).sound(),
{
    let after = ring.rotated(secret, now_ms);
    let retired = seq![ring.current] + ring.retired;
    assert forall|i: int| 0 <= i < after.retired.len() implies rotations_between(
        (#[trigger] after.retired[i]).generation,
        after.current.generation,
    ) == i + 1 by {
        assert(after.retired[i] == retired[i]);
        if i > 0 {
            assert(retired[i] == ring.retired[i - 1]);
            assert(rotations_between(ring.retired[i - 1].generation, ring.current.generation) == i);
        }
    }
    assert forall|i: int| ring.sound() && 0 <= i < after.retired.len() implies (
    #[trigger] after.retired[i]).sound() by {
        assert(after.retired[i] == retired[i]);
        if i > 0 {
            assert(retired[i] == ring.retired[i - 1]);
        }
    }
}

/// The current prekey is always retrievable under its generation.
pub proof fn law_current_is_retrievable(ring: RingModel)
    ensures
        ring.find(ring.current.generation) == Some(ring.current),
{
}

/// What a ring that has rotated `runs` times still holds of its earlier current
/// prekey.
proof fn lemma_rotations(ring: RingModel, runs: Seq<(Seq<u8>, u64)>)
    requires
        ring.well_formed(),
    ensures
        ring.rotated_all(runs).well_formed(),
        rotations_between(ring.current.generation, ring.rotated_all(runs).current.generation)
            == runs.len() as int % 0x1_0000_0000,
        ring.rotated_all(runs).retired.len() == (if ring.retired.len() + runs.len() < RETAINED {
            ring.retired.len() + runs.len()
        } else {
            RETAINED as nat
        }),
        0 < runs.len() <= RETAINED ==> ring.rotated_all(runs).retired[runs.len() - 1]
            == ring.current,
        runs.len() == 0 ==> ring.rotated_all(runs) == ring,
    decreases runs.len(),
{
    if runs.len() > 0 {
        let shorter = runs.drop_last();
        lemma_rotations(ring, shorter);
        let before = ring.rotated_all(shorter);
        lemma_rotated(before, runs.last().0, runs.last().1);
        let after = ring.rotated_all(runs);
        let retired = seq![before.current] + before.retired;
        if runs.len() <= RETAINED {
            assert(after.retired[runs.len() - 1] == retired[runs.len() - 1]);
        }
    }
}

/// A superseded prekey still opens mail that was in flight: for up to
/// [`RETAINED`] rotations it is found under its generation, unchanged.
pub proof fn law_recent_generations_stay_decryptable(
    ring: RingModel,
    runs: Seq<(Seq<u8>, u64)>,
)
    requires
        ring.well_formed(),
        runs.len() <= RETAINED,
    ensures
        ring.rotated_all(runs).find(ring.current.generation) == Some(ring.current),
{
    lemma_rotations(ring, runs);
}

/// Rotating past the retention depth destroys the secret: the generation is no
/// longer found, until generation numbers wrap all the way around.
pub proof fn law_old_generations_are_gone(ring: RingModel, runs: Seq<(Seq<u8>, u64)>)
    requires
        ring.well_formed(),
        RETAINED < runs.len() < 0x1_0000_0000,
    ensures
        ring.rotated_all(runs).find(ring.current.generation) is None,
        ring.rotated_all(runs).retired.len() == RETAINED,
{
    lemma_rotations(ring, runs);
}

/// Retention outlives the outbox deadline: a retried message can be that old when
/// it lands, and its prekey must still exist then. A stolen ring exposes four
/// intervals of traffic.
pub proof fn law_retention_outlives_the_outbox_deadline()
    ensures
        ROTATE_INTERVAL_MS * RETAINED > outbox::DEADLINE_MS,
        ROTATE_INTERVAL_MS * (RETAINED + 1) == 240_000,
{
}

/// The sender chain is replaced as often as the prekeys are.
pub proof fn law_chain_rotation_matches_prekey_rotation()
    ensures
        senderkey::ROTATE_INTERVAL_MS == ROTATE_INTERVAL_MS,
{
}

/// What a bundle has to be: a hundred bytes, the generation, the key and a signature
/// of the two that verifies under the peer's id; and then that is what it advertises.
pub proof fn law_what_a_bundle_advertises(peer: Seq<u8>, body: Seq<u8>)
    ensures
        advertised(peer, body) is Some == (body.len() == 100 && crypto::ed25519_verifies(
            peer,
            crypto::prekey_statement(
                bytes::le_value(body.subrange(0, 4)) as u32,
                body.subrange(4, 36),
            ),
            body.subrange(36, 100),
        )),
        advertised(peer, body) matches Some((generation, public)) ==> {
            &&& generation == bytes::le_value(body.subrange(0, 4))
            &&& public == body.subrange(4, 36)
        },
{
    if body.len() == 100 {
        bytes::lemma_le_limits();
        bytes::lemma_le_value_bound(body.subrange(0, 4));
    }
}

/// A bundle reads back: it advertises what was put into it, to whom its signature
/// verifies.
pub proof fn law_bundle_reads_back(
    peer: Seq<u8>,
    generation: u32,
    public: Seq<u8>,
    signature: Seq<u8>,
)
    requires
        public.len() == 32,
        signature.len() == 64,
        crypto::ed25519_verifies(
            peer,
            crypto::prekey_statement(generation, public),
            signature,
        ),
    ensures
        advertised(peer, bundle_bytes(generation, public, signature)) == Some(
            (generation, public),
        ),
{
    let body = bundle_bytes(generation, public, signature);
    bytes::lemma_le_limits();
    bytes::lemma_le_bytes_len(generation as nat, 4);
    bytes::lemma_le_round_trip(generation as nat, 4);
    assert(body.subrange(0, 4) =~= bytes::le_bytes(generation as nat, 4));
    assert(body.subrange(4, 36) =~= public);
    assert(body.subrange(36, 100) =~= signature);
}

/// Rotating takes the next generation, keeps what it replaces first among the retired,
/// and drops what is retired past the third.
pub proof fn law_rotation_steps_one_generation(ring: RingModel, secret: Seq<u8>, now_ms: u64)
    requires
        ring.well_formed(),
        ring.current.generation < u32::MAX - 1,
    ensures
        ({
            let after = ring.rotated(secret, now_ms);
            &&& after.current.generation == ring.current.generation + 1
            &&& after.current.secret == secret
            &&& after.current.public == crypto::x25519_public(secret)
            &&& after.next_generation == ring.current.generation + 2
            &&& after.rotated_at_ms == now_ms
            &&& after.find(ring.current.generation) == Some(ring.current)
            &&& after.retired.len() == if ring.retired.len() < 3 {
                ring.retired.len() + 1
            } else {
                3
            }
            &&& after.retired[0] == ring.current
            &&& forall|i: int|
                1 <= i < after.retired.len() ==> #[trigger] after.retired[i] == ring.retired[i - 1]
        }),
{
}

/// A rotation is due a minute after the last, and a clock that went back makes none
/// due.
pub proof fn law_rotation_is_due_after_a_minute(ring: RingModel, now_ms: u64)
    ensures
        ring.due(now_ms) == (now_ms - ring.rotated_at_ms >= 60_000),
{
}

} // verus!
