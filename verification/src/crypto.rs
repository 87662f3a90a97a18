//! Identity, key agreement and AEAD.
//!
//! A node's identity is an **Ed25519** keypair, and its `PeerId` is the 32-byte
//! Ed25519 public key. Diffie-Hellman uses the birationally equivalent X25519
//! form of the same key. One keypair, two uses: a node has to sign its prekeys,
//! and X25519 keys cannot sign.
//!
//! Directed messages are forward secret by an exchange that costs no round trip.
//! Every node publishes a rotating signed prekey in its beacon. To send:
//!
//! ```text
//! DH1 = DH(ephemeral_sender, prekey_recipient)   <- provides forward secrecy
//! DH2 = DH(static_sender,    prekey_recipient)   <- authenticates the sender
//! key = KDF(DH1 | DH2 | sender | recipient | generation)
//! ```
//!
//! Broadcasts run over a sender chain, ratcheted once per message:
//!
//! ```text
//! mk_i     = KDF(ck_i, "sk-message")   <- seals broadcast i
//! ck_{i+1} = KDF(ck_i, "sk-chain")     <- replaces ck_i, which is erased
//! ```
//!
//! The primitives themselves come from outside crates. What each returns is
//! given a name here, and the key schedules are stated over those names.
use vstd::prelude::*;
use vstd::string::StringExecFns;

use chacha20poly1305::aead::{Aead, KeyInit, Payload};
use chacha20poly1305::{ChaCha20Poly1305, Key, Nonce};
use ed25519_dalek::{Signature, Signer, SigningKey, Verifier, VerifyingKey};
use sha2::{Digest, Sha256};
use zeroize::Zeroize;

use crate::bytes;
use crate::error::CoreError;
use crate::text;

verus! {

/// A peer is addressed by its 32-byte **Ed25519** public key.
pub type PeerId = [u8; 32];

/// Reserved all-zero id meaning "everyone".
///
/// It decompresses to a valid (small-order) Edwards point, so nothing about the
/// key itself keeps it apart: every code path compares against it before choosing
/// a key, and the Diffie-Hellman step refuses it outright.
pub const BROADCAST_ID: PeerId = [
    0, 0, 0, 0, 0, 0, 0, 0, 0, 0, 0, 0, 0, 0, 0,
    0, 0, 0, 0, 0, 0, 0, 0, 0, 0, 0, 0, 0, 0, 0,
    0, 0,
];

/// Domain separator at the start of every derived key: the bytes of
/// `meshcore/v4/ed25519-x25519-chacha20poly1305`. Changing it keeps builds from
/// talking to each other, which is the point during a protocol migration.
pub const KDF_DOMAIN: [u8; 43] = [
    0x6d, 0x65, 0x73, 0x68, 0x63, 0x6f, 0x72, 0x65, 0x2f, 0x76, 0x34, 0x2f, 0x65, 0x64, 0x32,
    0x35, 0x35, 0x31, 0x39, 0x2d, 0x78, 0x32, 0x35, 0x35, 0x31, 0x39, 0x2d, 0x63, 0x68, 0x61,
    0x63, 0x68, 0x61, 0x32, 0x30, 0x70, 0x6f, 0x6c, 0x79, 0x31, 0x33, 0x30, 0x35,
];

/// The channel every node falls into when the caller supplies nothing: the
/// bytes of `meshcore/v4/open-channel`.
///
/// This is a *published* value, not a secret: it names the open mesh anyone can
/// join. A caller that wants a mesh only its members can read passes its own
/// bytes as `Config::channel_secret`.
pub const OPEN_CHANNEL: &'static [u8; 24] = &[
    0x6d, 0x65, 0x73, 0x68, 0x63, 0x6f, 0x72, 0x65, 0x2f, 0x76, 0x34, 0x2f, 0x6f, 0x70, 0x65,
    0x6e, 0x2d, 0x63, 0x68, 0x61, 0x6e, 0x6e, 0x65, 0x6c,
];

/// Signed alongside a prekey, so that a signature can never be replayed as
/// anything but a prekey announcement: the bytes of `meshcore/v4/prekey`.
pub const PREKEY_DOMAIN: [u8; 18] = [
    0x6d, 0x65, 0x73, 0x68, 0x63, 0x6f, 0x72, 0x65, 0x2f, 0x76, 0x34, 0x2f, 0x70, 0x72, 0x65,
    0x6b, 0x65, 0x79,
];

/// Tag of the static-static key: byte 1 and `static`.
pub const TAG_STATIC: [u8; 7] = [
    0x01, 0x73, 0x74, 0x61, 0x74, 0x69, 0x63,
];

/// Tag of the channel key: byte 2 and `broadcast`.
pub const TAG_BROADCAST: [u8; 10] = [
    0x02, 0x62, 0x72, 0x6f, 0x61, 0x64, 0x63, 0x61, 0x73, 0x74,
];

/// Tag of the forward-secret directed key: byte 3 and `forward-secret`.
pub const TAG_FORWARD_SECRET: [u8; 15] = [
    0x03, 0x66, 0x6f, 0x72, 0x77, 0x61, 0x72, 0x64, 0x2d, 0x73, 0x65, 0x63, 0x72, 0x65, 0x74,
];

/// Tag of a message key taken from a sender chain: byte 4 and `sk-message`.
pub const TAG_SK_MESSAGE: [u8; 11] = [
    0x04, 0x73, 0x6b, 0x2d, 0x6d, 0x65, 0x73, 0x73, 0x61, 0x67, 0x65,
];

/// Tag of the next key of a sender chain: byte 5 and `sk-chain`.
pub const TAG_SK_CHAIN: [u8; 9] = [
    0x05, 0x73, 0x6b, 0x2d, 0x63, 0x68, 0x61, 0x69, 0x6e,
];

pub const NONCE_LEN: usize = 12;

pub const TAG_LEN: usize = 16;

pub const SIGNATURE_LEN: usize = 64;

/// Longest plaintext one nonce may seal, in bytes. The stream cipher counts its
/// 64-byte blocks in 32 bits, and the first two numbers are taken.
pub const MAX_PLAINTEXT: u64 = 0x3F_FFFF_FF80;

/// Shortest plaintext that is refused for its length, in bytes.
pub const REFUSED_PLAINTEXT: u64 = 0x3F_FFFF_FFC0;

// ---------------------------------------------------------------------------
// Names of what the outside functions return
// ---------------------------------------------------------------------------

/// SHA-256 of a byte string.
pub uninterp spec fn sha256(data: Seq<u8>) -> Seq<u8>;

/// The Ed25519 public key of a 32-byte seed.
pub uninterp spec fn ed25519_public(seed: Seq<u8>) -> Seq<u8>;

/// The X25519 secret that goes with an Ed25519 seed.
pub uninterp spec fn ed25519_scalar(seed: Seq<u8>) -> Seq<u8>;

/// The Ed25519 signature of a message under a seed.
pub uninterp spec fn ed25519_signature(seed: Seq<u8>, message: Seq<u8>) -> Seq<u8>;

/// Whether a signature of a message verifies under a public key.
pub uninterp spec fn ed25519_verifies(id: Seq<u8>, message: Seq<u8>, signature: Seq<u8>) -> bool;

/// The X25519 form of an Ed25519 public key, where the bytes are a point.
pub uninterp spec fn ed25519_montgomery(id: Seq<u8>) -> Option<Seq<u8>>;

/// The X25519 public key of a secret.
pub uninterp spec fn x25519_public(secret: Seq<u8>) -> Seq<u8>;

/// The X25519 shared secret of a secret and a public key.
pub uninterp spec fn x25519_shared(secret: Seq<u8>, public: Seq<u8>) -> Seq<u8>;

/// ChaCha20-Poly1305 ciphertext, tag included.
pub uninterp spec fn aead_sealed(
    key: Seq<u8>,
    nonce: Seq<u8>,
    aad: Seq<u8>,
    plaintext: Seq<u8>,
) -> Seq<u8>;

/// What a ChaCha20-Poly1305 ciphertext opens to, where it authenticates.
pub uninterp spec fn aead_opened(
    key: Seq<u8>,
    nonce: Seq<u8>,
    aad: Seq<u8>,
    ciphertext: Seq<u8>,
) -> Option<Seq<u8>>;

// ---------------------------------------------------------------------------
// Calls into the outside crates
// ---------------------------------------------------------------------------

/// Error of `getrandom`.
#[verifier::external_type_specification]
#[verifier::external_body]
pub struct ExRandomError(getrandom::Error);

/// Error of the AEAD.
#[verifier::external_type_specification]
#[verifier::external_body]
pub struct ExAeadError(chacha20poly1305::aead::Error);

/// `getrandom` overwrites the bytes it is given and leaves their number alone.
/// Nothing is said of what it writes.
pub assume_specification[ getrandom::getrandom ](dest: &mut [u8]) -> (filled: Result<
    (),
    getrandom::Error,
>)
    ensures
        final(dest)@.len() == old(dest)@.len(),
;

/// `Zeroize::zeroize` on a byte array writes zeros over it.
#[verifier::external_body]
pub(crate) fn wipe(key: &mut [u8; 32])
    ensures
        final(key)@ == bytes::zeros(32),
    opens_invariants none
    no_unwind
{
    key.zeroize();
}

/// `Sha256::digest`, under the name [`sha256`].
#[verifier::external_body]
fn sha256_of(data: &[u8]) -> (digest: [u8; 32])
    ensures
        digest@ == sha256(data@),
{
    Sha256::digest(data).into()
}

/// `SigningKey::verifying_key`, under the name [`ed25519_public`]. Its
/// Montgomery form is the X25519 public key of `SigningKey::to_scalar_bytes`,
/// as `VerifyingKey::to_montgomery` documents.
#[verifier::external_body]
fn ed25519_public_key(seed: &[u8; 32]) -> (id: [u8; 32])
    ensures
        id@ == ed25519_public(seed@),
        ed25519_montgomery(id@) == Some(x25519_public(ed25519_scalar(seed@))),
{
    SigningKey::from_bytes(seed).verifying_key().to_bytes()
}

/// `SigningKey::to_scalar_bytes`, under the name [`ed25519_scalar`].
#[verifier::external_body]
fn ed25519_scalar_bytes(seed: &[u8; 32]) -> (scalar: [u8; 32])
    ensures
        scalar@ == ed25519_scalar(seed@),
{
    SigningKey::from_bytes(seed).to_scalar_bytes()
}

/// `SigningKey::sign`, under the name [`ed25519_signature`]. A signature
/// verifies under the public key of the seed that made it.
#[verifier::external_body]
fn ed25519_sign(seed: &[u8; 32], message: &[u8]) -> (signature: [u8; 64])
    ensures
        signature@ == ed25519_signature(seed@, message@),
        ed25519_verifies(ed25519_public(seed@), message@, signature@),
{
    SigningKey::from_bytes(seed).sign(message).to_bytes()
}

/// `VerifyingKey::verify`, under the name [`ed25519_verifies`]; bytes that
/// `VerifyingKey::from_bytes` does not take as a point verify nothing. Nothing is
/// said of a signature under an identity that did not make it: that it fails is a
/// matter of how hard a forgery is to find, not of every input.
#[verifier::external_body]
fn ed25519_verify(id: &[u8; 32], message: &[u8], signature: &[u8; 64]) -> (valid: bool)
    ensures
        valid == ed25519_verifies(id@, message@, signature@),
{
    match VerifyingKey::from_bytes(id) {
        Ok(key) => key.verify(message, &Signature::from_bytes(signature)).is_ok(),
        Err(_) => false,
    }
}

/// `VerifyingKey::to_montgomery`, under the name [`ed25519_montgomery`]: `None`
/// where `VerifyingKey::from_bytes` does not take the bytes as a point.
#[verifier::external_body]
fn ed25519_to_montgomery(id: &[u8; 32]) -> (public: Option<[u8; 32]>)
    ensures
        match public {
            Some(bytes) => ed25519_montgomery(id@) == Some(bytes@),
            None => ed25519_montgomery(id@) is None,
        },
{
    VerifyingKey::from_bytes(id).ok().map(|key| key.to_montgomery().to_bytes())
}

/// `PublicKey::from` on a `StaticSecret`, under the name [`x25519_public`].
#[verifier::external_body]
fn x25519_public_key(secret: &[u8; 32]) -> (public: [u8; 32])
    ensures
        public@ == x25519_public(secret@),
{
    x25519_dalek::PublicKey::from(&x25519_dalek::StaticSecret::from(*secret)).to_bytes()
}

/// `StaticSecret::diffie_hellman`, under the name [`x25519_shared`], with
/// `SharedSecret::was_contributory`, which is whether the shared bytes are not
/// all zero. Whoever holds the secret of `public` computes the same bytes from
/// the public key of `secret`.
#[verifier::external_body]
fn x25519_agree(secret: &[u8; 32], public: &[u8; 32]) -> (agreed: ([u8; 32], bool))
    ensures
        agreed.0@ == x25519_shared(secret@, public@),
        agreed.1 == (agreed.0@ != bytes::zeros(32)),
        forall|other: Seq<u8>|
            other.len() == 32 && #[trigger] x25519_public(other) == public@ ==> agreed.0@
                == x25519_shared(other, x25519_public(secret@)),
{
    let shared = x25519_dalek::StaticSecret::from(*secret).diffie_hellman(
        &x25519_dalek::PublicKey::from(*public),
    );
    (*shared.as_bytes(), shared.was_contributory())
}

/// A plaintext length the cipher has an answer for. It panics on the lengths in
/// between, which its block counter cannot reach but its length check lets pass.
pub open spec fn has_answer(len: nat) -> bool {
    len <= MAX_PLAINTEXT || len >= REFUSED_PLAINTEXT
}

/// `ChaCha20Poly1305::encrypt`, under the name [`aead_sealed`]. It adds a
/// 16-byte tag, fails exactly on plaintexts from [`REFUSED_PLAINTEXT`] on, and what
/// it returns opens to the plaintext again. Room for plaintext and tag must be
/// allocatable.
#[verifier::external_body]
fn chacha_encrypt(key: &[u8; 32], nonce: &[u8; 12], aad: &[u8], plaintext: &[u8]) -> (sealed:
    Result<Vec<u8>, chacha20poly1305::aead::Error>)
    requires
        has_answer(plaintext@.len()),
        plaintext@.len() + TAG_LEN <= isize::MAX,
    ensures
        sealed is Err <==> plaintext@.len() >= REFUSED_PLAINTEXT,
        sealed matches Ok(bytes) ==> {
            &&& bytes@ == aead_sealed(key@, nonce@, aad@, plaintext@)
            &&& bytes@.len() == plaintext@.len() + TAG_LEN
            &&& aead_opened(key@, nonce@, aad@, bytes@) == Some(plaintext@)
        },
{
    ChaCha20Poly1305::new(Key::from_slice(key)).encrypt(
        Nonce::from_slice(nonce),
        Payload { msg: plaintext, aad },
    )
}

/// `ChaCha20Poly1305::decrypt`, under the name [`aead_opened`]. It strips the
/// 16-byte tag, and accepts only the ciphertext that sealing the plaintext gives.
/// What is shorter than a tag, or too long to have been sealed, does not open.
/// Nothing is said of what another key, nonce or associated data opens it to: that
/// such an opening fails is a matter of how hard a forgery is to find, not of every
/// input.
#[verifier::external_body]
fn chacha_decrypt(key: &[u8; 32], nonce: &[u8; 12], aad: &[u8], ciphertext: &[u8]) -> (opened:
    Result<Vec<u8>, chacha20poly1305::aead::Error>)
    requires
        ciphertext@.len() >= TAG_LEN ==> has_answer((ciphertext@.len() - TAG_LEN) as nat),
    ensures
        match opened {
            Ok(plaintext) => {
                &&& aead_opened(key@, nonce@, aad@, ciphertext@) == Some(plaintext@)
                &&& plaintext@.len() + TAG_LEN == ciphertext@.len()
                &&& aead_sealed(key@, nonce@, aad@, plaintext@) == ciphertext@
            },
            Err(_) => aead_opened(key@, nonce@, aad@, ciphertext@) is None,
        },
{
    ChaCha20Poly1305::new(Key::from_slice(key)).decrypt(
        Nonce::from_slice(nonce),
        Payload { msg: ciphertext, aad },
    )
}

// ---------------------------------------------------------------------------
// Key schedule
// ---------------------------------------------------------------------------

/// A fallible key, with the key taken by its bytes.
pub open spec fn key_bytes(key: Result<[u8; 32], CoreError>) -> Result<Seq<u8>, CoreError> {
    match key {
        Ok(bytes) => Ok(bytes@),
        Err(error) => Err(error),
    }
}

/// What is hashed into a key: the domain, the tag of the key, the material.
pub open spec fn transcript(tag: Seq<u8>, material: Seq<u8>) -> Seq<u8> {
    KDF_DOMAIN@ + tag + material
}

/// `id` is the identity key of `seed`, in both of its forms.
pub open spec fn is_identity(seed: Seq<u8>, id: Seq<u8>) -> bool {
    &&& id == ed25519_public(seed)
    &&& ed25519_scalar(seed).len() == 32
    &&& ed25519_montgomery(id) == Some(x25519_public(ed25519_scalar(seed)))
}

/// The Diffie-Hellman step: an all-zero outcome is refused.
pub open spec fn dh(secret: Seq<u8>, public: Seq<u8>) -> Result<Seq<u8>, CoreError> {
    if x25519_shared(secret, public) == bytes::zeros(32) {
        Err(CoreError::Crypto("non-contributory DH: small-order public key"))
    } else {
        Ok(x25519_shared(secret, public))
    }
}

/// The X25519 form of a peer id.
pub open spec fn peer_public(peer: Seq<u8>) -> Result<Seq<u8>, CoreError> {
    match ed25519_montgomery(peer) {
        Some(public) => Ok(public),
        None => Err(CoreError::Crypto("bad peer id")),
    }
}

/// Both identities, in an order that does not depend on who is sending.
pub open spec fn sorted_ids(a: Seq<u8>, b: Seq<u8>) -> Seq<u8> {
    if bytes::lex_le(a, b) {
        a + b
    } else {
        b + a
    }
}

/// The static-static key that the identity `(seed, id)` shares with `peer`.
pub open spec fn static_key(seed: Seq<u8>, id: Seq<u8>, peer: Seq<u8>) -> Result<
    Seq<u8>,
    CoreError,
> {
    match peer_public(peer) {
        Err(error) => Err(error),
        Ok(public) => match dh(ed25519_scalar(seed), public) {
            Err(error) => Err(error),
            Ok(shared) => Ok(sha256(transcript(TAG_STATIC@, shared + sorted_ids(id, peer)))),
        },
    }
}

/// The two Diffie-Hellman outcomes combined with their context.
pub open spec fn fs_key_of(
    dh1: Seq<u8>,
    dh2: Seq<u8>,
    sender: Seq<u8>,
    recipient: Seq<u8>,
    generation: u32,
) -> Seq<u8> {
    sha256(
        transcript(
            TAG_FORWARD_SECRET@,
            dh1 + dh2 + sender + recipient + bytes::le_bytes(generation as nat, 4),
        ),
    )
}

/// The forward-secret key on the sender's side.
pub open spec fn fs_seal_key(
    seed: Seq<u8>,
    id: Seq<u8>,
    ephemeral: Seq<u8>,
    recipient: Seq<u8>,
    prekey: Seq<u8>,
    generation: u32,
) -> Result<Seq<u8>, CoreError> {
    match dh(ephemeral, prekey) {
        Err(error) => Err(error),
        Ok(dh1) => match dh(ed25519_scalar(seed), prekey) {
            Err(error) => Err(error),
            Ok(dh2) => Ok(fs_key_of(dh1, dh2, id, recipient, generation)),
        },
    }
}

/// The forward-secret key on the recipient's side.
pub open spec fn fs_open_key(
    prekey_secret: Seq<u8>,
    ephemeral_public: Seq<u8>,
    sender: Seq<u8>,
    recipient: Seq<u8>,
    generation: u32,
) -> Result<Seq<u8>, CoreError> {
    match dh(prekey_secret, ephemeral_public) {
        Err(error) => Err(error),
        Ok(dh1) => match peer_public(sender) {
            Err(error) => Err(error),
            Ok(public) => match dh(prekey_secret, public) {
                Err(error) => Err(error),
                Ok(dh2) => Ok(fs_key_of(dh1, dh2, sender, recipient, generation)),
            },
        },
    }
}

/// The group key of a channel. The secret is length-prefixed.
pub open spec fn channel_key(secret: Seq<u8>) -> Seq<u8> {
    sha256(transcript(TAG_BROADCAST@, bytes::le_bytes(secret.len(), 8) + secret))
}

/// The message key of one position of a sender chain.
pub open spec fn message_key(chain: Seq<u8>) -> Seq<u8> {
    sha256(transcript(TAG_SK_MESSAGE@, chain))
}

/// The chain key that replaces `chain`.
pub open spec fn next_chain_key(chain: Seq<u8>) -> Seq<u8> {
    sha256(transcript(TAG_SK_CHAIN@, chain))
}

/// The chain key `steps` positions on.
pub open spec fn chain_key_after(chain: Seq<u8>, steps: nat) -> Seq<u8>
    decreases steps,
{
    if steps == 0 {
        chain
    } else {
        next_chain_key(chain_key_after(chain, (steps - 1) as nat))
    }
}

/// What is signed to publish a prekey.
pub open spec fn prekey_statement(generation: u32, prekey: Seq<u8>) -> Seq<u8> {
    PREKEY_DOMAIN@ + bytes::le_bytes(generation as nat, 4) + prekey
}

// ---------------------------------------------------------------------------
// Secrets
// ---------------------------------------------------------------------------

/// 32 secret bytes, for Diffie-Hellman or as an identity seed. They are
/// overwritten when the value is dropped.
pub struct StaticSecret {
    bytes: [u8; 32],
}

impl View for StaticSecret {
    type V = Seq<u8>;

    closed spec fn view(&self) -> Seq<u8> {
        self.bytes@
    }
}

impl Drop for StaticSecret {
    /// A secret does not outlive its holder: its bytes are zeroed.
    fn drop(&mut self)
        ensures
            final(self)@ == bytes::zeros(32),
        opens_invariants none
        no_unwind
    {
        wipe(&mut self.bytes);
    }
}

impl StaticSecret {
    pub fn from_bytes(bytes: [u8; 32]) -> (secret: Self)
        ensures
            secret@ == bytes@,
            secret@.len() == 32,
    {
        StaticSecret { bytes }
    }

    /// The X25519 public key of this secret.
    pub fn public_key(&self) -> (public: [u8; 32])
        ensures
            public@ == x25519_public(self@),
            self@.len() == 32,
    {
        x25519_public_key(&self.bytes)
    }
}

// ---------------------------------------------------------------------------
// Identity
// ---------------------------------------------------------------------------

/// Long-term identity.
pub struct Identity {
    seed: StaticSecret,
    scalar: StaticSecret,
    id: PeerId,
}

impl Identity {
    /// The seed this identity comes from.
    pub closed spec fn seed(self) -> Seq<u8> {
        self.seed@
    }

    /// The peer id.
    pub closed spec fn id(self) -> PeerId {
        self.id
    }

    #[verifier::type_invariant]
    spec fn consistent(self) -> bool {
        &&& self.scalar@ == ed25519_scalar(self.seed@)
        &&& is_identity(self.seed@, self.id@)
    }

    /// A fresh identity. The only failure is that the system has no randomness.
    pub fn generate() -> (identity: Result<Self, CoreError>)
        ensures
            identity matches Ok(fresh) ==> is_identity(fresh.seed(), fresh.id()@),
            identity matches Err(error) ==> error == CoreError::Crypto("getrandom failed"),
    {
        match random_32() {
            Ok(seed) => Ok(Identity::from_seed(seed)),
            Err(error) => Err(error),
        }
    }

    /// Deterministic identity from a stored seed. The seed is what is persisted,
    /// never the expanded scalar.
    pub fn from_seed(seed: [u8; 32]) -> (identity: Self)
        ensures
            identity.seed() == seed@,
            identity.id()@ == ed25519_public(seed@),
            is_identity(seed@, identity.id()@),
    {
        let id: PeerId = ed25519_public_key(&seed);
        let scalar: [u8; 32] = ed25519_scalar_bytes(&seed);
        Identity {
            seed: StaticSecret::from_bytes(seed),
            scalar: StaticSecret::from_bytes(scalar),
            id,
        }
    }

    pub fn public_id(&self) -> (id: PeerId)
        ensures
            id == self.id(),
            is_identity(self.seed(), id@),
    {
        proof {
            use_type_invariant(self);
        }
        self.id
    }

    /// The X25519 form of the secret, for Diffie-Hellman.
    pub fn x25519_secret(&self) -> (secret: StaticSecret)
        ensures
            secret@ == ed25519_scalar(self.seed()),
    {
        proof {
            use_type_invariant(self);
        }
        StaticSecret::from_bytes(self.scalar.bytes)
    }

    /// Sign a message. The signature verifies under this identity's id.
    pub fn sign(&self, message: &[u8]) -> (signature: [u8; SIGNATURE_LEN])
        ensures
            signature@ == ed25519_signature(self.seed(), message@),
            ed25519_verifies(self.id()@, message@, signature@),
    {
        proof {
            use_type_invariant(self);
        }
        ed25519_sign(&self.seed.bytes, message)
    }

    /// Static-static ECDH: the **non**-forward-secret fallback, used only when
    /// no prekey of the recipient has been seen.
    ///
    /// Both ends derive the same key: where `peer` is the id of an identity,
    /// that identity's key for us is the same, or fails the same way.
    pub fn derive_static_key(&self, peer: &PeerId) -> (key: Result<[u8; 32], CoreError>)
        ensures
            key_bytes(key) == static_key(self.seed(), self.id()@, peer@),
            forall|other: Seq<u8>| #[trigger]
                is_identity(other, peer@) ==> key_bytes(key) == static_key(
                    other,
                    peer@,
                    self.id()@,
                ),
    {
        proof {
            use_type_invariant(self);
        }
        let public: [u8; 32] = match peer_x25519(peer) {
            Ok(public) => public,
            Err(error) => {
                return Err(error);
            },
        };
        let agreed: Result<[u8; 32], CoreError> = diffie_hellman(&self.scalar, &public);
        proof {
            bytes::lemma_lex_order(self.id@, peer@);
            assert(sorted_ids(self.id@, peer@) =~= sorted_ids(peer@, self.id@));
        }
        let shared: [u8; 32] = match agreed {
            Ok(shared) => shared,
            Err(error) => {
                return Err(error);
            },
        };
        let mut material: Vec<u8> = bytes::copy_of(&shared);
        if bytes::lex_no_later(&self.id, peer) {
            bytes::put_all(&mut material, &self.id);
            bytes::put_all(&mut material, peer);
        } else {
            bytes::put_all(&mut material, peer);
            bytes::put_all(&mut material, &self.id);
        }
        assert(material@ =~= shared@ + sorted_ids(self.id@, peer@));
        Ok(derive(&TAG_STATIC, material.as_slice()))
    }

    /// A short name for log lines. It never shows the secret.
    pub fn describe(&self) -> (text: String)
        ensures
            text@ == "Identity("@ + text::hex_chars(self.id()@.subrange(0, 8)) + ")"@,
    {
        "Identity(".to_owned().concat(hex16(&self.id).as_str()).concat(")")
    }
}

impl Clone for Identity {
    fn clone(&self) -> (copy: Self)
        ensures
            copy.seed() == self.seed(),
            copy.id() == self.id(),
    {
        proof {
            use_type_invariant(self);
        }
        Identity {
            seed: StaticSecret::from_bytes(self.seed.bytes),
            scalar: StaticSecret::from_bytes(self.scalar.bytes),
            id: self.id,
        }
    }
}

/// Hash a tag and its material under the domain separator.
fn derive(tag: &[u8], material: &[u8]) -> (key: [u8; 32])
    ensures
        key@ == sha256(transcript(tag@, material@)),
{
    let mut data: Vec<u8> = bytes::copy_of(&KDF_DOMAIN);
    bytes::put_all(&mut data, tag);
    bytes::put_all(&mut data, material);
    sha256_of(data.as_slice())
}

/// Convert a peer's Ed25519 id into its X25519 public key.
///
/// Rejects anything that is not a valid compressed Edwards point. That alone is
/// *not* enough to use the key: small-order points decode perfectly well.
pub fn peer_x25519(peer: &PeerId) -> (public: Result<[u8; 32], CoreError>)
    ensures
        key_bytes(public) == peer_public(peer@),
{
    match ed25519_to_montgomery(peer) {
        Some(public) => Ok(public),
        None => Err(CoreError::Crypto("bad peer id")),
    }
}

/// Every Diffie-Hellman goes through here: small-order points decompress and
/// then drive the shared secret to all zeros, so whoever picks such an id would
/// fix the key for everyone who talks to them.
pub fn diffie_hellman(secret: &StaticSecret, public: &[u8; 32]) -> (shared: Result<
    [u8; 32],
    CoreError,
>)
    ensures
        key_bytes(shared) == dh(secret@, public@),
        forall|other: Seq<u8>|
            other.len() == 32 && #[trigger] x25519_public(other) == public@ ==> key_bytes(shared)
                == dh(other, x25519_public(secret@)),
{
    let (shared, contributory) = x25519_agree(&secret.bytes, public);
    if !contributory {
        return Err(CoreError::Crypto("non-contributory DH: small-order public key"));
    }
    Ok(shared)
}

// ---------------------------------------------------------------------------
// Prekey signing
// ---------------------------------------------------------------------------

fn prekey_message(generation: u32, prekey: &[u8; 32]) -> (message: Vec<u8>)
    ensures
        message@ == prekey_statement(generation, prekey@),
{
    let mut message: Vec<u8> = bytes::copy_of(&PREKEY_DOMAIN);
    bytes::put_le(&mut message, generation as u64, 4);
    bytes::put_all(&mut message, prekey);
    message
}

/// Sign a prekey. The signature verifies under the identity's id.
pub fn sign_prekey(identity: &Identity, generation: u32, prekey: &[u8; 32]) -> (signature:
    [u8; SIGNATURE_LEN])
    ensures
        signature@ == ed25519_signature(
            identity.seed(),
            prekey_statement(generation, prekey@),
        ),
        ed25519_verifies(
            identity.id()@,
            prekey_statement(generation, prekey@),
            signature@,
        ),
{
    let message: Vec<u8> = prekey_message(generation, prekey);
    identity.sign(message.as_slice())
}

/// Verify that `peer` really published this prekey.
///
/// Beacons are authenticated only by the shared channel key, so without this any
/// member could publish a prekey under someone else's id and receive their mail.
pub fn verify_prekey(
    peer: &PeerId,
    generation: u32,
    prekey: &[u8; 32],
    signature: &[u8; SIGNATURE_LEN],
) -> (valid: bool)
    ensures
        valid == ed25519_verifies(peer@, prekey_statement(generation, prekey@), signature@),
{
    let message: Vec<u8> = prekey_message(generation, prekey);
    ed25519_verify(peer, message.as_slice(), signature)
}

// ---------------------------------------------------------------------------
// Key agreement
// ---------------------------------------------------------------------------

/// Combine the two Diffie-Hellman outputs with the context of the frame.
fn fs_key(
    dh1: &[u8; 32],
    dh2: &[u8; 32],
    sender: &PeerId,
    recipient: &PeerId,
    generation: u32,
) -> (key: [u8; 32])
    ensures
        key@ == fs_key_of(dh1@, dh2@, sender@, recipient@, generation),
{
    let mut material: Vec<u8> = bytes::copy_of(dh1);
    bytes::put_all(&mut material, dh2);
    bytes::put_all(&mut material, sender);
    bytes::put_all(&mut material, recipient);
    bytes::put_le(&mut material, generation as u64, 4);
    derive(&TAG_FORWARD_SECRET, material.as_slice())
}

/// Sender side. `ephemeral` is used once and must be dropped right after: that
/// drop is what makes the message forward secret.
///
/// The holder of the prekey secret arrives at the same key from the ephemeral
/// public key, or fails the same way.
pub fn seal_key_fs(
    identity: &Identity,
    ephemeral: &StaticSecret,
    recipient: &PeerId,
    recipient_prekey: &[u8; 32],
    generation: u32,
) -> (key: Result<[u8; 32], CoreError>)
    ensures
        key_bytes(key) == fs_seal_key(
            identity.seed(),
            identity.id()@,
            ephemeral@,
            recipient@,
            recipient_prekey@,
            generation,
        ),
        forall|prekey_secret: Seq<u8>|
            prekey_secret.len() == 32 && #[trigger] x25519_public(prekey_secret)
                == recipient_prekey@ ==> key_bytes(key) == fs_open_key(
                prekey_secret,
                x25519_public(ephemeral@),
                identity.id()@,
                recipient@,
                generation,
            ),
{
    proof {
        use_type_invariant(identity);
    }
    let dh1: [u8; 32] = match diffie_hellman(ephemeral, recipient_prekey) {
        Ok(shared) => shared,
        Err(error) => {
            return Err(error);
        },
    };
    let dh2: [u8; 32] = match diffie_hellman(&identity.scalar, recipient_prekey) {
        Ok(shared) => shared,
        Err(error) => {
            return Err(error);
        },
    };
    Ok(fs_key(&dh1, &dh2, &identity.id, recipient, generation))
}

/// Recipient side, using the prekey secret the sender addressed.
pub fn open_key_fs(
    prekey_secret: &StaticSecret,
    ephemeral_public: &[u8; 32],
    sender: &PeerId,
    recipient: &PeerId,
    generation: u32,
) -> (key: Result<[u8; 32], CoreError>)
    ensures
        key_bytes(key) == fs_open_key(
            prekey_secret@,
            ephemeral_public@,
            sender@,
            recipient@,
            generation,
        ),
{
    let dh1: [u8; 32] = match diffie_hellman(prekey_secret, ephemeral_public) {
        Ok(shared) => shared,
        Err(error) => {
            return Err(error);
        },
    };
    let public: [u8; 32] = match peer_x25519(sender) {
        Ok(public) => public,
        Err(error) => {
            return Err(error);
        },
    };
    let dh2: [u8; 32] = match diffie_hellman(prekey_secret, &public) {
        Ok(shared) => shared,
        Err(error) => {
            return Err(error);
        },
    };
    Ok(fs_key(&dh1, &dh2, sender, recipient, generation))
}

/// Group key for the channel, derived from the secret the caller joined with.
///
/// It seals beacons, which a peer that holds nothing yet has to be able to read,
/// and broadcasts from a node that has nobody to hand a sender chain to. It is
/// **not** forward secret. Callers derive it once and keep it.
pub fn network_key(channel_secret: &[u8]) -> (key: [u8; 32])
    ensures
        key@ == channel_key(channel_secret@),
{
    let mut material: Vec<u8> = Vec::new();
    bytes::put_le(&mut material, channel_secret.len() as u64, 8);
    bytes::put_all(&mut material, channel_secret);
    assert(material@ =~= bytes::le_bytes(channel_secret@.len(), 8) + channel_secret@);
    derive(&TAG_BROADCAST, material.as_slice())
}

/// One click of a sender chain: `(message_key, next_chain_key)`.
///
/// The two come from the same input under different tags, so the message key can
/// be handed to the AEAD while the chain stays alive. The caller must replace the
/// chain key by the returned one and erase the old one.
pub fn sender_chain_step(chain: &[u8; 32]) -> (step: ([u8; 32], [u8; 32]))
    ensures
        step.0@ == message_key(chain@),
        step.1@ == next_chain_key(chain@),
{
    (derive(&TAG_SK_MESSAGE, chain), derive(&TAG_SK_CHAIN, chain))
}

// ---------------------------------------------------------------------------
// AEAD
// ---------------------------------------------------------------------------

/// AEAD seal. Returns `ciphertext | tag`, which opens to the plaintext again
/// under the same key, nonce and associated data.
pub fn seal_aead(
    key: &[u8; 32],
    nonce: &[u8; NONCE_LEN],
    aad: &[u8],
    plaintext: &[u8],
) -> (sealed: Result<Vec<u8>, CoreError>)
    requires
        has_answer(plaintext@.len()),
        plaintext@.len() + TAG_LEN <= isize::MAX,
    ensures
        match sealed {
            Ok(bytes) => {
                &&& plaintext@.len() <= MAX_PLAINTEXT
                &&& bytes@ == aead_sealed(key@, nonce@, aad@, plaintext@)
                &&& bytes@.len() == plaintext@.len() + TAG_LEN
                &&& aead_opened(key@, nonce@, aad@, bytes@) == Some(plaintext@)
            },
            Err(error) => {
                &&& plaintext@.len() >= REFUSED_PLAINTEXT
                &&& error == CoreError::Crypto("seal")
            },
        },
{
    match chacha_encrypt(key, nonce, aad, plaintext) {
        Ok(sealed) => Ok(sealed),
        Err(_) => Err(CoreError::Crypto("seal")),
    }
}

/// What [`open_aead`] returns.
pub open spec fn open_result(
    key: Seq<u8>,
    nonce: Seq<u8>,
    aad: Seq<u8>,
    ciphertext: Seq<u8>,
) -> Result<Seq<u8>, CoreError> {
    if ciphertext.len() < TAG_LEN {
        Err(CoreError::Crypto("ciphertext shorter than tag"))
    } else {
        match aead_opened(key, nonce, aad, ciphertext) {
            Some(plaintext) => Ok(plaintext),
            None => Err(CoreError::Crypto("open: auth failed")),
        }
    }
}

/// A fallible byte string, taken by its contents.
pub open spec fn byte_result(result: Result<Vec<u8>, CoreError>) -> Result<Seq<u8>, CoreError> {
    match result {
        Ok(bytes) => Ok(bytes@),
        Err(error) => Err(error),
    }
}

/// AEAD open. Input is `ciphertext | tag`. Whatever opens is exactly what sealing
/// the plaintext gives.
pub fn open_aead(
    key: &[u8; 32],
    nonce: &[u8; NONCE_LEN],
    aad: &[u8],
    ciphertext: &[u8],
) -> (opened: Result<Vec<u8>, CoreError>)
    requires
        ciphertext@.len() >= TAG_LEN ==> has_answer((ciphertext@.len() - TAG_LEN) as nat),
    ensures
        byte_result(opened) == open_result(key@, nonce@, aad@, ciphertext@),
        opened matches Ok(plaintext) ==> {
            &&& plaintext@.len() + TAG_LEN == ciphertext@.len()
            &&& aead_sealed(key@, nonce@, aad@, plaintext@) == ciphertext@
        },
{
    if ciphertext.len() < TAG_LEN {
        return Err(CoreError::Crypto("ciphertext shorter than tag"));
    }
    match chacha_decrypt(key, nonce, aad, ciphertext) {
        Ok(plaintext) => Ok(plaintext),
        Err(_) => Err(CoreError::Crypto("open: auth failed")),
    }
}

// ---------------------------------------------------------------------------
// Randomness
// ---------------------------------------------------------------------------

/// 16 random bytes. The only failure is that the system has no randomness.
pub fn random_16() -> (fresh: Result<[u8; 16], CoreError>)
    ensures
        fresh matches Err(error) ==> error == CoreError::Crypto("getrandom failed"),
{
    let mut out: [u8; 16] = [0u8; 16];
    match getrandom::getrandom(&mut out) {
        Ok(_) => Ok(out),
        Err(_) => Err(CoreError::Crypto("getrandom failed")),
    }
}

/// 32 random bytes. The only failure is that the system has no randomness.
pub fn random_32() -> (fresh: Result<[u8; 32], CoreError>)
    ensures
        fresh matches Err(error) ==> error == CoreError::Crypto("getrandom failed"),
{
    let mut out: [u8; 32] = [0u8; 32];
    match getrandom::getrandom(&mut out) {
        Ok(_) => Ok(out),
        Err(_) => Err(CoreError::Crypto("getrandom failed")),
    }
}

/// A random number. The only failure is that the system has no randomness.
pub fn random_u32() -> (fresh: Result<u32, CoreError>)
    ensures
        fresh matches Err(error) ==> error == CoreError::Crypto("getrandom failed"),
{
    let mut out: [u8; 4] = [0u8; 4];
    match getrandom::getrandom(&mut out) {
        Ok(_) => {
            proof {
                bytes::lemma_le_limits();
            }
            Ok(bytes::get_le(&out, 0, 4) as u32)
        },
        Err(_) => Err(CoreError::Crypto("getrandom failed")),
    }
}

/// A random nonce. The only failure is that the system has no randomness.
pub fn random_nonce() -> (fresh: Result<[u8; NONCE_LEN], CoreError>)
    ensures
        fresh matches Err(error) ==> error == CoreError::Crypto("getrandom failed"),
{
    let mut out: [u8; 12] = [0u8; 12];
    match getrandom::getrandom(&mut out) {
        Ok(_) => Ok(out),
        Err(_) => Err(CoreError::Crypto("getrandom failed")),
    }
}

/// A random secret. The only failure is that the system has no randomness.
pub fn random_secret() -> (fresh: Result<StaticSecret, CoreError>)
    ensures
        fresh matches Ok(secret) ==> secret@.len() == 32,
        fresh matches Err(error) ==> error == CoreError::Crypto("getrandom failed"),
{
    match random_32() {
        Ok(bytes) => Ok(StaticSecret::from_bytes(bytes)),
        Err(error) => Err(error),
    }
}

/// Short hex for logs: the first eight bytes. A full key never goes into a log
/// line.
pub fn hex16(data: &[u8]) -> (text: String)
    ensures
        text@ == text::hex_chars(
            data@.subrange(
                0,
                if data@.len() < 8 {
                    data@.len() as int
                } else {
                    8
                },
            ),
        ),
{
    let count: usize = if data.len() < 8 {
        data.len()
    } else {
        8
    };
    text::hex_prefix(data, count)
}

// ---------------------------------------------------------------------------
// Laws
// ---------------------------------------------------------------------------

/// Keys of different kinds never come from the same hash input: each transcript
/// carries the number of its kind right behind the domain separator.
pub proof fn law_transcripts_are_separate(a: Seq<u8>, b: Seq<u8>, i: int, j: int)
    requires
        0 <= i < 5,
        0 <= j < 5,
        i != j,
    ensures
        ({
            let tags = seq![
                TAG_STATIC@,
                TAG_BROADCAST@,
                TAG_FORWARD_SECRET@,
                TAG_SK_MESSAGE@,
                TAG_SK_CHAIN@,
            ];
            transcript(tags[i], a) != transcript(tags[j], b)
        }),
{
    let tags = seq![
        TAG_STATIC@,
        TAG_BROADCAST@,
        TAG_FORWARD_SECRET@,
        TAG_SK_MESSAGE@,
        TAG_SK_CHAIN@,
    ];
    assert(transcript(tags[i], a)[43] == i + 1);
    assert(transcript(tags[j], b)[43] == j + 1);
}

/// Two channels with different secrets hash different inputs: the length prefix
/// keeps one secret from running into another.
pub proof fn law_channel_secrets_do_not_collide(a: Seq<u8>, b: Seq<u8>)
    requires
        a.len() <= u64::MAX,
        b.len() <= u64::MAX,
        transcript(TAG_BROADCAST@, bytes::le_bytes(a.len(), 8) + a) == transcript(
            TAG_BROADCAST@,
            bytes::le_bytes(b.len(), 8) + b,
        ),
    ensures
        a == b,
{
    let ta = transcript(TAG_BROADCAST@, bytes::le_bytes(a.len(), 8) + a);
    let tb = transcript(TAG_BROADCAST@, bytes::le_bytes(b.len(), 8) + b);
    bytes::lemma_le_bytes_len(a.len(), 8);
    bytes::lemma_le_bytes_len(b.len(), 8);
    let n = (KDF_DOMAIN@ + TAG_BROADCAST@).len() as int + 8;
    assert(ta.subrange(n, ta.len() as int) =~= a);
    assert(tb.subrange(n, tb.len() as int) =~= b);
}

/// Walking a chain in two stretches is walking it once.
pub proof fn law_chain_walk_composes(chain: Seq<u8>, first: nat, second: nat)
    ensures
        chain_key_after(chain_key_after(chain, first), second) == chain_key_after(
            chain,
            first + second,
        ),
    decreases second,
{
    if second > 0 {
        law_chain_walk_composes(chain, first, (second - 1) as nat);
    }
}

/// What each key is made of: the hash of the domain, the tag of its kind, and all that
/// it is bound to. A key that two identities share has both of them in it, the smaller
/// first, so that it is the same for either; a forward-secret one has both outcomes of
/// the exchange, who sends, who receives, and the generation of the prekey.
pub proof fn law_keys_are_bound_to_their_use(
    seed: Seq<u8>,
    id: Seq<u8>,
    peer: Seq<u8>,
    ephemeral: Seq<u8>,
    prekey: Seq<u8>,
    generation: u32,
    secret: Seq<u8>,
    chain: Seq<u8>,
)
    ensures
        static_key(seed, id, peer) matches Ok(key) ==> {
            let shared = x25519_shared(
                ed25519_scalar(seed),
                ed25519_montgomery(peer)->Some_0,
            );
            &&& ed25519_montgomery(peer) is Some
            &&& shared != bytes::zeros(32)
            &&& key == sha256(
                KDF_DOMAIN@ + TAG_STATIC@ + (shared + if bytes::lex_le(id, peer) {
                    id + peer
                } else {
                    peer + id
                }),
            )
        },
        fs_seal_key(seed, id, ephemeral, peer, prekey, generation) matches Ok(key) ==> {
            let first = x25519_shared(ephemeral, prekey);
            let second = x25519_shared(ed25519_scalar(seed), prekey);
            &&& first != bytes::zeros(32)
            &&& second != bytes::zeros(32)
            &&& key == sha256(
                KDF_DOMAIN@ + TAG_FORWARD_SECRET@ + (first + second + id + peer + bytes::le_bytes(
                    generation as nat,
                    4,
                )),
            )
        },
        channel_key(secret) == sha256(
            KDF_DOMAIN@ + TAG_BROADCAST@ + (bytes::le_bytes(secret.len(), 8) + secret),
        ),
        message_key(chain) == sha256(KDF_DOMAIN@ + TAG_SK_MESSAGE@ + chain),
        next_chain_key(chain) == sha256(KDF_DOMAIN@ + TAG_SK_CHAIN@ + chain),
{
}

/// A key agreement fails where the peer's id is no point of the curve, or where an
/// exchange comes to nothing, and nowhere else.
pub proof fn law_when_keys_are_refused(
    seed: Seq<u8>,
    id: Seq<u8>,
    peer: Seq<u8>,
    ephemeral: Seq<u8>,
    prekey: Seq<u8>,
    generation: u32,
)
    ensures
        static_key(seed, id, peer) is Err == (ed25519_montgomery(peer) is None || x25519_shared(
            ed25519_scalar(seed),
            ed25519_montgomery(peer)->Some_0,
        ) == bytes::zeros(32)),
        fs_seal_key(seed, id, ephemeral, peer, prekey, generation) is Err == (x25519_shared(
            ephemeral,
            prekey,
        ) == bytes::zeros(32) || x25519_shared(ed25519_scalar(seed), prekey) == bytes::zeros(
            32,
        )),
{
}

/// Two identities come out in one order, whichever is named first, and none of them is
/// left out.
pub proof fn law_identities_are_sorted(a: Seq<u8>, b: Seq<u8>)
    requires
        a.len() == b.len(),
    ensures
        sorted_ids(a, b) == sorted_ids(b, a),
        sorted_ids(a, b) == a + b || sorted_ids(a, b) == b + a,
{
    bytes::lemma_lex_order(a, b);
}

/// What is signed to publish a prekey: the name of the statement, the generation, and
/// the key.
pub proof fn law_statement_layout(generation: u32, prekey: Seq<u8>)
    ensures
        prekey_statement(generation, prekey).len() == 22 + prekey.len(),
        prekey_statement(generation, prekey).take(18) == PREKEY_DOMAIN@,
        bytes::le_value(prekey_statement(generation, prekey).subrange(18, 22)) == generation,
        prekey_statement(generation, prekey).skip(22) == prekey,
{
    let statement = prekey_statement(generation, prekey);
    bytes::lemma_le_limits();
    bytes::lemma_le_bytes_len(generation as nat, 4);
    bytes::lemma_le_round_trip(generation as nat, 4);
    assert(statement.take(18) =~= PREKEY_DOMAIN@);
    assert(statement.subrange(18, 22) =~= bytes::le_bytes(generation as nat, 4));
    assert(statement.skip(22) =~= prekey);
}

/// A statement says one thing: no other generation, and no other key, is signed by the
/// same words.
pub proof fn law_statements_say_one_thing(
    generation: u32,
    prekey: Seq<u8>,
    other: u32,
    another: Seq<u8>,
)
    requires
        prekey_statement(generation, prekey) == prekey_statement(other, another),
    ensures
        generation == other,
        prekey == another,
{
    let a = prekey_statement(generation, prekey);
    let b = prekey_statement(other, another);
    bytes::lemma_le_limits();
    bytes::lemma_le_bytes_len(generation as nat, 4);
    bytes::lemma_le_bytes_len(other as nat, 4);
    bytes::lemma_le_round_trip(generation as nat, 4);
    bytes::lemma_le_round_trip(other as nat, 4);
    assert(a.subrange(18, 22) =~= bytes::le_bytes(generation as nat, 4));
    assert(b.subrange(18, 22) =~= bytes::le_bytes(other as nat, 4));
    assert(a.skip(22) =~= prekey);
    assert(b.skip(22) =~= another);
}

} // verus!
