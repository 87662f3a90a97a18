//! Wire format v5.
//!
//! One fixed-size header, at most one key-agreement preamble, an optional
//! nickname, then AEAD ciphertext. Everything is little-endian.
//!
//! ```text
//!  off  len  field
//!   0    1   magic 0x4D ('M')
//!   1    1   version
//!   2    1   flags        bit0 beacon, bit1 ack, bit2 FS preamble,
//!                         bit3 sender-key preamble, bit4 sender-key dist
//!   3    1   ttl          MUTABLE on relay -> excluded from AAD
//!   4    1   hops         MUTABLE on relay -> excluded from AAD
//!   5    1   nickname_len (<= 20)
//!   6    2   body_len     u16, ciphertext + tag length
//!   8    8   epoch        sender's session epoch
//!  16    8   counter      sender's monotonic per-session message counter
//!  24   32   sender       Ed25519 identity key
//!  56   32   recipient    peer id, all-zero = broadcast
//!  88   16   msg_id       random; the ack correlator
//! 104   12   nonce
//! 116   36   FS preamble, PRESENT ONLY IF flags bit2:
//!                [32] ephemeral X25519 public key
//!                [ 4] recipient prekey generation
//! 116    8   SK preamble, PRESENT ONLY IF flags bit3:
//!                [ 4] sender chain id
//!                [ 4] message index within the chain
//!  ..    n   nickname (utf-8)
//!  ..    m   ciphertext | tag
//! ```
//!
//! The preambles sit *outside* the ciphertext because the recipient needs them to
//! derive the key, and *inside* the AAD so that they cannot be swapped in flight.
//! The two are mutually exclusive: one is directed, the other broadcast.
//!
//! `ttl` and `hops` are outside the AAD: a relay must be able to rewrite them
//! without holding a key. **Everything else is inside it**: header, whichever
//! preamble is present, and the nickname, which is therefore authenticated but
//! not confidential.
use vstd::prelude::*;
use vstd::string::StringExecFns;

use crate::bytes;
use crate::crypto;
use crate::crypto::{Identity, PeerId, StaticSecret};
use crate::error::CoreError;
use crate::prekey::PeerPrekey;
use crate::text;

verus! {

pub const MAGIC: u8 = 0x4D;

pub const VERSION: u8 = 5;

pub const HEADER_LEN: usize = 116;

pub const MAX_NICKNAME: usize = 20;

/// Length of the FS preamble when present: ephemeral key and prekey generation.
pub const FS_PREAMBLE_LEN: usize = 36;

/// Length of the sender-key preamble when present: chain id and message index.
pub const SK_PREAMBLE_LEN: usize = crate::senderkey::PREAMBLE_LEN;

/// Total on-air frame ceiling.
pub const MAX_FRAME: usize = 512;

/// Sized for the worst case, a forward-secret frame with a full nickname, so that
/// a message accepted for sending can never fail to fit when it is built.
pub const MAX_BODY: usize = MAX_FRAME - HEADER_LEN - FS_PREAMBLE_LEN - MAX_NICKNAME
    - crypto::TAG_LEN;

pub const FLAG_BEACON: u8 = 0x01;

pub const FLAG_ACK: u8 = 0x02;

/// Set when the frame carries an FS preamble and is sealed with a forward-secret
/// key rather than the static-static fallback.
pub const FLAG_FS: u8 = 0x04;

/// Set when the frame carries a sender-key preamble: a broadcast sealed with a
/// ratcheted chain key rather than the channel key.
pub const FLAG_SK: u8 = 0x08;

/// Frame kind: this is a sender-key distribution, not user traffic.
pub const FLAG_SKDM: u8 = 0x10;

/// Why a byte string is not a frame.
#[derive(Debug, Clone, PartialEq, Eq)]
pub enum FrameError {
    TooShort,
    BadMagic,
    UnsupportedVersion(u8),
    LengthMismatch,
    BadNickname,
    /// A forward-secrecy preamble on a broadcast, or a sender-key preamble on a
    /// directed frame. Each names a key agreement that does not exist for that
    /// recipient.
    PreambleKindMismatch,
    /// Both preamble bits set. They imply different lengths and different key
    /// agreements; rather than pick one, the frame is refused.
    ConflictingPreambles,
}

impl FrameError {
    /// The variant's name, with its payload where it has one.
    pub open spec fn name_chars(self) -> Seq<char> {
        match self {
            FrameError::TooShort => "TooShort"@,
            FrameError::BadMagic => "BadMagic"@,
            FrameError::UnsupportedVersion(version) => "UnsupportedVersion("@ + text::decimal_chars(
                version as nat,
            ) + ")"@,
            FrameError::LengthMismatch => "LengthMismatch"@,
            FrameError::BadNickname => "BadNickname"@,
            FrameError::PreambleKindMismatch => "PreambleKindMismatch"@,
            FrameError::ConflictingPreambles => "ConflictingPreambles"@,
        }
    }

    /// The variant's name, with its payload where it has one.
    pub fn name(&self) -> (name: String)
        ensures
            name@ == self.name_chars(),
    {
        match self {
            FrameError::TooShort => "TooShort".to_owned(),
            FrameError::BadMagic => "BadMagic".to_owned(),
            FrameError::UnsupportedVersion(version) => {
                let number: String = text::decimal(*version as u64);
                "UnsupportedVersion(".to_owned().concat(number.as_str()).concat(")")
            },
            FrameError::LengthMismatch => "LengthMismatch".to_owned(),
            FrameError::BadNickname => "BadNickname".to_owned(),
            FrameError::PreambleKindMismatch => "PreambleKindMismatch".to_owned(),
            FrameError::ConflictingPreambles => "ConflictingPreambles".to_owned(),
        }
    }
}

/// What a frame is for.
#[derive(Debug, Clone, Copy, PartialEq, Eq, Structural)]
pub enum FrameKind {
    /// Discovery beacon: body is the sender's signed prekey bundle.
    Beacon,
    /// Delivery receipt: body is the 16-byte id being acknowledged.
    Ack,
    /// Sender-key distribution: body is the sender's broadcast chain, handed to
    /// one peer over the directed path. Never broadcast.
    SenderKey,
    /// Ordinary message.
    Message,
}

/// The forward-secrecy preamble, when present.
#[derive(Debug, Clone, Copy, PartialEq, Eq)]
pub struct FsPreamble {
    pub ephemeral: [u8; 32],
    pub generation: u32,
}

/// The sender-key preamble, when present: which chain, and which position of it.
#[derive(Debug, Clone, Copy, PartialEq, Eq)]
pub struct SkPreamble {
    pub chain_id: u32,
    pub index: u32,
}

/// How to derive the sealing key for an outgoing frame.
pub enum Sealing<'a> {
    /// Beacons, and broadcasts from a node with no peers to hand a chain to: the
    /// channel key every member holds. Not forward secret.
    Network { key: &'a [u8; 32] },
    /// Directed, but no prekey of the recipient has been seen. Not forward
    /// secret, and the receiver is told so.
    Static,
    /// Directed with forward secrecy. `ephemeral` must be freshly generated for
    /// this one frame and dropped right after.
    ForwardSecret { ephemeral: &'a StaticSecret, prekey: &'a PeerPrekey },
    /// Broadcast with forward secrecy. `key` is one message key taken from our
    /// sender chain, which has already ratcheted past it.
    SenderKey { chain_id: u32, index: u32, key: &'a [u8; 32] },
}

/// How to derive the opening key for an inbound frame.
pub enum Opening<'a> {
    Network { key: &'a [u8; 32] },
    Static,
    ForwardSecret { prekey_secret: &'a StaticSecret },
    SenderKey { key: &'a [u8; 32] },
}

/// A parsed view over the caller's buffer: `ciphertext` points into it.
#[derive(Debug)]
pub struct ParsedFrame<'a> {
    pub sender: PeerId,
    pub recipient: PeerId,
    pub msg_id: [u8; 16],
    pub nonce: [u8; 12],
    pub epoch: u64,
    pub counter: u64,
    pub ttl: u8,
    pub hops: u8,
    pub kind: FrameKind,
    pub fs: Option<FsPreamble>,
    pub sk: Option<SkPreamble>,
    pub nickname: String,
    pub ciphertext: &'a [u8],
    /// Header, preamble and nickname with the mutable fields zeroed: exactly what
    /// was fed to the AEAD.
    pub authenticated: Vec<u8>,
}

impl<'a> Clone for ParsedFrame<'a> {
    fn clone(&self) -> (copy: Self)
        ensures
            copy@ == self@,
    {
        ParsedFrame {
            sender: self.sender,
            recipient: self.recipient,
            msg_id: self.msg_id,
            nonce: self.nonce,
            epoch: self.epoch,
            counter: self.counter,
            ttl: self.ttl,
            hops: self.hops,
            kind: self.kind,
            fs: self.fs,
            sk: self.sk,
            nickname: self.nickname.clone(),
            ciphertext: self.ciphertext,
            authenticated: bytes::copy_of(self.authenticated.as_slice()),
        }
    }
}

/// Everything needed to emit a frame.
pub struct Outgoing<'a> {
    pub recipient: PeerId,
    pub msg_id: [u8; 16],
    pub epoch: u64,
    pub counter: u64,
    pub ttl: u8,
    pub body: &'a [u8],
    pub nickname: &'a str,
    pub kind: FrameKind,
    pub sealing: Sealing<'a>,
}

// ---------------------------------------------------------------------------
// Model
// ---------------------------------------------------------------------------

/// The forward-secrecy preamble.
pub struct FsModel {
    pub ephemeral: Seq<u8>,
    pub generation: u32,
}

/// A parsed frame, with its byte strings as sequences.
#[verifier::ext_equal]
pub struct FrameModel {
    pub sender: Seq<u8>,
    pub recipient: Seq<u8>,
    pub msg_id: Seq<u8>,
    pub nonce: Seq<u8>,
    pub epoch: u64,
    pub counter: u64,
    pub ttl: u8,
    pub hops: u8,
    pub kind: FrameKind,
    pub fs: Option<FsModel>,
    pub sk: Option<SkPreamble>,
    pub nickname: Seq<char>,
    pub ciphertext: Seq<u8>,
    pub aad: Seq<u8>,
}

impl FrameModel {
    pub open spec fn is_broadcast(self) -> bool {
        self.recipient == bytes::zeros(32)
    }

    pub open spec fn is_forward_secret(self) -> bool {
        self.fs is Some || self.sk is Some
    }
}

impl<'a> View for ParsedFrame<'a> {
    type V = FrameModel;

    open spec fn view(&self) -> FrameModel {
        FrameModel {
            sender: self.sender@,
            recipient: self.recipient@,
            msg_id: self.msg_id@,
            nonce: self.nonce@,
            epoch: self.epoch,
            counter: self.counter,
            ttl: self.ttl,
            hops: self.hops,
            kind: self.kind,
            fs: match self.fs {
                Some(fs) => Some(
                    FsModel { ephemeral: fs.ephemeral@, generation: fs.generation },
                ),
                None => None,
            },
            sk: self.sk,
            nickname: self.nickname@,
            ciphertext: self.ciphertext@,
            aad: self.authenticated@,
        }
    }
}

/// How a frame is sealed.
pub enum SealingModel {
    Network { key: Seq<u8> },
    Static,
    ForwardSecret { ephemeral: Seq<u8>, prekey: Seq<u8>, generation: u32 },
    SenderKey { chain_id: u32, index: u32, key: Seq<u8> },
}

/// How a frame is opened.
pub enum OpeningModel {
    Network { key: Seq<u8> },
    Static,
    ForwardSecret { prekey_secret: Seq<u8> },
    SenderKey { key: Seq<u8> },
}

/// A frame to emit.
pub struct OutgoingModel {
    pub recipient: Seq<u8>,
    pub msg_id: Seq<u8>,
    pub epoch: u64,
    pub counter: u64,
    pub ttl: u8,
    pub body: Seq<u8>,
    pub nickname: Seq<char>,
    pub kind: FrameKind,
    pub sealing: SealingModel,
}

impl<'a> View for Sealing<'a> {
    type V = SealingModel;

    open spec fn view(&self) -> SealingModel {
        match *self {
            Sealing::Network { key } => SealingModel::Network { key: key@ },
            Sealing::Static => SealingModel::Static,
            Sealing::ForwardSecret { ephemeral, prekey } => SealingModel::ForwardSecret {
                ephemeral: ephemeral@,
                prekey: prekey.public@,
                generation: prekey.generation,
            },
            Sealing::SenderKey { chain_id, index, key } => SealingModel::SenderKey {
                chain_id,
                index,
                key: key@,
            },
        }
    }
}

impl<'a> View for Opening<'a> {
    type V = OpeningModel;

    open spec fn view(&self) -> OpeningModel {
        match *self {
            Opening::Network { key } => OpeningModel::Network { key: key@ },
            Opening::Static => OpeningModel::Static,
            Opening::ForwardSecret { prekey_secret } => OpeningModel::ForwardSecret {
                prekey_secret: prekey_secret@,
            },
            Opening::SenderKey { key } => OpeningModel::SenderKey { key: key@ },
        }
    }
}

impl<'a> View for Outgoing<'a> {
    type V = OutgoingModel;

    open spec fn view(&self) -> OutgoingModel {
        OutgoingModel {
            recipient: self.recipient@,
            msg_id: self.msg_id@,
            epoch: self.epoch,
            counter: self.counter,
            ttl: self.ttl,
            body: self.body@,
            nickname: self.nickname@,
            kind: self.kind,
            sealing: self.sealing@,
        }
    }
}

/// What is authenticated of the bytes before the ciphertext: all of them, with
/// the two fields a relay may rewrite zeroed.
pub open spec fn aad_of(prefix: Seq<u8>) -> Seq<u8> {
    prefix.update(3, 0).update(4, 0)
}

// --- Parsing ---------------------------------------------------------------

/// What the flags say a frame is for. The first bit set decides.
pub open spec fn kind_of(flags: u8) -> FrameKind {
    if flags & FLAG_BEACON != 0 {
        FrameKind::Beacon
    } else if flags & FLAG_ACK != 0 {
        FrameKind::Ack
    } else if flags & FLAG_SKDM != 0 {
        FrameKind::SenderKey
    } else {
        FrameKind::Message
    }
}

/// How long the preamble is that the flags announce.
pub open spec fn preamble_len(flags: u8) -> int {
    if flags & FLAG_FS != 0 {
        FS_PREAMBLE_LEN as int
    } else if flags & FLAG_SK != 0 {
        SK_PREAMBLE_LEN as int
    } else {
        0
    }
}

/// Where the nickname starts.
pub open spec fn nick_start(buf: Seq<u8>) -> int {
    HEADER_LEN + preamble_len(buf[2])
}

/// Where the ciphertext starts.
pub open spec fn body_start(buf: Seq<u8>) -> int {
    nick_start(buf) + buf[5]
}

/// The first reason, in order, why a byte string is not a frame.
pub open spec fn frame_error(buf: Seq<u8>) -> Option<FrameError> {
    if buf.len() < HEADER_LEN {
        Some(FrameError::TooShort)
    } else if buf[0] != MAGIC {
        Some(FrameError::BadMagic)
    } else if buf[1] != VERSION {
        Some(FrameError::UnsupportedVersion(buf[1]))
    } else if buf[5] > MAX_NICKNAME {
        Some(FrameError::BadNickname)
    } else if buf[2] & FLAG_FS != 0 && buf[2] & FLAG_SK != 0 {
        Some(FrameError::ConflictingPreambles)
    } else if buf[2] & FLAG_FS != 0 && buf.subrange(56, 88) == bytes::zeros(32) {
        Some(FrameError::PreambleKindMismatch)
    } else if buf[2] & FLAG_SK != 0 && buf.subrange(56, 88) != bytes::zeros(32) {
        Some(FrameError::PreambleKindMismatch)
    } else if buf.len() < nick_start(buf) {
        Some(FrameError::TooShort)
    } else if body_start(buf) + bytes::le_value(buf.subrange(6, 8)) != buf.len() {
        Some(FrameError::LengthMismatch)
    } else if !vstd::utf8::valid_utf8(buf.subrange(nick_start(buf), body_start(buf))) {
        Some(FrameError::BadNickname)
    } else {
        None
    }
}

/// The fields of a well-formed frame.
pub open spec fn frame_fields(buf: Seq<u8>) -> FrameModel {
    FrameModel {
        sender: buf.subrange(24, 56),
        recipient: buf.subrange(56, 88),
        msg_id: buf.subrange(88, 104),
        nonce: buf.subrange(104, 116),
        epoch: bytes::le_value(buf.subrange(8, 16)) as u64,
        counter: bytes::le_value(buf.subrange(16, 24)) as u64,
        ttl: buf[3],
        hops: buf[4],
        kind: kind_of(buf[2]),
        fs: if buf[2] & FLAG_FS != 0 {
            Some(
                FsModel {
                    ephemeral: buf.subrange(116, 148),
                    generation: bytes::le_value(buf.subrange(148, 152)) as u32,
                },
            )
        } else {
            None
        },
        sk: if buf[2] & FLAG_SK != 0 {
            Some(
                SkPreamble {
                    chain_id: bytes::le_value(buf.subrange(116, 120)) as u32,
                    index: bytes::le_value(buf.subrange(120, 124)) as u32,
                },
            )
        } else {
            None
        },
        nickname: vstd::utf8::decode_utf8(buf.subrange(nick_start(buf), body_start(buf))),
        ciphertext: buf.subrange(body_start(buf), buf.len() as int),
        aad: aad_of(buf.subrange(0, body_start(buf))),
    }
}

/// What a byte string parses to.
pub open spec fn parsed(buf: Seq<u8>) -> Result<FrameModel, FrameError> {
    match frame_error(buf) {
        Some(error) => Err(error),
        None => Ok(frame_fields(buf)),
    }
}

// --- Building --------------------------------------------------------------

/// The largest character boundary of a text's bytes at or below `at`.
pub open spec fn boundary_below(text: Seq<u8>, at: nat) -> nat
    decreases at,
{
    if at == 0 || vstd::utf8::is_char_boundary(text, at as int) {
        at
    } else {
        boundary_below(text, (at - 1) as nat)
    }
}

/// A nickname as it goes on the air: at most [`MAX_NICKNAME`] bytes, cut on a
/// character boundary.
pub open spec fn nickname_bytes(nickname: Seq<char>) -> Seq<u8> {
    let text = vstd::utf8::encode_utf8(nickname);
    let room = if text.len() < MAX_NICKNAME {
        text.len()
    } else {
        MAX_NICKNAME as nat
    };
    text.subrange(0, boundary_below(text, room) as int)
}

/// The flag of a kind.
pub open spec fn kind_flag(kind: FrameKind) -> u8 {
    match kind {
        FrameKind::Beacon => FLAG_BEACON,
        FrameKind::Ack => FLAG_ACK,
        FrameKind::SenderKey => FLAG_SKDM,
        FrameKind::Message => 0,
    }
}

impl SealingModel {
    /// The flag that announces the preamble.
    pub open spec fn flag(self) -> u8 {
        match self {
            SealingModel::Network { .. } => 0,
            SealingModel::Static => 0,
            SealingModel::ForwardSecret { .. } => FLAG_FS,
            SealingModel::SenderKey { .. } => FLAG_SK,
        }
    }

    /// The preamble the recipient needs to derive the key.
    pub open spec fn preamble(self) -> Seq<u8> {
        match self {
            SealingModel::Network { .. } => Seq::empty(),
            SealingModel::Static => Seq::empty(),
            SealingModel::ForwardSecret { ephemeral, prekey, generation } => crypto::x25519_public(
                ephemeral,
            ) + bytes::le_bytes(generation as nat, 4),
            SealingModel::SenderKey { chain_id, index, key } => bytes::le_bytes(
                chain_id as nat,
                4,
            ) + bytes::le_bytes(index as nat, 4),
        }
    }
}

/// The key a frame is sealed with.
pub open spec fn sealing_key(seed: Seq<u8>, id: Seq<u8>, out: OutgoingModel) -> Result<
    Seq<u8>,
    CoreError,
> {
    match out.sealing {
        SealingModel::Network { key } => Ok(key),
        SealingModel::Static => crypto::static_key(seed, id, out.recipient),
        SealingModel::ForwardSecret { ephemeral, prekey, generation } => crypto::fs_seal_key(
            seed,
            id,
            ephemeral,
            out.recipient,
            prekey,
            generation,
        ),
        SealingModel::SenderKey { chain_id, index, key } => Ok(key),
    }
}

/// The header.
pub open spec fn header_bytes(sender: Seq<u8>, out: OutgoingModel, nonce: Seq<u8>) -> Seq<u8> {
    seq![
        MAGIC,
        VERSION,
        kind_flag(out.kind) | out.sealing.flag(),
        out.ttl,
        0u8,
        nickname_bytes(out.nickname).len() as u8,
    ] + bytes::le_bytes(out.body.len() + crypto::TAG_LEN as nat, 2) + bytes::le_bytes(
        out.epoch as nat,
        8,
    ) + bytes::le_bytes(out.counter as nat, 8) + sender + out.recipient + out.msg_id + nonce
}

/// Everything before the ciphertext.
pub open spec fn prefix_bytes(sender: Seq<u8>, out: OutgoingModel, nonce: Seq<u8>) -> Seq<u8> {
    header_bytes(sender, out, nonce) + out.sealing.preamble() + nickname_bytes(out.nickname)
}

/// The sealed frame, or why there is none.
pub open spec fn built(
    seed: Seq<u8>,
    id: Seq<u8>,
    out: OutgoingModel,
    nonce: Seq<u8>,
) -> Result<Seq<u8>, CoreError> {
    if out.body.len() > MAX_BODY {
        Err(CoreError::InvalidArgument("body exceeds MAX_BODY"))
    } else {
        match sealing_key(seed, id, out) {
            Err(error) => Err(error),
            Ok(key) => {
                let prefix = prefix_bytes(id, out, nonce);
                Ok(prefix + crypto::aead_sealed(key, nonce, aad_of(prefix), out.body))
            },
        }
    }
}

/// The way of sealing goes with the recipient: the prekey path is directed, the
/// sender chain is for broadcasts.
pub open spec fn addressed_well(out: OutgoingModel) -> bool {
    &&& out.sealing is ForwardSecret ==> out.recipient != bytes::zeros(32)
    &&& out.sealing is SenderKey ==> out.recipient == bytes::zeros(32)
}

/// What a built frame parses to.
pub open spec fn sent_frame(
    sender: Seq<u8>,
    out: OutgoingModel,
    nonce: Seq<u8>,
    ciphertext: Seq<u8>,
) -> FrameModel {
    FrameModel {
        sender,
        recipient: out.recipient,
        msg_id: out.msg_id,
        nonce,
        epoch: out.epoch,
        counter: out.counter,
        ttl: out.ttl,
        hops: 0,
        kind: out.kind,
        fs: match out.sealing {
            SealingModel::ForwardSecret { ephemeral, prekey, generation } => Some(
                FsModel { ephemeral: crypto::x25519_public(ephemeral), generation },
            ),
            _ => None,
        },
        sk: match out.sealing {
            SealingModel::SenderKey { chain_id, index, key } => Some(
                SkPreamble { chain_id, index },
            ),
            _ => None,
        },
        nickname: vstd::utf8::decode_utf8(nickname_bytes(out.nickname)),
        ciphertext,
        aad: aad_of(prefix_bytes(sender, out, nonce)),
    }
}

// --- Opening ---------------------------------------------------------------

/// The key a frame is opened with by the identity `(seed, id)`.
pub open spec fn opening_key(
    seed: Seq<u8>,
    id: Seq<u8>,
    f: FrameModel,
    opening: OpeningModel,
) -> Result<Seq<u8>, CoreError> {
    match opening {
        OpeningModel::Network { key } => Ok(key),
        OpeningModel::Static => crypto::static_key(seed, id, f.sender),
        OpeningModel::ForwardSecret { prekey_secret } => match f.fs {
            None => Err(CoreError::Crypto("no FS preamble")),
            Some(fs) => crypto::fs_open_key(
                prekey_secret,
                fs.ephemeral,
                f.sender,
                f.recipient,
                fs.generation,
            ),
        },
        OpeningModel::SenderKey { key } => Ok(key),
    }
}

/// What a frame opens to.
pub open spec fn opened(
    seed: Seq<u8>,
    id: Seq<u8>,
    f: FrameModel,
    opening: OpeningModel,
) -> Result<Seq<u8>, CoreError> {
    match opening_key(seed, id, f, opening) {
        Err(error) => Err(error),
        Ok(key) => crypto::open_result(key, f.nonce, f.aad, f.ciphertext),
    }
}

/// The recipient of a built frame reads the body back, each in the way the frame
/// was sealed for it: channel members with the channel key, holders of the chain
/// with the message key, the addressed identity by static agreement, the holder
/// of the addressed prekey's secret with that.
pub open spec fn opens_for_recipient(out: OutgoingModel, f: FrameModel) -> bool {
    match out.sealing {
        SealingModel::Network { key } => forall|seed: Seq<u8>, id: Seq<u8>| #[trigger]
            opened(seed, id, f, OpeningModel::Network { key }) == Ok::<Seq<u8>, CoreError>(
                out.body,
            ),
        SealingModel::SenderKey { chain_id, index, key } => forall|seed: Seq<u8>, id: Seq<u8>|
            #[trigger]
            opened(seed, id, f, OpeningModel::SenderKey { key }) == Ok::<Seq<u8>, CoreError>(
                out.body,
            ),
        SealingModel::Static => forall|seed: Seq<u8>| #[trigger]
            crypto::is_identity(seed, out.recipient) ==> opened(
                seed,
                out.recipient,
                f,
                OpeningModel::Static,
            ) == Ok::<Seq<u8>, CoreError>(out.body),
        SealingModel::ForwardSecret { ephemeral, prekey, generation } => forall|
            prekey_secret: Seq<u8>,
            seed: Seq<u8>,
            id: Seq<u8>,
        |
            prekey_secret.len() == 32 && crypto::x25519_public(prekey_secret) == prekey
                ==> #[trigger] opened(seed, id, f, OpeningModel::ForwardSecret { prekey_secret })
                == Ok::<Seq<u8>, CoreError>(out.body),
    }
}

// --- Relaying --------------------------------------------------------------

/// The relayed copy of a frame: one less to live, one hop more.
pub open spec fn relayed(buf: Seq<u8>) -> Seq<u8> {
    buf.update(
        3,
        if buf[3] == 0 {
            0
        } else {
            (buf[3] - 1) as u8
        },
    ).update(
        4,
        if buf[4] == 255 {
            255
        } else {
            (buf[4] + 1) as u8
        },
    )
}

// ---------------------------------------------------------------------------
// Code
// ---------------------------------------------------------------------------

impl<'a> ParsedFrame<'a> {
    pub fn is_beacon(&self) -> (beacon: bool)
        ensures
            beacon == (self@.kind == FrameKind::Beacon),
    {
        self.kind == FrameKind::Beacon
    }

    pub fn is_broadcast(&self) -> (broadcast: bool)
        ensures
            broadcast == self@.is_broadcast(),
            broadcast == (self.recipient == crypto::BROADCAST_ID),
    {
        let broadcast: bool = bytes::same_32(&self.recipient, &crypto::BROADCAST_ID);
        assert(crypto::BROADCAST_ID@ =~= bytes::zeros(32));
        assert(self.recipient@ == crypto::BROADCAST_ID@ ==> self.recipient
            =~= crypto::BROADCAST_ID);
        broadcast
    }

    /// True when the sender used a forward-secret path: the prekey exchange for
    /// directed frames, the sender-key ratchet for broadcasts.
    pub fn is_forward_secret(&self) -> (secret: bool)
        ensures
            secret == self@.is_forward_secret(),
    {
        self.fs.is_some() || self.sk.is_some()
    }

    /// Exactly what was fed to the AEAD as associated data.
    pub fn aad(&self) -> (aad: &[u8])
        ensures
            aad@ == self@.aad,
    {
        self.authenticated.as_slice()
    }
}

/// Copy the bytes before the ciphertext and zero the fields relays may rewrite.
fn make_aad(prefix: &[u8]) -> (aad: Vec<u8>)
    requires
        prefix@.len() >= HEADER_LEN,
    ensures
        aad@ == aad_of(prefix@),
{
    let mut aad: Vec<u8> = bytes::copy_of(prefix);
    aad.set(3, 0);
    aad.set(4, 0);
    aad
}

/// Parse a frame. Nothing is decrypted, and nothing in the result is
/// authenticated yet.
pub fn parse<'a>(buf: &'a [u8]) -> (frame: Result<ParsedFrame<'a>, FrameError>)
    ensures
        match frame {
            Ok(f) => parsed(buf@) == Ok::<FrameModel, FrameError>(f@) && f@.ciphertext.len()
                <= 0xFFFF,
            Err(error) => parsed(buf@) == Err::<FrameModel, FrameError>(error),
        },
{
    if buf.len() < HEADER_LEN {
        return Err(FrameError::TooShort);
    }
    if buf[0] != MAGIC {
        return Err(FrameError::BadMagic);
    }
    if buf[1] != VERSION {
        return Err(FrameError::UnsupportedVersion(buf[1]));
    }
    let flags: u8 = buf[2];
    let nick_len: usize = buf[5] as usize;
    if nick_len > MAX_NICKNAME {
        return Err(FrameError::BadNickname);
    }
    proof {
        bytes::lemma_le_limits();
    }
    let body_len: usize = bytes::get_le(buf, 6, 2) as usize;

    // The preamble bears on the length, so it is settled before any offset after
    // the header can be trusted.
    let has_fs: bool = flags & FLAG_FS != 0;
    let has_sk: bool = flags & FLAG_SK != 0;
    if has_fs && has_sk {
        return Err(FrameError::ConflictingPreambles);
    }
    // Which preamble is present must agree with who the frame is addressed to:
    // the opening key is picked from the recipient, so a broadcast with an FS
    // preamble would be a channel-key message that claims forward secrecy.
    let recipient: [u8; 32] = bytes::get_32(buf, 56);
    let is_broadcast: bool = bytes::same_32(&recipient, &crypto::BROADCAST_ID);
    proof {
        assert(crypto::BROADCAST_ID@ =~= bytes::zeros(32));
        assert(recipient@ == crypto::BROADCAST_ID@ ==> recipient =~= crypto::BROADCAST_ID);
    }
    if has_fs && is_broadcast {
        return Err(FrameError::PreambleKindMismatch);
    }
    if has_sk && !is_broadcast {
        return Err(FrameError::PreambleKindMismatch);
    }
    let preamble: usize = if has_fs {
        FS_PREAMBLE_LEN
    } else if has_sk {
        SK_PREAMBLE_LEN
    } else {
        0
    };
    let start: usize = HEADER_LEN + preamble;
    if buf.len() < start {
        return Err(FrameError::TooShort);
    }
    if start + nick_len + body_len != buf.len() {
        return Err(FrameError::LengthMismatch);
    }
    let fs: Option<FsPreamble> = if has_fs {
        Some(
            FsPreamble {
                ephemeral: bytes::get_32(buf, 116),
                generation: bytes::get_le(buf, 148, 4) as u32,
            },
        )
    } else {
        None
    };
    let sk: Option<SkPreamble> = if has_sk {
        Some(
            SkPreamble {
                chain_id: bytes::get_le(buf, 116, 4) as u32,
                index: bytes::get_le(buf, 120, 4) as u32,
            },
        )
    } else {
        None
    };
    let end: usize = start + nick_len;
    let nickname: String = match text::utf8_text(vstd::slice::slice_subrange(buf, start, end)) {
        Some(nickname) => nickname,
        None => {
            return Err(FrameError::BadNickname);
        },
    };
    let kind: FrameKind = if flags & FLAG_BEACON != 0 {
        FrameKind::Beacon
    } else if flags & FLAG_ACK != 0 {
        FrameKind::Ack
    } else if flags & FLAG_SKDM != 0 {
        FrameKind::SenderKey
    } else {
        FrameKind::Message
    };
    Ok(
        ParsedFrame {
            sender: bytes::get_32(buf, 24),
            recipient,
            msg_id: bytes::get_16(buf, 88),
            nonce: bytes::get_12(buf, 104),
            epoch: bytes::get_le(buf, 8, 8),
            counter: bytes::get_le(buf, 16, 8),
            ttl: buf[3],
            hops: buf[4],
            kind,
            fs,
            sk,
            nickname,
            ciphertext: bytes::tail_of(buf, end),
            authenticated: make_aad(vstd::slice::slice_subrange(buf, 0, end)),
        },
    )
}

/// Where to cut a nickname: the largest character boundary within the room.
fn nickname_cut(nickname: &str) -> (cut: usize)
    ensures
        cut <= vstd::utf8::encode_utf8(nickname@).len(),
        cut <= MAX_NICKNAME,
        vstd::utf8::encode_utf8(nickname@).subrange(0, cut as int) == nickname_bytes(nickname@),
{
    let len: usize = nickname.as_bytes().len();
    let room: usize = if len < MAX_NICKNAME {
        len
    } else {
        MAX_NICKNAME
    };
    let mut cut: usize = room;
    while cut > 0 && !nickname.is_char_boundary(cut)
        invariant
            cut <= room <= len,
            room <= MAX_NICKNAME,
            len == vstd::utf8::encode_utf8(nickname@).len(),
            boundary_below(vstd::utf8::encode_utf8(nickname@), cut as nat) == boundary_below(
                vstd::utf8::encode_utf8(nickname@),
                room as nat,
            ),
        decreases cut,
    {
        cut = cut - 1;
    }
    cut
}

/// The key a frame is sealed with and the preamble that lets the recipient derive
/// it: two halves of one decision.
fn resolve_sealing(identity: &Identity, out: &Outgoing<'_>) -> (resolved: Result<
    ([u8; 32], Vec<u8>),
    CoreError,
>)
    ensures
        match resolved {
            Ok((key, preamble)) => {
                &&& sealing_key(identity.seed(), identity.id()@, out@) == Ok::<Seq<u8>, CoreError>(
                    key@,
                )
                &&& preamble@ == out.sealing@.preamble()
                &&& preamble@.len() == preamble_len(out.sealing@.flag())
                &&& key_opens(out@, identity.id()@, key@)
            },
            Err(error) => sealing_key(identity.seed(), identity.id()@, out@) == Err::<
                Seq<u8>,
                CoreError,
            >(error),
        },
{
    proof {
        lemma_flags();
    }
    match &out.sealing {
        Sealing::Network { key } => {
            let preamble: Vec<u8> = Vec::new();
            assert(preamble@ =~= out.sealing@.preamble());
            Ok((**key, preamble))
        },
        Sealing::Static => {
            let preamble: Vec<u8> = Vec::new();
            assert(preamble@ =~= out.sealing@.preamble());
            match identity.derive_static_key(&out.recipient) {
                Ok(key) => Ok((key, preamble)),
                Err(error) => Err(error),
            }
        },
        Sealing::ForwardSecret { ephemeral, prekey } => {
            match crypto::seal_key_fs(
                identity,
                ephemeral,
                &out.recipient,
                &prekey.public,
                prekey.generation,
            ) {
                Ok(key) => {
                    let public: [u8; 32] = ephemeral.public_key();
                    let mut preamble: Vec<u8> = bytes::copy_of(&public);
                    bytes::put_le(&mut preamble, prekey.generation as u64, 4);
                    proof {
                        bytes::lemma_le_bytes_len(prekey.generation as nat, 4);
                        assert(preamble@ =~= out.sealing@.preamble());
                    }
                    Ok((key, preamble))
                },
                Err(error) => Err(error),
            }
        },
        Sealing::SenderKey { chain_id, index, key } => {
            let mut preamble: Vec<u8> = Vec::new();
            bytes::put_le(&mut preamble, *chain_id as u64, 4);
            bytes::put_le(&mut preamble, *index as u64, 4);
            proof {
                bytes::lemma_le_bytes_len(*chain_id as nat, 4);
                bytes::lemma_le_bytes_len(*index as nat, 4);
                assert(preamble@ =~= out.sealing@.preamble());
            }
            Ok((**key, preamble))
        },
    }
}

/// The recipient's side derives the same key, in the way the frame was sealed.
spec fn key_opens(out: OutgoingModel, sender: Seq<u8>, key: Seq<u8>) -> bool {
    match out.sealing {
        SealingModel::Network { .. } => true,
        SealingModel::SenderKey { .. } => true,
        SealingModel::Static => forall|seed: Seq<u8>| #[trigger]
            crypto::is_identity(seed, out.recipient) ==> crypto::static_key(
                seed,
                out.recipient,
                sender,
            ) == Ok::<Seq<u8>, CoreError>(key),
        SealingModel::ForwardSecret { ephemeral, prekey, generation } => forall|
            prekey_secret: Seq<u8>,
        |
            prekey_secret.len() == 32 && #[trigger] crypto::x25519_public(prekey_secret) == prekey
                ==> crypto::fs_open_key(
                prekey_secret,
                crypto::x25519_public(ephemeral),
                sender,
                out.recipient,
                generation,
            ) == Ok::<Seq<u8>, CoreError>(key),
    }
}

/// Build a sealed frame under a fresh random nonce.
///
/// The body must fit; the sealing key must be derivable; and the system must have
/// randomness. The recipient reads the body back.
pub fn build(identity: &Identity, out: &Outgoing<'_>) -> (frame: Result<Vec<u8>, CoreError>)
    ensures
        match frame {
            Ok(wire) => exists|nonce: Seq<u8>| {
                &&& nonce.len() == 12
                &&& #[trigger] built(identity.seed(), identity.id()@, out@, nonce) == Ok::<
                    Seq<u8>,
                    CoreError,
                >(wire@)
                &&& reads_back(identity.id()@, out@, nonce, wire@)
            },
            Err(error) => {
                ||| error == CoreError::Crypto("getrandom failed") && out.body@.len() <= MAX_BODY
                ||| forall|nonce: Seq<u8>|
                    #[trigger] built(identity.seed(), identity.id()@, out@, nonce) == Err::<
                        Seq<u8>,
                        CoreError,
                    >(error)
            },
        },
        out.body@.len() > MAX_BODY ==> frame == Err::<Vec<u8>, CoreError>(
            CoreError::InvalidArgument("body exceeds MAX_BODY"),
        ),
{
    if out.body.len() > MAX_BODY {
        return Err(CoreError::InvalidArgument("body exceeds MAX_BODY"));
    }
    match crypto::random_nonce() {
        Ok(nonce) => {
            let frame: Result<Vec<u8>, CoreError> = build_with_nonce(identity, out, &nonce);
            assert(nonce@.len() == 12);
            frame
        },
        Err(error) => Err(error),
    }
}

/// What a frame on the air says, and that its recipient can read it.
pub open spec fn reads_back(
    sender: Seq<u8>,
    out: OutgoingModel,
    nonce: Seq<u8>,
    wire: Seq<u8>,
) -> bool {
    &&& wire.len() == HEADER_LEN + out.sealing.preamble().len() + nickname_bytes(
        out.nickname,
    ).len() + out.body.len() + crypto::TAG_LEN
    &&& wire.len() <= MAX_FRAME
    &&& addressed_well(out) ==> {
        let f = sent_frame(
            sender,
            out,
            nonce,
            wire.skip(prefix_bytes(sender, out, nonce).len() as int),
        );
        &&& parsed(wire) == Ok::<FrameModel, FrameError>(f)
        &&& opens_for_recipient(out, f)
    }
}

/// Build a sealed frame under a given nonce, which must never be used again with
/// the same key.
pub fn build_with_nonce(identity: &Identity, out: &Outgoing<'_>, nonce: &[u8; 12]) -> (frame:
    Result<Vec<u8>, CoreError>)
    ensures
        crypto::byte_result(frame) == built(identity.seed(), identity.id()@, out@, nonce@),
        frame matches Ok(wire) ==> reads_back(identity.id()@, out@, nonce@, wire@),
{
    if out.body.len() > MAX_BODY {
        return Err(CoreError::InvalidArgument("body exceeds MAX_BODY"));
    }
    let cut: usize = nickname_cut(out.nickname);
    let nick: &[u8] = vstd::slice::slice_subrange(out.nickname.as_bytes(), 0, cut);
    let (key, preamble) = match resolve_sealing(identity, out) {
        Ok(resolved) => resolved,
        Err(error) => {
            return Err(error);
        },
    };
    let kind: u8 = match out.kind {
        FrameKind::Beacon => FLAG_BEACON,
        FrameKind::Ack => FLAG_ACK,
        FrameKind::SenderKey => FLAG_SKDM,
        FrameKind::Message => 0,
    };
    let preamble_flag: u8 = match &out.sealing {
        Sealing::Network { .. } => 0,
        Sealing::Static => 0,
        Sealing::ForwardSecret { .. } => FLAG_FS,
        Sealing::SenderKey { .. } => FLAG_SK,
    };
    let sender: PeerId = identity.public_id();
    let ct_len: usize = out.body.len() + crypto::TAG_LEN;
    let mut wire: Vec<u8> = Vec::with_capacity(HEADER_LEN + preamble.len() + cut + ct_len);
    wire.push(MAGIC);
    wire.push(VERSION);
    wire.push(kind | preamble_flag);
    wire.push(out.ttl);
    wire.push(0);
    wire.push(cut as u8);
    proof {
        assert(wire@ =~= seq![
            MAGIC,
            VERSION,
            kind_flag(out.kind) | out.sealing@.flag(),
            out.ttl,
            0u8,
            nickname_bytes(out@.nickname).len() as u8,
        ]);
    }
    bytes::put_le(&mut wire, ct_len as u64, 2);
    bytes::put_le(&mut wire, out.epoch, 8);
    bytes::put_le(&mut wire, out.counter, 8);
    bytes::put_all(&mut wire, &sender);
    bytes::put_all(&mut wire, &out.recipient);
    bytes::put_all(&mut wire, &out.msg_id);
    bytes::put_all(&mut wire, nonce);
    assert(wire@ == header_bytes(sender@, out@, nonce@));
    bytes::put_all(&mut wire, preamble.as_slice());
    // The nickname goes on *before* the AAD snapshot: it is authenticated data.
    bytes::put_all(&mut wire, nick);
    let ghost prefix = wire@;
    proof {
        assert(prefix == prefix_bytes(sender@, out@, nonce@));
        lemma_header_len(sender@, out@, nonce@);
    }
    let aad: Vec<u8> = make_aad(wire.as_slice());
    match crypto::seal_aead(&key, nonce, aad.as_slice(), out.body) {
        Ok(sealed) => {
            bytes::put_all(&mut wire, sealed.as_slice());
            proof {
                assert(wire@.skip(prefix.len() as int) =~= sealed@);
                lemma_max_frame();
                if addressed_well(out@) {
                    law_parse_gives_back_build(sender@, out@, nonce@, sealed@);
                    let f = sent_frame(sender@, out@, nonce@, sealed@);
                    assert(opens_for_recipient(out@, f));
                }
            }
            Ok(wire)
        },
        Err(error) => Err(error),
    }
}

/// Open a frame. Whatever opens is exactly what sealing that plaintext gives.
pub fn open(identity: &Identity, f: &ParsedFrame<'_>, opening: Opening<'_>) -> (plaintext: Result<
    Vec<u8>,
    CoreError,
>)
    requires
        f@.ciphertext.len() >= crypto::TAG_LEN ==> crypto::has_answer(
            (f@.ciphertext.len() - crypto::TAG_LEN) as nat,
        ),
    ensures
        crypto::byte_result(plaintext) == opened(identity.seed(), identity.id()@, f@, opening@),
        plaintext matches Ok(body) ==> {
            &&& body@.len() + crypto::TAG_LEN == f@.ciphertext.len()
            &&& opening_key(identity.seed(), identity.id()@, f@, opening@) is Ok
            &&& f@.ciphertext == crypto::aead_sealed(
                opening_key(identity.seed(), identity.id()@, f@, opening@)->Ok_0,
                f@.nonce,
                f@.aad,
                body@,
            )
        },
{
    let key: Result<[u8; 32], CoreError> = match opening {
        Opening::Network { key } => Ok(*key),
        Opening::Static => identity.derive_static_key(&f.sender),
        Opening::ForwardSecret { prekey_secret } => match &f.fs {
            Some(fs) => crypto::open_key_fs(
                prekey_secret,
                &fs.ephemeral,
                &f.sender,
                &f.recipient,
                fs.generation,
            ),
            None => Err(CoreError::Crypto("no FS preamble")),
        },
        // The caller derived this from the sender chain named in the preamble.
        Opening::SenderKey { key } => Ok(*key),
    };
    assert(crypto::key_bytes(key) == opening_key(identity.seed(), identity.id()@, f@, opening@));
    match key {
        Ok(key) => crypto::open_aead(&key, &f.nonce, f.aad(), f.ciphertext),
        Err(error) => Err(error),
    }
}

/// Produce the relayed copy of a frame: TTL-1, hops+1, everything else untouched.
/// It takes no key.
pub fn relay(buf: &[u8]) -> (copy: Result<Vec<u8>, FrameError>)
    ensures
        match copy {
            Ok(wire) => buf@.len() >= HEADER_LEN && wire@ == relayed(buf@),
            Err(error) => buf@.len() < HEADER_LEN && error == FrameError::TooShort,
        },
{
    if buf.len() < HEADER_LEN {
        return Err(FrameError::TooShort);
    }
    let ttl: u8 = if buf[3] == 0 {
        0
    } else {
        buf[3] - 1
    };
    let hops: u8 = if buf[4] == 255 {
        255
    } else {
        buf[4] + 1
    };
    let mut wire: Vec<u8> = bytes::copy_of(buf);
    wire.set(3, ttl);
    wire.set(4, hops);
    Ok(wire)
}

// ---------------------------------------------------------------------------
// Lemmas
// ---------------------------------------------------------------------------

/// What the flag bits of a built frame read as.
proof fn lemma_flags()
    ensures
        forall|kind: FrameKind, flag: u8|
            flag == 0 || flag == FLAG_FS || flag == FLAG_SK ==> {
                &&& kind_of(#[trigger] (kind_flag(kind) | flag)) == kind
                &&& ((kind_flag(kind) | flag) & FLAG_FS != 0) == (flag == FLAG_FS)
                &&& ((kind_flag(kind) | flag) & FLAG_SK != 0) == (flag == FLAG_SK)
            },
        preamble_len(0) == 0,
        preamble_len(FLAG_FS) == FS_PREAMBLE_LEN,
        preamble_len(FLAG_SK) == SK_PREAMBLE_LEN,
{
    assert forall|kind: FrameKind, flag: u8|
        flag == 0 || flag == FLAG_FS || flag == FLAG_SK implies {
        &&& kind_of(#[trigger] (kind_flag(kind) | flag)) == kind
        &&& ((kind_flag(kind) | flag) & FLAG_FS != 0) == (flag == FLAG_FS)
        &&& ((kind_flag(kind) | flag) & FLAG_SK != 0) == (flag == FLAG_SK)
    } by {
        let k = kind_flag(kind);
        assert((k == 0 || k == 1 || k == 2 || k == 0x10) && (flag == 0 || flag == 4 || flag == 8)
            ==> {
            &&& ((k | flag) & 1 != 0) == (k == 1)
            &&& ((k | flag) & 2 != 0) == (k == 2)
            &&& ((k | flag) & 4 != 0) == (flag == 4)
            &&& ((k | flag) & 8 != 0) == (flag == 8)
            &&& ((k | flag) & 0x10 != 0) == (k == 0x10)
        }) by (bit_vector);
    }
    assert(0u8 & 4 == 0 && 0u8 & 8 == 0 && 4u8 & 4 != 0 && 8u8 & 4 == 0 && 8u8 & 8 != 0)
        by (bit_vector);
}

/// Cutting a nickname leaves well-formed text of at most the room there is.
proof fn lemma_nickname(nickname: Seq<char>)
    ensures
        nickname_bytes(nickname).len() <= MAX_NICKNAME,
        vstd::utf8::valid_utf8(nickname_bytes(nickname)),
{
    let text = vstd::utf8::encode_utf8(nickname);
    vstd::utf8::encode_utf8_valid_utf8(nickname);
    let room = if text.len() < MAX_NICKNAME {
        text.len()
    } else {
        MAX_NICKNAME as nat
    };
    lemma_boundary_below(text, room);
    let cut = boundary_below(text, room) as int;
    vstd::utf8::is_char_boundary_start_end_of_seq(text);
    vstd::utf8::valid_utf8_split(text, cut);
}

proof fn lemma_boundary_below(text: Seq<u8>, at: nat)
    requires
        vstd::utf8::valid_utf8(text),
    ensures
        boundary_below(text, at) <= at,
        vstd::utf8::is_char_boundary(text, boundary_below(text, at) as int),
    decreases at,
{
    vstd::utf8::is_char_boundary_start_end_of_seq(text);
    if at > 0 && !vstd::utf8::is_char_boundary(text, at as int) {
        lemma_boundary_below(text, (at - 1) as nat);
    }
}

proof fn lemma_header_len(sender: Seq<u8>, out: OutgoingModel, nonce: Seq<u8>)
    requires
        sender.len() == 32,
        out.recipient.len() == 32,
        out.msg_id.len() == 16,
        nonce.len() == 12,
    ensures
        header_bytes(sender, out, nonce).len() == HEADER_LEN,
        nickname_bytes(out.nickname).len() <= MAX_NICKNAME,
        vstd::utf8::valid_utf8(nickname_bytes(out.nickname)),
{
    bytes::lemma_le_bytes_len(out.body.len() + crypto::TAG_LEN as nat, 2);
    bytes::lemma_le_bytes_len(out.epoch as nat, 8);
    bytes::lemma_le_bytes_len(out.counter as nat, 8);
    lemma_nickname(out.nickname);
}

/// How long everything before the ciphertext is.
pub(crate) proof fn lemma_prefix_len(sender: Seq<u8>, out: OutgoingModel, nonce: Seq<u8>)
    requires
        sender.len() == 32,
        out.recipient.len() == 32,
        out.msg_id.len() == 16,
        nonce.len() == 12,
    ensures
        prefix_bytes(sender, out, nonce).len() == 116 + out.sealing.preamble().len()
            + nickname_bytes(out.nickname).len(),
        nickname_bytes(out.nickname).len() <= 20,
        prefix_bytes(sender, out, nonce)[5] == nickname_bytes(out.nickname).len(),
{
    lemma_header_len(sender, out, nonce);
}

proof fn lemma_max_frame()
    ensures
        MAX_BODY == 324,
        HEADER_LEN + FS_PREAMBLE_LEN + MAX_NICKNAME + MAX_BODY + crypto::TAG_LEN == MAX_FRAME,
        SK_PREAMBLE_LEN <= FS_PREAMBLE_LEN,
{
}

// ---------------------------------------------------------------------------
// Laws
// ---------------------------------------------------------------------------

/// Parsing gives back what was built: every field of the frame, its preamble, the
/// nickname cut to its room, the ciphertext and the bytes that were authenticated.
pub proof fn law_parse_gives_back_build(
    sender: Seq<u8>,
    out: OutgoingModel,
    nonce: Seq<u8>,
    ciphertext: Seq<u8>,
)
    requires
        sender.len() == 32,
        out.recipient.len() == 32,
        out.msg_id.len() == 16,
        nonce.len() == 12,
        out.body.len() <= MAX_BODY,
        ciphertext.len() == out.body.len() + crypto::TAG_LEN,
        out.sealing.preamble().len() == preamble_len(out.sealing.flag()),
        addressed_well(out),
    ensures
        parsed(prefix_bytes(sender, out, nonce) + ciphertext) == Ok::<FrameModel, FrameError>(
            sent_frame(sender, out, nonce, ciphertext),
        ),
{
    let header = header_bytes(sender, out, nonce);
    let preamble = out.sealing.preamble();
    let nick = nickname_bytes(out.nickname);
    let prefix = prefix_bytes(sender, out, nonce);
    let wire = prefix + ciphertext;
    let ct_len = out.body.len() + crypto::TAG_LEN as nat;
    lemma_header_len(sender, out, nonce);
    lemma_flags();
    lemma_max_frame();
    bytes::lemma_le_limits();
    bytes::lemma_le_bytes_len(ct_len, 2);
    bytes::lemma_le_bytes_len(out.epoch as nat, 8);
    bytes::lemma_le_bytes_len(out.counter as nat, 8);
    bytes::lemma_le_round_trip(ct_len, 2);
    bytes::lemma_le_round_trip(out.epoch as nat, 8);
    bytes::lemma_le_round_trip(out.counter as nat, 8);
    let flags = kind_flag(out.kind) | out.sealing.flag();
    assert(wire[0] == MAGIC && wire[1] == VERSION && wire[2] == flags && wire[3] == out.ttl
        && wire[4] == 0 && wire[5] == nick.len());
    assert(kind_of(flags) == out.kind);
    assert(wire.subrange(6, 8) =~= bytes::le_bytes(ct_len, 2));
    assert(wire.subrange(8, 16) =~= bytes::le_bytes(out.epoch as nat, 8));
    assert(wire.subrange(16, 24) =~= bytes::le_bytes(out.counter as nat, 8));
    assert(wire.subrange(24, 56) =~= sender);
    assert(wire.subrange(56, 88) =~= out.recipient);
    assert(wire.subrange(88, 104) =~= out.msg_id);
    assert(wire.subrange(104, 116) =~= nonce);
    assert(preamble_len(flags) == preamble.len());
    let start = HEADER_LEN + preamble.len();
    let end = start + nick.len();
    assert(wire.subrange(start, end) =~= nick);
    assert(wire.subrange(end, wire.len() as int) =~= ciphertext);
    assert(wire.subrange(0, end) =~= prefix);
    match out.sealing {
        SealingModel::ForwardSecret { ephemeral, prekey, generation } => {
            bytes::lemma_le_bytes_len(generation as nat, 4);
            bytes::lemma_le_round_trip(generation as nat, 4);
            assert(wire.subrange(116, 148) =~= crypto::x25519_public(ephemeral));
            assert(wire.subrange(148, 152) =~= bytes::le_bytes(generation as nat, 4));
        },
        SealingModel::SenderKey { chain_id, index, key } => {
            bytes::lemma_le_bytes_len(chain_id as nat, 4);
            bytes::lemma_le_bytes_len(index as nat, 4);
            bytes::lemma_le_round_trip(chain_id as nat, 4);
            bytes::lemma_le_round_trip(index as nat, 4);
            assert(wire.subrange(116, 120) =~= bytes::le_bytes(chain_id as nat, 4));
            assert(wire.subrange(120, 124) =~= bytes::le_bytes(index as nat, 4));
        },
        _ => {},
    }
    assert(frame_error(wire) is None);
    assert(frame_fields(wire) =~= sent_frame(sender, out, nonce, ciphertext));
}

/// A nickname that fits is given back whole.
pub proof fn law_short_nickname_survives(nickname: Seq<char>)
    requires
        vstd::utf8::encode_utf8(nickname).len() <= MAX_NICKNAME,
    ensures
        vstd::utf8::decode_utf8(nickname_bytes(nickname)) == nickname,
{
    let text = vstd::utf8::encode_utf8(nickname);
    vstd::utf8::encode_utf8_valid_utf8(nickname);
    vstd::utf8::is_char_boundary_start_end_of_seq(text);
    vstd::utf8::encode_utf8_decode_utf8(nickname);
    assert(nickname_bytes(nickname) =~= text);
}

/// A nickname that does not fit is cut between characters, never inside one: what
/// is given back is the beginning of it.
pub proof fn law_long_nickname_is_cut_between_characters(nickname: Seq<char>)
    ensures
        vstd::utf8::decode_utf8(nickname_bytes(nickname)).is_prefix_of(nickname),
{
    let text = vstd::utf8::encode_utf8(nickname);
    vstd::utf8::encode_utf8_valid_utf8(nickname);
    vstd::utf8::encode_utf8_decode_utf8(nickname);
    let room = if text.len() < MAX_NICKNAME {
        text.len()
    } else {
        MAX_NICKNAME as nat
    };
    lemma_boundary_below(text, room);
    vstd::utf8::decode_utf8_split(text, boundary_below(text, room) as int);
}

/// Bytes that differ from a frame's in `ttl` and `hops` at most parse to the same
/// frame otherwise.
proof fn lemma_rewritten(buf: Seq<u8>, copy: Seq<u8>)
    requires
        buf.len() >= HEADER_LEN,
        copy.len() == buf.len(),
        forall|i: int| 0 <= i < buf.len() && i != 3 && i != 4 ==> #[trigger] copy[i] == buf[i],
    ensures
        match parsed(buf) {
            Ok(f) => parsed(copy) == Ok::<FrameModel, FrameError>(
                FrameModel { ttl: copy[3], hops: copy[4], ..f },
            ),
            Err(error) => parsed(copy) == Err::<FrameModel, FrameError>(error),
        },
{
    assert(copy.subrange(56, 88) =~= buf.subrange(56, 88));
    assert(copy.subrange(6, 8) =~= buf.subrange(6, 8));
    if buf.len() >= nick_start(buf) && body_start(buf) <= buf.len() {
        assert(copy.subrange(nick_start(buf), body_start(buf)) =~= buf.subrange(
            nick_start(buf),
            body_start(buf),
        ));
    }
    if frame_error(buf) is None {
        let end = body_start(buf);
        assert(copy.subrange(24, 56) =~= buf.subrange(24, 56));
        assert(copy.subrange(88, 104) =~= buf.subrange(88, 104));
        assert(copy.subrange(104, 116) =~= buf.subrange(104, 116));
        assert(copy.subrange(8, 16) =~= buf.subrange(8, 16));
        assert(copy.subrange(16, 24) =~= buf.subrange(16, 24));
        if buf[2] & FLAG_FS != 0 {
            assert(copy.subrange(116, 148) =~= buf.subrange(116, 148));
            assert(copy.subrange(148, 152) =~= buf.subrange(148, 152));
        }
        if buf[2] & FLAG_SK != 0 {
            assert(copy.subrange(116, 120) =~= buf.subrange(116, 120));
            assert(copy.subrange(120, 124) =~= buf.subrange(120, 124));
        }
        assert(copy.subrange(end, copy.len() as int) =~= buf.subrange(end, buf.len() as int));
        assert(aad_of(copy.subrange(0, end)) =~= aad_of(buf.subrange(0, end)));
        assert(frame_fields(copy) =~= (FrameModel {
            ttl: copy[3],
            hops: copy[4],
            ..frame_fields(buf)
        }));
    }
}

/// `ttl` and `hops` may be rewritten freely: bytes that differ from a frame's in those
/// two at most are the same frame otherwise, authenticated bytes and ciphertext
/// included, and open, for anyone and in any way, to what it opens to. What is not a
/// frame is refused for the same reason.
pub proof fn law_ttl_and_hops_are_free(
    buf: Seq<u8>,
    copy: Seq<u8>,
    seed: Seq<u8>,
    id: Seq<u8>,
    opening: OpeningModel,
)
    requires
        buf.len() >= HEADER_LEN,
        copy.len() == buf.len(),
        forall|i: int| 0 <= i < buf.len() && i != 3 && i != 4 ==> #[trigger] copy[i] == buf[i],
    ensures
        match parsed(buf) {
            Ok(f) => {
                &&& parsed(copy) == Ok::<FrameModel, FrameError>(
                    FrameModel { ttl: copy[3], hops: copy[4], ..f },
                )
                &&& opened(seed, id, parsed(copy)->Ok_0, opening) == opened(seed, id, f, opening)
            },
            Err(error) => parsed(copy) == Err::<FrameModel, FrameError>(error),
        },
{
    lemma_rewritten(buf, copy);
}

/// Relaying rewrites `ttl` and `hops` and nothing else: a relayed frame parses to
/// the same frame, authenticated bytes and ciphertext included, and what is not a
/// frame is refused for the same reason.
pub proof fn law_relaying_preserves_the_frame(buf: Seq<u8>)
    requires
        buf.len() >= HEADER_LEN,
    ensures
        relayed(buf).len() == buf.len(),
        match parsed(buf) {
            Ok(f) => parsed(relayed(buf)) == Ok::<FrameModel, FrameError>(
                FrameModel { ttl: relayed(buf)[3], hops: relayed(buf)[4], ..f },
            ),
            Err(error) => parsed(relayed(buf)) == Err::<FrameModel, FrameError>(error),
        },
{
    lemma_rewritten(buf, relayed(buf));
}

/// Relaying preserves authenticity: a relayed frame opens, for anyone and in any
/// way, to what the original opens to.
pub proof fn law_relaying_preserves_authenticity(
    buf: Seq<u8>,
    seed: Seq<u8>,
    id: Seq<u8>,
    opening: OpeningModel,
)
    requires
        buf.len() >= HEADER_LEN,
        parsed(buf) is Ok,
    ensures
        parsed(relayed(buf)) is Ok,
        opened(seed, id, parsed(relayed(buf))->Ok_0, opening) == opened(
            seed,
            id,
            parsed(buf)->Ok_0,
            opening,
        ),
{
    law_relaying_preserves_the_frame(buf);
}

/// Everything but `ttl` and `hops` is authenticated: two frames with the same
/// authenticated bytes and the same ciphertext differ in those two bytes at most.
pub proof fn law_everything_else_is_authenticated(a: Seq<u8>, b: Seq<u8>)
    requires
        parsed(a) is Ok,
        parsed(b) is Ok,
        parsed(a)->Ok_0.aad == parsed(b)->Ok_0.aad,
        parsed(a)->Ok_0.ciphertext == parsed(b)->Ok_0.ciphertext,
    ensures
        a.len() == b.len(),
        forall|i: int| 0 <= i < a.len() && i != 3 && i != 4 ==> a[i] == b[i],
{
    let n = body_start(a);
    let m = body_start(b);
    assert(aad_of(a.subrange(0, n)).len() == n);
    assert(aad_of(b.subrange(0, m)).len() == m);
    assert(a.subrange(n, a.len() as int).len() == a.len() - n);
    assert(b.subrange(m, b.len() as int).len() == b.len() - m);
    assert forall|i: int| 0 <= i < a.len() && i != 3 && i != 4 implies a[i] == b[i] by {
        if i < n {
            assert(aad_of(a.subrange(0, n))[i] == a[i]);
            assert(aad_of(b.subrange(0, n))[i] == b[i]);
        } else {
            assert(a.subrange(n, a.len() as int)[i - n] == a[i]);
            assert(b.subrange(n, b.len() as int)[i - n] == b[i]);
        }
    }
}

/// A frame claims forward secrecy only where the key it is opened with provides
/// it: an FS preamble is on directed frames alone, a sender-key preamble on
/// broadcasts alone, and never both.
pub proof fn law_preambles_agree_with_the_recipient(buf: Seq<u8>)
    requires
        parsed(buf) is Ok,
    ensures
        parsed(buf)->Ok_0.fs is Some ==> !parsed(buf)->Ok_0.is_broadcast(),
        parsed(buf)->Ok_0.sk is Some ==> parsed(buf)->Ok_0.is_broadcast(),
        !(parsed(buf)->Ok_0.fs is Some && parsed(buf)->Ok_0.sk is Some),
{
}

/// The largest frame there is, forward secret with a full nickname and a full
/// body, is exactly as long as the ceiling.
pub proof fn law_maximal_frame_fits_the_ceiling()
    ensures
        HEADER_LEN + FS_PREAMBLE_LEN + MAX_NICKNAME + MAX_BODY + crypto::TAG_LEN == MAX_FRAME,
        SK_PREAMBLE_LEN <= FS_PREAMBLE_LEN,
        MAX_FRAME == 512,
        MAX_BODY == 324,
{
    lemma_max_frame();
}

/// Relaying counts: each relay leaves the frame exactly one less to live and one hop
/// further from its sender. At the ends of their range both stay put.
pub proof fn law_relaying_counts(buf: Seq<u8>)
    requires
        parsed(buf) is Ok,
    ensures
        parsed(relayed(buf)) is Ok,
        parsed(buf)->Ok_0.ttl > 0 ==> parsed(relayed(buf))->Ok_0.ttl == parsed(buf)->Ok_0.ttl - 1,
        parsed(buf)->Ok_0.ttl == 0 ==> parsed(relayed(buf))->Ok_0.ttl == 0,
        parsed(buf)->Ok_0.hops < 255 ==> parsed(relayed(buf))->Ok_0.hops
            == parsed(buf)->Ok_0.hops + 1,
        parsed(buf)->Ok_0.hops == 255 ==> parsed(relayed(buf))->Ok_0.hops == 255,
{
    law_relaying_preserves_the_frame(buf);
}

/// A frame after a number of relays.
pub open spec fn relayed_times(buf: Seq<u8>, times: nat) -> Seq<u8>
    decreases times,
{
    if times == 0 {
        buf
    } else {
        relayed(relayed_times(buf, (times - 1) as nat))
    }
}

/// A flood ends: a frame that sets out with so many hops to live has one less after
/// each relay, down to none, and counts them; all else about it stays the same.
pub proof fn law_flood_runs_out(buf: Seq<u8>, times: nat)
    requires
        parsed(buf) is Ok,
    ensures
        parsed(relayed_times(buf, times)) is Ok,
        ({
            let f = parsed(buf)->Ok_0;
            let copy = parsed(relayed_times(buf, times))->Ok_0;
            &&& copy == (FrameModel { ttl: copy.ttl, hops: copy.hops, ..f })
            &&& times <= f.ttl ==> copy.ttl == f.ttl - times
            &&& times >= f.ttl ==> copy.ttl == 0
            &&& f.hops + times <= 255 ==> copy.hops == f.hops + times
        }),
    decreases times,
{
    if times > 0 {
        let fewer = (times - 1) as nat;
        law_flood_runs_out(buf, fewer);
        law_relaying_counts(relayed_times(buf, fewer));
        law_relaying_preserves_the_frame(relayed_times(buf, fewer));
    }
}

/// Where each field of a frame stands on the air, byte by byte.
pub proof fn law_wire_layout(seed: Seq<u8>, id: Seq<u8>, out: OutgoingModel, nonce: Seq<u8>)
    requires
        id.len() == 32,
        out.recipient.len() == 32,
        out.msg_id.len() == 16,
        nonce.len() == 12,
        out.sealing matches SealingModel::ForwardSecret { ephemeral, .. } ==> (
        crypto::x25519_public(ephemeral).len() == 32),
        built(seed, id, out, nonce) is Ok,
    ensures
        ({
            let wire = built(seed, id, out, nonce)->Ok_0;
            let nick = wire[5] as int;
            let start: int = match out.sealing {
                SealingModel::ForwardSecret { .. } => 152,
                SealingModel::SenderKey { .. } => 124,
                _ => 116,
            };
            &&& wire.len() >= 116
            &&& wire[0] == 0x4D
            &&& wire[1] == 5
            &&& wire[2] == (match out.kind {
                FrameKind::Message => 0int,
                FrameKind::Beacon => 1,
                FrameKind::Ack => 2,
                FrameKind::SenderKey => 16,
            }) + (match out.sealing {
                SealingModel::ForwardSecret { .. } => 4int,
                SealingModel::SenderKey { .. } => 8,
                _ => 0,
            })
            &&& wire[3] == out.ttl
            &&& wire[4] == 0
            &&& bytes::le_value(wire.subrange(6, 8)) == out.body.len() + 16
            &&& bytes::le_value(wire.subrange(8, 16)) == out.epoch
            &&& bytes::le_value(wire.subrange(16, 24)) == out.counter
            &&& wire.subrange(24, 56) == id
            &&& wire.subrange(56, 88) == out.recipient
            &&& wire.subrange(88, 104) == out.msg_id
            &&& wire.subrange(104, 116) == nonce
            &&& wire.subrange(start, start + nick) == nickname_bytes(out.nickname)
            &&& sealing_key(seed, id, out) is Ok
            &&& wire.skip(start + nick) == crypto::aead_sealed(
                sealing_key(seed, id, out)->Ok_0,
                nonce,
                wire.take(start + nick).update(3, 0).update(4, 0),
                out.body,
            )
            &&& out.sealing matches SealingModel::SenderKey { chain_id, index, key } ==> {
                &&& bytes::le_value(wire.subrange(116, 120)) == chain_id
                &&& bytes::le_value(wire.subrange(120, 124)) == index
            }
            &&& out.sealing matches SealingModel::ForwardSecret { ephemeral, prekey, generation }
                ==> {
                &&& wire.subrange(116, 148) == crypto::x25519_public(ephemeral)
                &&& bytes::le_value(wire.subrange(148, 152)) == generation
            }
        }),
{
    let wire = built(seed, id, out, nonce)->Ok_0;
    let ct_len = out.body.len() + crypto::TAG_LEN as nat;
    lemma_header_len(id, out, nonce);
    lemma_max_frame();
    bytes::lemma_le_limits();
    bytes::lemma_le_bytes_len(ct_len, 2);
    bytes::lemma_le_bytes_len(out.epoch as nat, 8);
    bytes::lemma_le_bytes_len(out.counter as nat, 8);
    bytes::lemma_le_round_trip(ct_len, 2);
    bytes::lemma_le_round_trip(out.epoch as nat, 8);
    bytes::lemma_le_round_trip(out.counter as nat, 8);
    let kind = kind_flag(out.kind);
    let flag = out.sealing.flag();
    assert((kind == 0 || kind == 1 || kind == 2 || kind == 16) && (flag == 0 || flag == 4 || flag
        == 8) ==> (kind | flag) == kind + flag) by (bit_vector);
    assert(wire.subrange(6, 8) =~= bytes::le_bytes(ct_len, 2));
    assert(wire.subrange(8, 16) =~= bytes::le_bytes(out.epoch as nat, 8));
    assert(wire.subrange(16, 24) =~= bytes::le_bytes(out.counter as nat, 8));
    assert(wire.subrange(24, 56) =~= id);
    assert(wire.subrange(56, 88) =~= out.recipient);
    assert(wire.subrange(88, 104) =~= out.msg_id);
    assert(wire.subrange(104, 116) =~= nonce);
    let nick = nickname_bytes(out.nickname);
    assert(wire[5] == nick.len());
    match out.sealing {
        SealingModel::ForwardSecret { ephemeral, prekey, generation } => {
            bytes::lemma_le_bytes_len(generation as nat, 4);
            bytes::lemma_le_round_trip(generation as nat, 4);
            assert(wire.subrange(116, 148) =~= crypto::x25519_public(ephemeral));
            assert(wire.subrange(148, 152) =~= bytes::le_bytes(generation as nat, 4));
        },
        SealingModel::SenderKey { chain_id, index, key } => {
            bytes::lemma_le_bytes_len(chain_id as nat, 4);
            bytes::lemma_le_bytes_len(index as nat, 4);
            bytes::lemma_le_round_trip(chain_id as nat, 4);
            bytes::lemma_le_round_trip(index as nat, 4);
            assert(wire.subrange(116, 120) =~= bytes::le_bytes(chain_id as nat, 4));
            assert(wire.subrange(120, 124) =~= bytes::le_bytes(index as nat, 4));
        },
        _ => {},
    }
    let start = 116 + out.sealing.preamble().len() as int;
    assert(wire.subrange(start, start + nick.len()) =~= nick);
    let prefix = prefix_bytes(id, out, nonce);
    assert(wire.take(start + nick.len()) =~= prefix);
    assert(wire.skip(start + nick.len()) =~= crypto::aead_sealed(
        sealing_key(seed, id, out)->Ok_0,
        nonce,
        aad_of(prefix),
        out.body,
    ));
}

/// What is taken for a frame, and what of it is read from where.
pub proof fn law_what_is_a_frame(buf: Seq<u8>)
    ensures
        parsed(buf) is Ok <==> {
            let fs = buf[2] & 4 != 0;
            let sk = buf[2] & 8 != 0;
            let start: int = if fs {
                152
            } else if sk {
                124
            } else {
                116
            };
            let everyone = forall|i: int| 56 <= i < 88 ==> #[trigger] buf[i] == 0;
            &&& buf.len() >= 116
            &&& buf[0] == 0x4D
            &&& buf[1] == 5
            &&& buf[5] <= 20
            &&& !(fs && sk)
            &&& fs ==> !everyone
            &&& sk ==> everyone
            &&& buf.len() == start + buf[5] + bytes::le_value(buf.subrange(6, 8))
            &&& vstd::utf8::valid_utf8(buf.subrange(start, start + buf[5]))
        },
        parsed(buf) matches Ok(f) ==> {
            &&& f.ttl == buf[3]
            &&& f.hops == buf[4]
            &&& f.epoch == bytes::le_value(buf.subrange(8, 16))
            &&& f.counter == bytes::le_value(buf.subrange(16, 24))
            &&& f.sender == buf.subrange(24, 56)
            &&& f.recipient == buf.subrange(56, 88)
            &&& f.msg_id == buf.subrange(88, 104)
            &&& f.nonce == buf.subrange(104, 116)
            &&& f.fs is Some == (buf[2] & 4 != 0)
            &&& f.sk is Some == (buf[2] & 8 != 0)
            &&& f.is_forward_secret() == (f.fs is Some || f.sk is Some)
            &&& f.is_broadcast() == (forall|i: int| 56 <= i < 88 ==> #[trigger] buf[i] == 0)
            &&& (f.kind == FrameKind::Beacon) == (buf[2] & 1 != 0)
            &&& buf[2] & 1 == 0 ==> (f.kind == FrameKind::Ack) == (buf[2] & 2 != 0)
            &&& buf[2] & 1 == 0 && buf[2] & 2 == 0 ==> (f.kind == FrameKind::SenderKey) == (buf[2]
                & 16 != 0)
        },
{
    if buf.len() >= 116 {
        assert(buf.subrange(56, 88) == bytes::zeros(32) <==> (forall|i: int|
            56 <= i < 88 ==> #[trigger] buf[i] == 0)) by {
            if forall|i: int| 56 <= i < 88 ==> #[trigger] buf[i] == 0 {
                assert(buf.subrange(56, 88) =~= bytes::zeros(32));
            }
            if buf.subrange(56, 88) == bytes::zeros(32) {
                assert forall|i: int| 56 <= i < 88 implies #[trigger] buf[i] == 0 by {
                    assert(buf.subrange(56, 88)[i - 56] == bytes::zeros(32)[i - 56]);
                }
            }
        }
        bytes::lemma_le_limits();
        bytes::lemma_le_value_bound(buf.subrange(8, 16));
        bytes::lemma_le_value_bound(buf.subrange(16, 24));
    }
}

/// Why bytes are not taken for a frame: the reason names what is wrong with them, the
/// first thing first.
pub proof fn law_why_bytes_are_no_frame(buf: Seq<u8>)
    ensures
        buf.len() < 116 ==> parsed(buf) == Err::<FrameModel, FrameError>(FrameError::TooShort),
        buf.len() >= 116 && buf[0] != 0x4D ==> parsed(buf) == Err::<FrameModel, FrameError>(
            FrameError::BadMagic,
        ),
        buf.len() >= 116 && buf[0] == 0x4D && buf[1] != 5 ==> parsed(buf) == Err::<
            FrameModel,
            FrameError,
        >(FrameError::UnsupportedVersion(buf[1])),
        buf.len() >= 116 && buf[0] == 0x4D && buf[1] == 5 ==> (parsed(buf) matches Err(error)
            ==> match error {
            FrameError::BadNickname => buf[5] > 20 || !vstd::utf8::valid_utf8(
                buf.subrange(nick_start(buf), nick_start(buf) + buf[5]),
            ),
            FrameError::ConflictingPreambles => buf[2] & 4 != 0 && buf[2] & 8 != 0,
            FrameError::PreambleKindMismatch => {
                ||| buf[2] & 4 != 0 && buf.subrange(56, 88) == bytes::zeros(32)
                ||| buf[2] & 8 != 0 && buf.subrange(56, 88) != bytes::zeros(32)
            },
            FrameError::TooShort => {
                ||| buf[2] & 4 != 0 && buf.len() < 152
                ||| buf[2] & 8 != 0 && buf.len() < 124
            },
            FrameError::LengthMismatch => buf.len() != nick_start(buf) + buf[5] + bytes::le_value(
                buf.subrange(6, 8),
            ),
            _ => false,
        }),
{
}

/// What else is read of a frame: the preamble, the name, the ciphertext, and what is
/// authenticated, which is everything in front of the ciphertext with the two bytes
/// that relays rewrite set to zero.
pub proof fn law_what_is_read_of_a_frame(buf: Seq<u8>)
    requires
        parsed(buf) is Ok,
    ensures
        ({
            let f = parsed(buf)->Ok_0;
            let start: int = if f.fs is Some {
                152
            } else if f.sk is Some {
                124
            } else {
                116
            };
            let end = start + buf[5];
            &&& f.fs matches Some(fs) ==> {
                &&& fs.ephemeral == buf.subrange(116, 148)
                &&& fs.generation == bytes::le_value(buf.subrange(148, 152))
            }
            &&& f.sk matches Some(sk) ==> {
                &&& sk.chain_id == bytes::le_value(buf.subrange(116, 120))
                &&& sk.index == bytes::le_value(buf.subrange(120, 124))
            }
            &&& f.nickname == vstd::utf8::decode_utf8(buf.subrange(start, end))
            &&& f.ciphertext == buf.skip(end)
            &&& f.aad.len() == end
            &&& forall|i: int|
                0 <= i < end ==> #[trigger] f.aad[i] == if i == 3 || i == 4 {
                    0
                } else {
                    buf[i]
                }
        }),
{
    let f = parsed(buf)->Ok_0;
    bytes::lemma_le_limits();
    if f.fs is Some {
        bytes::lemma_le_value_bound(buf.subrange(148, 152));
    }
    if f.sk is Some {
        bytes::lemma_le_value_bound(buf.subrange(116, 120));
        bytes::lemma_le_value_bound(buf.subrange(120, 124));
    }
    assert(f.ciphertext =~= buf.skip(body_start(buf)));
}

/// A name is cut as late as it can be: what goes on the air is twenty bytes at most,
/// and no boundary between characters lies behind the cut and within that room.
pub proof fn law_nickname_is_cut_late(nickname: Seq<char>)
    ensures
        ({
            let text = vstd::utf8::encode_utf8(nickname);
            let cut = nickname_bytes(nickname);
            &&& cut.len() <= 20
            &&& cut.len() <= text.len()
            &&& cut == text.take(cut.len() as int)
            &&& text.len() <= 20 ==> cut == text
            &&& forall|i: int|
                cut.len() < i <= 20 && i <= text.len() ==> !vstd::utf8::is_char_boundary(text, i)
        }),
{
    let text = vstd::utf8::encode_utf8(nickname);
    let room = if text.len() < MAX_NICKNAME {
        text.len()
    } else {
        MAX_NICKNAME as nat
    };
    vstd::utf8::encode_utf8_valid_utf8(nickname);
    vstd::utf8::is_char_boundary_start_end_of_seq(text);
    lemma_boundary_below(text, room);
    lemma_boundary_is_the_last(text, room);
    assert(nickname_bytes(nickname) =~= text.take(boundary_below(text, room) as int));
    if text.len() <= 20 {
        assert(text.take(text.len() as int) =~= text);
    }
}

proof fn lemma_boundary_is_the_last(text: Seq<u8>, at: nat)
    ensures
        forall|i: int|
            boundary_below(text, at) < i <= at ==> !vstd::utf8::is_char_boundary(text, i),
    decreases at,
{
    if at > 0 && !vstd::utf8::is_char_boundary(text, at as int) {
        lemma_boundary_is_the_last(text, (at - 1) as nat);
    }
}

} // verus!
