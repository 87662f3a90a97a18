//! Mesh messaging core.
//!
//! Framing, duplicate suppression, anti-replay, flood routing, store-and-forward,
//! key agreement and the peer table of a BLE mesh messenger. The platform owns the
//! radio; this crate decides what goes on the air and what comes off it.
// Names that only contracts and proofs use are gone from a plain build.
#![allow(unused_imports)]
use vstd::prelude::*;

pub mod bytes;
pub mod clock;
pub mod config;
pub mod crypto;
pub mod error;
pub mod event;
pub mod frame;
pub mod guarantees;
pub mod outbox;
pub mod peer;
pub mod prekey;
pub mod protocol;
pub mod relaycache;
pub mod replay;
pub mod senderkey;
pub mod seqs;
pub mod status;
pub mod table;
pub mod text;
pub mod worker;

pub use clock::now_ms;
pub use config::Config;
pub use crypto::{Identity, PeerId};
pub use error::CoreError;
pub use event::{Event, EventKind, ABI_VERSION};
pub use frame::{FrameError, FrameKind, ParsedFrame};
pub use outbox::Outbox;
pub use peer::Peer;
pub use prekey::{PeerPrekey, PrekeyRing};
pub use replay::{ReplayVerdict, ReplayWindow};
pub use status::MeshStatus;
pub use worker::{Action, Command, Worker};

verus! {

/// The BLE radio, implemented by the native layer.
///
/// Implementations must not block for long: enqueue and return.
pub trait PlatformRadio: Send + Sync {
    /// Begin advertising `payload`, which is already framed and encrypted. The
    /// slice is **borrowed**: copy it if it is needed past the call.
    fn start_advertising(&self, payload: &[u8]) -> Result<(), CoreError>;

    fn stop_advertising(&self) -> Result<(), CoreError>;

    fn start_scanning(&self) -> Result<(), CoreError>;

    fn stop_scanning(&self) -> Result<(), CoreError>;

    /// Best-effort directed send over a GATT connection, when one exists. An error
    /// makes the core fall back to flooding.
    fn send_direct(&self, peer: &PeerId, payload: &[u8]) -> Result<(), CoreError>;
}

/// Where the core pushes asynchronous events.
pub trait EventSink: Send + Sync {
    fn emit(&self, event: Event);
}

} // verus!
