//! What a node is started with.
use vstd::prelude::*;

use crate::bytes;
use crate::crypto;
use crate::senderkey;


verus! {

/// Max hops a flooded frame may take before it is dropped.
pub const DEFAULT_TTL: u8 = 6;

/// Settings of a node.
#[derive(Debug)]
pub struct Config {
    /// Human-visible name broadcast in the beacon. Truncated to 20 bytes.
    pub nickname: String,
    /// 32-byte seed for the long-term identity key. `None` = generate.
    pub identity_seed: Option<[u8; 32]>,
    /// Secret that defines which mesh to join.
    pub channel_secret: Vec<u8>,
    pub ttl: u8,
    /// Session epoch, stamped into every frame for anti-replay. Defaults to the
    /// wall clock at construction; a persisted boot counter is better.
    pub epoch: Option<u64>,
    /// How often the sender chain is replaced. Each replacement costs one directed
    /// frame per known peer.
    pub chain_rotate_ms: u64,
}

impl Default for Config {
    fn default() -> (config: Self)
        ensures
            config.nickname@ == "anon"@,
            config.identity_seed is None,
            config.channel_secret@ == crypto::OPEN_CHANNEL@,
            config.ttl == DEFAULT_TTL,
            config.epoch is None,
            config.chain_rotate_ms == senderkey::ROTATE_INTERVAL_MS,
    {
        Config {
            nickname: "anon".to_owned(),
            identity_seed: None,
            channel_secret: bytes::copy_of(crypto::OPEN_CHANNEL),
            ttl: DEFAULT_TTL,
            epoch: None,
            chain_rotate_ms: senderkey::ROTATE_INTERVAL_MS,
        }
    }
}

impl Clone for Config {
    fn clone(&self) -> (copy: Self)
        ensures
            copy.nickname@ == self.nickname@,
            copy.identity_seed == self.identity_seed,
            copy.channel_secret@ == self.channel_secret@,
            copy.ttl == self.ttl,
            copy.epoch == self.epoch,
            copy.chain_rotate_ms == self.chain_rotate_ms,
    {
        Config {
            nickname: self.nickname.clone(),
            identity_seed: self.identity_seed,
            channel_secret: bytes::copy_of(self.channel_secret.as_slice()),
            ttl: self.ttl,
            epoch: self.epoch,
            chain_rotate_ms: self.chain_rotate_ms,
        }
    }
}

/// Text with what is not UTF-8 replaced.
pub uninterp spec fn utf8_lossy(data: Seq<u8>) -> Seq<char>;

/// `String::from_utf8_lossy`, as an owned string, under the name [`utf8_lossy`].
/// Well-formed UTF-8 is kept as it is.
#[verifier::external_body]
fn lossy_text(data: &[u8]) -> (text: String)
    ensures
        text@ == utf8_lossy(data@),
        vstd::utf8::valid_utf8(data@) ==> text@ == vstd::utf8::decode_utf8(data@),
{
    String::from_utf8_lossy(data).into_owned()
}

impl Config {
    /// Settings handed over by a native caller: a missing nickname is "anon", a
    /// missing channel secret is the open channel, a TTL of zero is the default,
    /// and everything else is the default too.
    pub fn from_native(
        nickname: Option<&[u8]>,
        identity_seed: Option<[u8; 32]>,
        channel_secret: Option<&[u8]>,
        ttl: u8,
    ) -> (config: Self)
        ensures
            config.nickname@ == (match nickname {
                Some(data) => utf8_lossy(data@),
                None => "anon"@,
            }),
            nickname matches Some(data) ==> (vstd::utf8::valid_utf8(data@) ==> config.nickname@
                == vstd::utf8::decode_utf8(data@)),
            config.identity_seed == identity_seed,
            config.channel_secret@ == (match channel_secret {
                Some(secret) => secret@,
                None => crypto::OPEN_CHANNEL@,
            }),
            config.ttl == (if ttl == 0 {
                DEFAULT_TTL
            } else {
                ttl
            }),
            config.epoch is None,
            config.chain_rotate_ms == senderkey::ROTATE_INTERVAL_MS,
    {
        let mut config = Config::default();
        if let Some(data) = nickname {
            config.nickname = lossy_text(data);
        }
        config.identity_seed = identity_seed;
        if let Some(secret) = channel_secret {
            config.channel_secret = bytes::copy_of(secret);
        }
        if ttl != 0 {
            config.ttl = ttl;
        }
        config
    }

    /// Settings handed over by a Java caller: a seed that is not 32 bytes counts as
    /// missing, and a TTL outside one byte is the default.
    pub fn from_java(nickname: Option<String>, identity_seed: Option<&[u8]>, ttl: i32) -> (config:
        Self)
        ensures
            config.nickname@ == (match nickname {
                Some(name) => name@,
                None => "anon"@,
            }),
            match config.identity_seed {
                Some(seed) => identity_seed is Some && identity_seed->Some_0@ == seed@,
                None => identity_seed is None || identity_seed->Some_0@.len() != 32,
            },
            config.channel_secret@ == crypto::OPEN_CHANNEL@,
            config.ttl == (if ttl <= 0 || ttl > 255 {
                DEFAULT_TTL as int
            } else {
                ttl as int
            }),
            config.epoch is None,
            config.chain_rotate_ms == senderkey::ROTATE_INTERVAL_MS,
    {
        let mut config = Config::default();
        if let Some(name) = nickname {
            config.nickname = name;
        }
        if let Some(data) = identity_seed {
            config.identity_seed = id_of(data);
        }
        if ttl > 0 && ttl <= 255 {
            config.ttl = ttl as u8;
        }
        config
    }
}

/// 32 bytes as an array: `None` where there are more or fewer.
pub fn id_of(data: &[u8]) -> (id: Option<[u8; 32]>)
    ensures
        match id {
            Some(id) => id@ == data@,
            None => data@.len() != 32,
        },
{
    if data.len() == 32 {
        let id: [u8; 32] = bytes::get_32(data, 0);
        assert(data@.subrange(0, 32) =~= data@);
        Some(id)
    } else {
        None
    }
}

} // verus!
