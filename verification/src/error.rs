//! Everything that can go wrong in the core.
use vstd::prelude::*;
use vstd::string::StringExecFns;

use crate::frame::FrameError;

verus! {

/// An error of the core.
#[derive(Debug, Clone, PartialEq, Eq)]
pub enum CoreError {
    NotRunning,
    InvalidArgument(&'static str),
    Crypto(&'static str),
    UnknownPeer,
    Radio(String),
    Frame(FrameError),
}

impl CoreError {
    /// The message shown to people.
    pub open spec fn message_chars(self) -> Seq<char> {
        match self {
            CoreError::NotRunning => "core is not broadcasting"@,
            CoreError::InvalidArgument(what) => "invalid argument: "@ + what@,
            CoreError::Crypto(what) => "crypto failure: "@ + what@,
            CoreError::UnknownPeer => "unknown peer"@,
            CoreError::Radio(what) => "radio failure: "@ + what@,
            CoreError::Frame(error) => "frame error: "@ + error.name_chars(),
        }
    }

    /// The message shown to people.
    pub fn message(&self) -> (text: String)
        ensures
            text@ == self.message_chars(),
    {
        match self {
            CoreError::NotRunning => "core is not broadcasting".to_owned(),
            CoreError::InvalidArgument(what) => "invalid argument: ".to_owned().concat(what),
            CoreError::Crypto(what) => "crypto failure: ".to_owned().concat(what),
            CoreError::UnknownPeer => "unknown peer".to_owned(),
            CoreError::Radio(what) => "radio failure: ".to_owned().concat(what.as_str()),
            CoreError::Frame(error) => "frame error: ".to_owned().concat(error.name().as_str()),
        }
    }
}

impl From<FrameError> for CoreError {
    fn from(error: FrameError) -> (core: CoreError) {
        CoreError::Frame(error)
    }
}

impl vstd::std_specs::convert::FromSpecImpl<FrameError> for CoreError {
    open spec fn obeys_from_spec() -> bool {
        true
    }

    open spec fn from_spec(error: FrameError) -> CoreError {
        CoreError::Frame(error)
    }
}

/// What people read of an error: what went wrong, and where there is more to say, that
/// as it was given.
pub proof fn law_errors_say_what_went_wrong(error: CoreError)
    ensures
        ({
            let text = error.message_chars();
            match error {
                CoreError::NotRunning => text == "core is not broadcasting"@,
                CoreError::InvalidArgument(what) => text == "invalid argument: "@ + what@,
                CoreError::Crypto(what) => text == "crypto failure: "@ + what@,
                CoreError::UnknownPeer => text == "unknown peer"@,
                CoreError::Radio(what) => text == "radio failure: "@ + what@,
                CoreError::Frame(FrameError::UnsupportedVersion(version)) => text
                    == "frame error: "@ + ("UnsupportedVersion("@ + crate::text::decimal_chars(
                    version as nat,
                ) + ")"@),
                CoreError::Frame(inner) => text == "frame error: "@ + inner.name_chars(),
            }
        }),
{
}

} // verus!
