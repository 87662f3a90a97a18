//! Status codes at the native boundary.
use vstd::prelude::*;
use vstd::string::StringExecFns;

use crate::error::CoreError;
use crate::text;

verus! {

/// Outcome of a native call.
#[derive(Debug, Clone, Copy, PartialEq, Eq, Structural)]
pub enum MeshStatus {
    Success,
    NullHandle,
    InvalidArgument,
    Crypto,
    NotRunning,
    UnknownPeer,
    Radio,
    Frame,
    /// A panic was caught at the boundary. The library is still usable, but this
    /// always indicates a bug.
    Panic,
}

impl MeshStatus {
    /// The number of a status in the C ABI.
    pub open spec fn number(self) -> i32 {
        match self {
            MeshStatus::Success => 0,
            MeshStatus::NullHandle => 1,
            MeshStatus::InvalidArgument => 2,
            MeshStatus::Crypto => 3,
            MeshStatus::NotRunning => 4,
            MeshStatus::UnknownPeer => 5,
            MeshStatus::Radio => 6,
            MeshStatus::Frame => 7,
            MeshStatus::Panic => 255,
        }
    }

    /// The number of a status in the C ABI.
    pub fn code(self) -> (code: i32)
        ensures
            code == self.number(),
    {
        match self {
            MeshStatus::Success => 0,
            MeshStatus::NullHandle => 1,
            MeshStatus::InvalidArgument => 2,
            MeshStatus::Crypto => 3,
            MeshStatus::NotRunning => 4,
            MeshStatus::UnknownPeer => 5,
            MeshStatus::Radio => 6,
            MeshStatus::Frame => 7,
            MeshStatus::Panic => 255,
        }
    }

    /// The status that stands for an error.
    pub open spec fn of_error(error: CoreError) -> MeshStatus {
        match error {
            CoreError::NotRunning => MeshStatus::NotRunning,
            CoreError::InvalidArgument(_) => MeshStatus::InvalidArgument,
            CoreError::Crypto(_) => MeshStatus::Crypto,
            CoreError::UnknownPeer => MeshStatus::UnknownPeer,
            CoreError::Radio(_) => MeshStatus::Radio,
            CoreError::Frame(_) => MeshStatus::Frame,
        }
    }
}

impl From<CoreError> for MeshStatus {
    fn from(error: CoreError) -> (status: MeshStatus) {
        match error {
            CoreError::NotRunning => MeshStatus::NotRunning,
            CoreError::InvalidArgument(_) => MeshStatus::InvalidArgument,
            CoreError::Crypto(_) => MeshStatus::Crypto,
            CoreError::UnknownPeer => MeshStatus::UnknownPeer,
            CoreError::Radio(_) => MeshStatus::Radio,
            CoreError::Frame(_) => MeshStatus::Frame,
        }
    }
}

impl vstd::std_specs::convert::FromSpecImpl<CoreError> for MeshStatus {
    open spec fn obeys_from_spec() -> bool {
        true
    }

    open spec fn from_spec(error: CoreError) -> MeshStatus {
        MeshStatus::of_error(error)
    }
}

/// What a radio callback's return code means: zero is success, anything else a
/// radio failure that names the callback and the code.
pub fn radio_status(code: i32, what: &str) -> (result: Result<(), CoreError>)
    ensures
        match result {
            Ok(_) => code == 0,
            Err(error) => {
                &&& code != 0
                &&& error is Radio
                &&& error->Radio_0@ == what@ + " returned "@ + text::signed_chars(code as int)
            },
        },
{
    if code == 0 {
        Ok(())
    } else {
        Err(
            CoreError::Radio(
                what.to_owned().concat(" returned ").concat(text::signed_decimal(code).as_str()),
            ),
        )
    }
}

/// What a radio method's yes or no means: no is a radio failure that names the
/// method.
pub fn radio_answer(yes: bool, method: &str) -> (result: Result<(), CoreError>)
    ensures
        match result {
            Ok(_) => yes,
            Err(error) => {
                &&& !yes
                &&& error is Radio
                &&& error->Radio_0@ == method@ + " returned false"@
            },
        },
{
    if yes {
        Ok(())
    } else {
        Err(CoreError::Radio(method.to_owned().concat(" returned false")))
    }
}

/// Different statuses have different numbers, and only success is zero.
pub proof fn law_status_codes_are_distinct(a: MeshStatus, b: MeshStatus)
    ensures
        a.number() == b.number() ==> a == b,
        a.number() == 0 <==> a == MeshStatus::Success,
{
}

/// No error is reported as success.
pub proof fn law_errors_are_not_success(error: CoreError)
    ensures
        MeshStatus::of_error(error).number() != 0,
{
}

/// The numbers that callers of the C ABI are compiled against.
pub proof fn law_status_numbers_are_fixed(status: MeshStatus)
    ensures
        status.number() == 0 <==> status is Success,
        status.number() == 1 <==> status is NullHandle,
        status.number() == 2 <==> status is InvalidArgument,
        status.number() == 3 <==> status is Crypto,
        status.number() == 4 <==> status is NotRunning,
        status.number() == 5 <==> status is UnknownPeer,
        status.number() == 6 <==> status is Radio,
        status.number() == 7 <==> status is Frame,
        status.number() == 255 <==> status is Panic,
{
}

/// Each kind of error has a status of its own, which names it.
pub proof fn law_each_error_has_its_status(error: CoreError)
    ensures
        MeshStatus::of_error(error) is InvalidArgument <==> error is InvalidArgument,
        MeshStatus::of_error(error) is Crypto <==> error is Crypto,
        MeshStatus::of_error(error) is NotRunning <==> error is NotRunning,
        MeshStatus::of_error(error) is UnknownPeer <==> error is UnknownPeer,
        MeshStatus::of_error(error) is Radio <==> error is Radio,
        MeshStatus::of_error(error) is Frame <==> error is Frame,
        !(MeshStatus::of_error(error) is NullHandle),
        !(MeshStatus::of_error(error) is Panic),
{
}

} // verus!
