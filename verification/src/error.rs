//! The error taxonomy of one invocation, with its rendered messages.

use vstd::prelude::*;
use vstd::string::StringExecFns;

use crate::decimal::{i32_to_string, int_str};

verus! {

/// Why an invocation failed: a malformed or out-of-range argument, a failed
/// default-device lookup, or a failed property write.  The two hardware
/// variants carry the raw status code the call returned.
#[derive(Clone, Copy, Debug, PartialEq)]
pub enum VolumeError {
    InvalidInput(&'static str),
    DeviceError(i32),
    SetError(i32),
}

impl VolumeError {
    /// The human-readable message that is printed on standard error.
    pub open spec fn message_spec(&self) -> Seq<char> {
        match self {
            VolumeError::InvalidInput(msg) => msg@,
            VolumeError::DeviceError(code) => "Failed to get audio device: "@ + int_str(
                *code as int,
            ),
            VolumeError::SetError(code) => "Failed to set volume: "@ + int_str(*code as int),
        }
    }

    /// Renders the message.
    pub fn message(&self) -> (m: String)
        ensures
            m@ =~= self.message_spec(),
    {
        match self {
            VolumeError::InvalidInput(msg) => (*msg).to_owned(),
            VolumeError::DeviceError(code) => {
                let mut m = String::new();
                m.append("Failed to get audio device: ");
                let digits = i32_to_string(*code);
                m.append(digits.as_str());
                m
            },
            VolumeError::SetError(code) => {
                let mut m = String::new();
                m.append("Failed to set volume: ");
                let digits = i32_to_string(*code);
                m.append(digits.as_str());
                m
            },
        }
    }
}

} // verus!
