//! One invocation as a state machine.
//!
//! The surrounding binary drives the machine: it feeds the command-line
//! argument in as the first event, performs each returned [`Action`] against
//! the OS audio subsystem, and feeds the outcome back as the next event,
//! until the action is an exit.  Every decision of the call sequence —
//! parse, resolve the default device, write the volume, then write the
//! derived mute flag — is taken here, where it is verified.

use vstd::prelude::*;

use crate::error::VolumeError;
use crate::number::{in_range, is_float, is_special};
use crate::volume::{parse_volume, Volume};

verus! {

/// Where an invocation stands.
#[derive(Clone, Copy, Debug, PartialEq)]
pub enum State {
    /// Nothing has happened yet.
    Ready,
    /// The argument parsed; the default output device is being resolved.
    AwaitingDevice { volume: Volume },
    /// The volume write was requested; its status is awaited.
    AwaitingVolumeAck { device: u32, volume: Volume },
    /// The mute write was requested; its status is awaited.
    AwaitingMuteAck { device: u32 },
    /// The invocation is over with this exit code.
    Finished { code: u8 },
}

/// What the outside world reports to the machine.
#[derive(Debug, PartialEq)]
pub enum Event {
    /// The process started with this optional first argument.
    Invoked { arg: Option<String> },
    /// The default-device lookup returned `status`; `id` is the device when
    /// `status` is zero.
    DeviceResult { status: i32, id: u32 },
    /// A property write returned `status`.
    WriteResult { status: i32 },
}

/// What the machine asks the outside world to do next.
#[derive(Clone, Copy, Debug, PartialEq)]
pub enum Action {
    /// Query the default output device of the system.
    QueryDefaultDevice,
    /// Write `volume` (the fraction `percent / 100`) to the device's
    /// volume-scalar property.
    WriteVolume { device: u32, volume: Volume },
    /// Write `muted` to the device's mute property.
    WriteMute { device: u32, muted: bool },
    /// End the process with `code`, printing the message of `error`, if
    /// any, on standard error.
    Exit { code: u8, error: Option<VolumeError> },
}

/// Whether `e` is the event that state `s` awaits.
pub open spec fn event_fits(s: State, e: Event) -> bool {
    match (s, e) {
        (State::Ready, Event::Invoked { .. }) => true,
        (State::AwaitingDevice { .. }, Event::DeviceResult { .. }) => true,
        (State::AwaitingVolumeAck { .. }, Event::WriteResult { .. }) => true,
        (State::AwaitingMuteAck { .. }, Event::WriteResult { .. }) => true,
        _ => false,
    }
}

/// The transition relation of one invocation.
///
/// An event that its state does not await (which the driving loop never
/// produces) falls to the last arm and ends the invocation with exit code 1.
pub open spec fn step_spec(s: State, e: Event) -> (State, Action) {
    match (s, e) {
        (State::Ready, Event::Invoked { arg }) => match arg {
            None => (State::Finished { code: 0 }, Action::Exit { code: 0, error: None }),
            Some(a) => {
                if is_float(a@) && in_range(a@) {
                    (
                        State::AwaitingDevice { volume: Volume::of_number(a@) },
                        Action::QueryDefaultDevice,
                    )
                } else if is_special(a@) || is_float(a@) {
                    (
                        State::Finished { code: 1 },
                        Action::Exit {
                            code: 1,
                            error: Some(VolumeError::InvalidInput("Volume must be 0-100")),
                        },
                    )
                } else {
                    (
                        State::Finished { code: 1 },
                        Action::Exit {
                            code: 1,
                            error: Some(VolumeError::InvalidInput("Invalid number")),
                        },
                    )
                }
            },
        },
        (State::AwaitingDevice { volume }, Event::DeviceResult { status, id }) => {
            if status == 0 {
                (
                    State::AwaitingVolumeAck { device: id, volume },
                    Action::WriteVolume { device: id, volume },
                )
            } else {
                (
                    State::Finished { code: 1 },
                    Action::Exit { code: 1, error: Some(VolumeError::DeviceError(status)) },
                )
            }
        },
        (State::AwaitingVolumeAck { device, volume }, Event::WriteResult { status }) => {
            if status == 0 {
                (
                    State::AwaitingMuteAck { device },
                    Action::WriteMute { device, muted: volume.is_zero_spec() },
                )
            } else {
                (
                    State::Finished { code: 1 },
                    Action::Exit { code: 1, error: Some(VolumeError::SetError(status)) },
                )
            }
        },
        (State::AwaitingMuteAck { .. }, Event::WriteResult { status }) => {
            if status == 0 {
                (State::Finished { code: 0 }, Action::Exit { code: 0, error: None })
            } else {
                (
                    State::Finished { code: 1 },
                    Action::Exit { code: 1, error: Some(VolumeError::SetError(status)) },
                )
            }
        },
        _ => (State::Finished { code: 1 }, Action::Exit { code: 1, error: None }),
    }
}

/// Takes one step: exactly the transition that [`step_spec`] describes.
pub fn step(s: State, e: Event) -> (r: (State, Action))
    ensures
        r == step_spec(s, e),
{
    match (s, e) {
        (State::Ready, Event::Invoked { arg }) => match arg {
            None => (State::Finished { code: 0 }, Action::Exit { code: 0, error: None }),
            Some(a) => match parse_volume(a.as_str()) {
                Ok(v) => (State::AwaitingDevice { volume: v }, Action::QueryDefaultDevice),
                Err(err) => (
                    State::Finished { code: 1 },
                    Action::Exit { code: 1, error: Some(err) },
                ),
            },
        },
        (State::AwaitingDevice { volume }, Event::DeviceResult { status, id }) => {
            if status == 0 {
                (
                    State::AwaitingVolumeAck { device: id, volume },
                    Action::WriteVolume { device: id, volume },
                )
            } else {
                (
                    State::Finished { code: 1 },
                    Action::Exit { code: 1, error: Some(VolumeError::DeviceError(status)) },
                )
            }
        },
        (State::AwaitingVolumeAck { device, volume }, Event::WriteResult { status }) => {
            if status == 0 {
                (
                    State::AwaitingMuteAck { device },
                    Action::WriteMute { device, muted: volume.is_zero() },
                )
            } else {
                (
                    State::Finished { code: 1 },
                    Action::Exit { code: 1, error: Some(VolumeError::SetError(status)) },
                )
            }
        },
        (State::AwaitingMuteAck { device }, Event::WriteResult { status }) => {
            if status == 0 {
                (State::Finished { code: 0 }, Action::Exit { code: 0, error: None })
            } else {
                (
                    State::Finished { code: 1 },
                    Action::Exit { code: 1, error: Some(VolumeError::SetError(status)) },
                )
            }
        },
        _ => (State::Finished { code: 1 }, Action::Exit { code: 1, error: None }),
    }
}

/// Well-formedness of a state: any volume it carries is in range.
pub open spec fn state_valid(s: State) -> bool {
    match s {
        State::AwaitingDevice { volume } => volume.valid(),
        State::AwaitingVolumeAck { volume, .. } => volume.valid(),
        _ => true,
    }
}

/// Well-formedness of an action: a requested volume write carries a volume
/// in range, and an exit code is 0 or 1.
pub open spec fn action_valid(a: Action) -> bool {
    match a {
        Action::WriteVolume { volume, .. } => volume.valid(),
        Action::Exit { code, .. } => code == 0 || code == 1,
        _ => true,
    }
}

/// Stepping preserves well-formedness: from a well-formed state, the next
/// state is well-formed and the requested action is well-formed.  In
/// particular, every volume the machine ever asks the OS to write lies in
/// the valid range.
pub proof fn lemma_step_preserves_validity(s: State, e: Event)
    requires
        state_valid(s),
    ensures
        state_valid(step_spec(s, e).0),
        action_valid(step_spec(s, e).1),
{
    if let (State::Ready, Event::Invoked { arg: Some(a) }) = (s, e) {
        if is_float(a@) && in_range(a@) {
            Volume::lemma_of_number_valid(a@);
        }
    }
}

/// An invocation exits successfully exactly when no error occurred: of the
/// events the driving loop can produce, any exit action carries an error if
/// and only if its code is 1.
pub proof fn lemma_exit_code_matches_error(s: State, e: Event)
    requires
        event_fits(s, e),
    ensures
        step_spec(s, e).1 matches Action::Exit { code, error } ==> (code == 0 <==> error is None),
{
}

/// A successful volume write of a zero volume is always followed by a
/// mute write, with the flag set, to the same device.
pub proof fn lemma_zero_volume_mutes(device: u32, volume: Volume)
    requires
        volume.is_zero_spec(),
    ensures
        step_spec(State::AwaitingVolumeAck { device, volume }, Event::WriteResult { status: 0 })
            == (
            State::AwaitingMuteAck { device },
            Action::WriteMute { device, muted: true },
        ),
{
}

/// A successful volume write of a non-zero volume is always followed by a
/// mute write, with the flag cleared, to the same device.
pub proof fn lemma_positive_volume_unmutes(device: u32, volume: Volume)
    requires
        !volume.is_zero_spec(),
    ensures
        step_spec(State::AwaitingVolumeAck { device, volume }, Event::WriteResult { status: 0 })
            == (
            State::AwaitingMuteAck { device },
            Action::WriteMute { device, muted: false },
        ),
{
}

/// A malformed or out-of-range argument is rejected locally: the first step
/// already finishes the invocation with exit code 1 and an invalid-input
/// error, so no device query and no write is ever requested.
pub proof fn lemma_bad_argument_rejected_locally(arg: String)
    requires
        !(is_float(arg@) && in_range(arg@)),
    ensures
        step_spec(State::Ready, Event::Invoked { arg: Some(arg) }).0 == (State::Finished {
            code: 1,
        }),
        step_spec(State::Ready, Event::Invoked { arg: Some(arg) }).1 matches Action::Exit {
            code,
            error,
        } && code == 1 && (error matches Some(err) && (err matches VolumeError::InvalidInput(..))),
{
}

} // verus!
