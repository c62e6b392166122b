//! The rules of the MAVLink vehicle-control exchange: a command goes out, the flight controller
//! answers asynchronously with a `COMMAND_ACK`, and the matching acknowledgement decides the
//! outcome. The channel to the MAVLink handler and the clock belong to the app; what is decided
//! on each message, and what each refusal tells the user, is here.

use vstd::prelude::*;
use vstd::string::*;

verus! {

/// The autopilot is conventionally component 1; ArduPilot and PX4 both answer commands
/// addressed to it.
pub const AUTOPILOT_COMPONENT: u8 = 1;

/// The result a `COMMAND_ACK` carries (`MAV_RESULT`).
#[derive(Debug, Clone, Copy, PartialEq, Eq, Structural)]
pub enum AckResult {
    Accepted,
    TemporarilyRejected,
    Denied,
    Unsupported,
    Failed,
    InProgress,
    Cancelled,
    CommandLongOnly,
    CommandIntOnly,
    CommandUnsupportedMavFrame,
}

/// The protocol name of a result, as the user sees it for the refusals without a message of
/// their own.
pub open spec fn spec_result_name(r: AckResult) -> Seq<char> {
    match r {
        AckResult::Accepted => "MAV_RESULT_ACCEPTED"@,
        AckResult::TemporarilyRejected => "MAV_RESULT_TEMPORARILY_REJECTED"@,
        AckResult::Denied => "MAV_RESULT_DENIED"@,
        AckResult::Unsupported => "MAV_RESULT_UNSUPPORTED"@,
        AckResult::Failed => "MAV_RESULT_FAILED"@,
        AckResult::InProgress => "MAV_RESULT_IN_PROGRESS"@,
        AckResult::Cancelled => "MAV_RESULT_CANCELLED"@,
        AckResult::CommandLongOnly => "MAV_RESULT_COMMAND_LONG_ONLY"@,
        AckResult::CommandIntOnly => "MAV_RESULT_COMMAND_INT_ONLY"@,
        AckResult::CommandUnsupportedMavFrame => "MAV_RESULT_COMMAND_UNSUPPORTED_MAV_FRAME"@,
    }
}

/// The protocol name of a result.
pub fn result_name(r: AckResult) -> (n: &'static str)
    ensures
        n@ == spec_result_name(r),
{
    match r {
        AckResult::Accepted => "MAV_RESULT_ACCEPTED",
        AckResult::TemporarilyRejected => "MAV_RESULT_TEMPORARILY_REJECTED",
        AckResult::Denied => "MAV_RESULT_DENIED",
        AckResult::Unsupported => "MAV_RESULT_UNSUPPORTED",
        AckResult::Failed => "MAV_RESULT_FAILED",
        AckResult::InProgress => "MAV_RESULT_IN_PROGRESS",
        AckResult::Cancelled => "MAV_RESULT_CANCELLED",
        AckResult::CommandLongOnly => "MAV_RESULT_COMMAND_LONG_ONLY",
        AckResult::CommandIntOnly => "MAV_RESULT_COMMAND_INT_ONLY",
        AckResult::CommandUnsupportedMavFrame => "MAV_RESULT_COMMAND_UNSUPPORTED_MAV_FRAME",
    }
}

/// The message a refusal shows the user.
pub open spec fn spec_refusal_message(r: AckResult) -> Seq<char> {
    match r {
        AckResult::TemporarilyRejected => "Command temporarily rejected — try again"@,
        AckResult::Denied => "Command denied by the flight controller"@,
        AckResult::Unsupported => "Command not supported by this firmware"@,
        AckResult::Failed => "Command failed on the flight controller"@,
        _ => "Command rejected: "@ + spec_result_name(r),
    }
}

/// The outcome a result means: `Accepted` is the only success; every refusal carries the
/// message it shows the user.
pub fn result_to_err(result: AckResult) -> (r: Result<(), String>)
    ensures
        result == AckResult::Accepted ==> r is Ok,
        result != AckResult::Accepted ==> (r matches Err(m) && m@ == spec_refusal_message(result)),
{
    match result {
        AckResult::Accepted => Ok(()),
        AckResult::TemporarilyRejected => Err(String::from_str("Command temporarily rejected — try again")),
        AckResult::Denied => Err(String::from_str("Command denied by the flight controller")),
        AckResult::Unsupported => Err(String::from_str("Command not supported by this firmware")),
        AckResult::Failed => Err(String::from_str("Command failed on the flight controller")),
        other => {
            let mut m = String::from_str("Command rejected: ");
            m.append(result_name(other));
            Err(m)
        },
    }
}

/// What arrives while a command waits for its acknowledgement.
#[derive(Debug, Clone, Copy, PartialEq, Eq, Structural)]
pub enum AckEvent {
    /// A `COMMAND_ACK` for `command` with its result.
    Ack { command: u32, result: AckResult },
    /// Any other message.
    Other,
    /// The deadline passed.
    TimedOut,
    /// The MAVLink handler is gone.
    Disconnected,
}

/// What the waiting side does with an event.
pub enum AckStep {
    /// Keep waiting.
    Wait,
    /// The wait is over, with the flight controller's final result or an error.
    Done(Result<AckResult, String>),
}

/// Message of a wait that saw no acknowledgement in time.
pub open spec fn timed_out_message() -> Seq<char> {
    "No COMMAND_ACK from FC (timed out)"@
}

/// Message of a wait whose handler went away.
pub open spec fn handler_stopped_message() -> Seq<char> {
    "MAVLink handler stopped"@
}

/// Decide on one event while waiting for the acknowledgement of `command`: only an ack for that
/// command ends the wait, and `InProgress` is an intermediate report (some commands report
/// progress), so waiting goes on; acks for other commands and stray messages are ignored.
pub fn ack_step(command: u32, event: AckEvent) -> (s: AckStep)
    ensures
        match event {
            AckEvent::Ack { command: c, result } => {
                if c == command && result != AckResult::InProgress {
                    s matches AckStep::Done(Ok(r)) && r == result
                } else {
                    s is Wait
                }
            },
            AckEvent::Other => s is Wait,
            AckEvent::TimedOut => s matches AckStep::Done(Err(m)) && m@ == timed_out_message(),
            AckEvent::Disconnected => s matches AckStep::Done(Err(m)) && m@ == handler_stopped_message(),
        },
{
    match event {
        AckEvent::Ack { command: c, result } => {
            if c == command {
                match result {
                    AckResult::InProgress => AckStep::Wait,
                    _ => AckStep::Done(Ok(result)),
                }
            } else {
                AckStep::Wait
            }
        },
        AckEvent::Other => AckStep::Wait,
        AckEvent::TimedOut => AckStep::Done(Err(String::from_str("No COMMAND_ACK from FC (timed out)"))),
        AckEvent::Disconnected => AckStep::Done(Err(String::from_str("MAVLink handler stopped"))),
    }
}

/// What `DO_REPOSITION` does after its first answer.
pub enum RepositionStep {
    /// Done, with this outcome.
    Finish(Result<(), String>),
    /// Send it again in the global frame at the AMSL altitude.
    RetryGlobal,
}

/// `DO_REPOSITION` with a frame fallback: the relative-altitude frame goes first (ArduPilot takes
/// it, and it is the only attempt ArduPilot ever sees). Only an `Unsupported` answer to it is
/// retried once in the global frame — and only when the AMSL offset is known, since otherwise
/// there is nothing honest to retry with. Every other answer is final.
pub fn reposition_next(first: AckResult, amsl_known: bool) -> (s: RepositionStep)
    ensures
        (first == AckResult::Unsupported && amsl_known) <==> s is RetryGlobal,
        first == AckResult::Accepted ==> s matches RepositionStep::Finish(Ok(())),
        first != AckResult::Accepted && !(first == AckResult::Unsupported && amsl_known) ==> (s matches RepositionStep::Finish(Err(m)) && m@ == spec_refusal_message(first)),
{
    match first {
        AckResult::Unsupported => {
            if amsl_known {
                RepositionStep::RetryGlobal
            } else {
                RepositionStep::Finish(result_to_err(first))
            }
        },
        _ => RepositionStep::Finish(result_to_err(first)),
    }
}

/// The 16-byte `param_id` of a `PARAM_SET`: the name's bytes, cut at 16 and padded with zeros.
pub open spec fn spec_param_id(name: Seq<u8>) -> Seq<u8> {
    Seq::new(
        16,
        |i: int|
            if i < name.len() {
                name[i]
            } else {
                0u8
            },
    )
}

/// The `param_id` field for a parameter name.
pub fn param_id(name: &str) -> (id: [u8; 16])
    ensures
        id@ == spec_param_id(name.spec_bytes()),
{
    let bytes = name.as_bytes();
    let mut id = [0u8; 16];
    let n = if bytes.len() < 16 {
        bytes.len()
    } else {
        16
    };
    let mut i: usize = 0;
    while i < n
        invariant
            n <= 16,
            n <= bytes@.len(),
            n == bytes@.len() || n == 16,
            i <= n,
            bytes@ == name.spec_bytes(),
            forall|j: int| 0 <= j < i ==> id@[j] == bytes@[j],
            forall|j: int| i <= j < 16 ==> id@[j] == 0u8,
        decreases n - i,
    {
        id[i] = bytes[i];
        i += 1;
    }
    assert(id@ =~= spec_param_id(name.spec_bytes()));
    id
}

} // verus!
