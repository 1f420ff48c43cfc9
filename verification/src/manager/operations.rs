//! Control operations on single processes. An operation is decided here and
//! carried out by the host: each function checks the session's privilege
//! and, where it passes, names the one system call to make. `complete` then
//! turns the system's answer into the operation's outcome.

use vstd::prelude::*;
use vstd::string::StringExecFns;
use crate::manager::permissions::check_admin_privilege;
use crate::manager::Manager;
use crate::text::{decimal_text, push_decimal};

verus! {

/// The signals that the manager sends.
#[derive(Debug, Clone, Copy, PartialEq, Eq, Structural)]
pub enum SignalKind {
    /// Unconditional, immediate termination.
    Kill,
    /// Request to terminate; the target may ignore, delay or trap it.
    Terminate,
    /// Suspend scheduling.
    Stop,
    /// Resume scheduling after a stop.
    Continue,
}

/// A call into the operating system that the host is to make.
#[derive(Debug, Clone, Copy, PartialEq, Eq, Structural)]
pub enum OsCall {
    /// Deliver `signal` to process `pid`.
    SendSignal { pid: u32, signal: SignalKind },
    /// Set the nice value of process `pid` to `nice`.
    SetPriority { pid: u32, nice: i32 },
}

/// Why an operation did not take effect.
#[derive(Debug, Clone, Copy, PartialEq, Eq, Structural)]
pub enum OpError {
    /// The active session is not an `Admin` session. No call was issued.
    PermissionDenied,
    /// The system refused to deliver `signal` to `pid`, with error number
    /// `errno`.
    SignalFailed { pid: u32, signal: SignalKind, errno: i32 },
    /// The system refused to set the nice value of `pid` to `nice`, with
    /// error number `errno`.
    PriorityFailed { pid: u32, nice: i32, errno: i32 },
    /// The table does not hold the manager's root pid, so there is no tree.
    TreeUnavailable,
    /// The process tree holds no node for `pid`.
    NotFound { pid: u32 },
    /// Of a batch, `succeeded` calls were accepted and `failed` were not.
    PartialFailure { succeeded: usize, failed: usize },
    /// The batch still has `remaining` targets that were not attempted.
    Unfinished { remaining: usize },
}

/// What an operation decides: the call to make for an `Admin` session, and
/// a refusal that issues no call for any other.
pub open spec fn decided(manager: Manager, call: OsCall) -> Result<OsCall, OpError> {
    if manager.active_user.admin() {
        Ok(call)
    } else {
        Err(OpError::PermissionDenied)
    }
}

/// The outcome of `call` once the system has answered: success, or the
/// failure that names the target and the system's error number.
pub open spec fn outcome_of(call: OsCall, reply: Result<(), i32>) -> Result<(), OpError> {
    match reply {
        Ok(_) => Ok(()),
        Err(errno) => match call {
            OsCall::SendSignal { pid, signal } => Err(OpError::SignalFailed { pid, signal, errno }),
            OsCall::SetPriority { pid, nice } => Err(OpError::PriorityFailed { pid, nice, errno }),
        },
    }
}

/// Decides a signal to `pid` after the privilege check.
pub fn signal_process(manager: &Manager, pid: u32, signal: SignalKind) -> (step: Result<OsCall, OpError>)
    ensures
        step == decided(*manager, OsCall::SendSignal { pid, signal }),
{
    match check_admin_privilege(manager) {
        Ok(_) => Ok(OsCall::SendSignal { pid, signal }),
        Err(denied) => Err(denied),
    }
}

/// Force-terminates `pid`: the target gets no chance to clean up.
pub fn kill_process(manager: &Manager, pid: u32) -> (step: Result<OsCall, OpError>)
    ensures
        step == decided(*manager, OsCall::SendSignal { pid, signal: SignalKind::Kill }),
{
    signal_process(manager, pid, SignalKind::Kill)
}

/// Asks `pid` to terminate.
pub fn terminate_process(manager: &Manager, pid: u32) -> (step: Result<OsCall, OpError>)
    ensures
        step == decided(*manager, OsCall::SendSignal { pid, signal: SignalKind::Terminate }),
{
    signal_process(manager, pid, SignalKind::Terminate)
}

/// Suspends `pid`.
pub fn pause_process(manager: &Manager, pid: u32) -> (step: Result<OsCall, OpError>)
    ensures
        step == decided(*manager, OsCall::SendSignal { pid, signal: SignalKind::Stop }),
{
    signal_process(manager, pid, SignalKind::Stop)
}

/// Resumes `pid` after a pause.
pub fn resume_process(manager: &Manager, pid: u32) -> (step: Result<OsCall, OpError>)
    ensures
        step == decided(*manager, OsCall::SendSignal { pid, signal: SignalKind::Continue }),
{
    signal_process(manager, pid, SignalKind::Continue)
}

/// Changes the nice value of `pid`. The value is not checked here: the
/// system decides which range it accepts, and its refusal comes back
/// through `complete`.
pub fn set_priority(manager: &Manager, pid: u32, nice_value: i32) -> (step: Result<OsCall, OpError>)
    ensures
        step == decided(*manager, OsCall::SetPriority { pid, nice: nice_value }),
{
    match check_admin_privilege(manager) {
        Ok(_) => Ok(OsCall::SetPriority { pid, nice: nice_value }),
        Err(denied) => Err(denied),
    }
}

/// Turns the system's answer to `call` into the operation's outcome. The
/// answer is `Ok` where the system accepted the call and the error number
/// where it did not.
pub fn complete(call: OsCall, reply: Result<(), i32>) -> (outcome: Result<(), OpError>)
    ensures
        outcome == outcome_of(call, reply),
{
    match reply {
        Ok(_) => Ok(()),
        Err(errno) => match call {
            OsCall::SendSignal { pid, signal } => Err(OpError::SignalFailed { pid, signal, errno }),
            OsCall::SetPriority { pid, nice } => Err(OpError::PriorityFailed { pid, nice, errno }),
        },
    }
}

/// A session without `Admin` privilege gets `PermissionDenied` from every
/// control operation, and with it no call to make.
pub proof fn lemma_normal_session_issues_no_call(manager: Manager, call: OsCall)
    requires
        !manager.active_user.admin(),
    ensures
        decided(manager, call) == Err::<OsCall, OpError>(OpError::PermissionDenied),
        !(decided(manager, call) is Ok),
{
}

/// The text by which `nix` describes the error number `errno` of a Linux
/// system.
pub uninterp spec fn errno_text(errno: i32) -> Seq<char>;

/// Calls `nix::errno::Errno::from_raw` and formats the `Errno` it gives
/// with its `Display`, which writes the name of the error, a colon and the
/// description from the table that `nix` holds for the system it is built
/// for. Neither call fails; a number that the table does not hold gives
/// the text of `UnknownErrno`. Taken on trust: that the text depends on
/// the number alone, which is all that the contract says.
#[verifier::external_body]
fn describe_errno(errno: i32) -> (text: String)
    ensures
        text@ == errno_text(errno),
{
    nix::errno::Errno::from_raw(errno).to_string()
}

/// How the message of a refused signal begins.
pub open spec fn signal_failure_opening(signal: SignalKind) -> Seq<char> {
    match signal {
        SignalKind::Kill => "Failed to send SIGKILL to PID "@,
        SignalKind::Terminate => "Failed to send SIGTERM to PID "@,
        SignalKind::Stop => "Failed to pause PID "@,
        SignalKind::Continue => "Failed to resume PID "@,
    }
}

/// The message of `error`, where `reason` is the system's description of
/// the error number of a refused call.
pub open spec fn message_text(error: OpError, reason: Seq<char>) -> Seq<char> {
    match error {
        OpError::PermissionDenied => "Permission denied: Admin privileges required to perform this action."@,
        OpError::SignalFailed { pid, signal, errno } => signal_failure_opening(signal) + decimal_text(pid as nat)
            + ": "@ + reason,
        OpError::PriorityFailed { pid, nice, errno } => "Failed to set nice value for PID "@ + decimal_text(
            pid as nat,
        ) + ": "@ + reason,
        OpError::TreeUnavailable => "Failed to build process tree."@,
        OpError::NotFound { pid } => "PID "@ + decimal_text(pid as nat) + " not found in active processes."@,
        OpError::PartialFailure { succeeded, failed } => "Successfully killed "@ + decimal_text(succeeded as nat)
            + " processes, but failed to kill "@ + decimal_text(failed as nat) + " descendants."@,
        OpError::Unfinished { remaining } => decimal_text(remaining as nat)
            + " targets of the batch were not attempted."@,
    }
}

impl OpError {
    /// The error number that the system gave, for the errors that carry
    /// one.
    pub open spec fn errno(&self) -> Option<i32> {
        match *self {
            OpError::SignalFailed { pid, signal, errno } => Some(errno),
            OpError::PriorityFailed { pid, nice, errno } => Some(errno),
            _ => None,
        }
    }

    /// The message of this error, with `reason` as the description of the
    /// system's error number.
    pub fn message_with(&self, reason: &str) -> (text: String)
        ensures
            text@ == message_text(*self, reason@),
    {
        let mut text = String::new();
        match *self {
            OpError::PermissionDenied => {
                text.append("Permission denied: Admin privileges required to perform this action.");
            },
            OpError::SignalFailed { pid, signal, errno } => {
                match signal {
                    SignalKind::Kill => text.append("Failed to send SIGKILL to PID "),
                    SignalKind::Terminate => text.append("Failed to send SIGTERM to PID "),
                    SignalKind::Stop => text.append("Failed to pause PID "),
                    SignalKind::Continue => text.append("Failed to resume PID "),
                }
                push_decimal(&mut text, pid as u64);
                text.append(": ");
                text.append(reason);
            },
            OpError::PriorityFailed { pid, nice, errno } => {
                text.append("Failed to set nice value for PID ");
                push_decimal(&mut text, pid as u64);
                text.append(": ");
                text.append(reason);
            },
            OpError::TreeUnavailable => {
                text.append("Failed to build process tree.");
            },
            OpError::NotFound { pid } => {
                text.append("PID ");
                push_decimal(&mut text, pid as u64);
                text.append(" not found in active processes.");
            },
            OpError::PartialFailure { succeeded, failed } => {
                text.append("Successfully killed ");
                push_decimal(&mut text, succeeded as u64);
                text.append(" processes, but failed to kill ");
                push_decimal(&mut text, failed as u64);
                text.append(" descendants.");
            },
            OpError::Unfinished { remaining } => {
                push_decimal(&mut text, remaining as u64);
                text.append(" targets of the batch were not attempted.");
            },
        }
        assert(text@ =~= message_text(*self, reason@));
        text
    }

    /// The message of this error. A refused call is described by the name
    /// and the description that `nix` has for its error number.
    pub fn message(&self) -> (text: String)
        ensures
            text@ == message_text(
                *self,
                match self.errno() {
                    Some(errno) => errno_text(errno),
                    None => Seq::<char>::empty(),
                },
            ),
    {
        match *self {
            OpError::SignalFailed { pid, signal, errno } => {
                let reason = describe_errno(errno);
                self.message_with(reason.as_str())
            },
            OpError::PriorityFailed { pid, nice, errno } => {
                let reason = describe_errno(errno);
                self.message_with(reason.as_str())
            },
            _ => self.message_with(""),
        }
    }
}

} // verus!
