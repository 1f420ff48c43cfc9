//! Per-process metrics as the kernel reports them.

use vstd::prelude::*;

verus! {

/// Lifecycle state of a process.
#[derive(Debug, Clone, Copy, PartialEq, Eq, Structural)]
pub enum ProcessState {
    Running,
    Sleeping,
    DiskWait,
    Zombie,
    Stopped,
    Other,
}

/// The lifecycle state that a one-character state code stands for.
pub open spec fn state_of_code(code: char) -> ProcessState {
    if code == 'R' {
        ProcessState::Running
    } else if code == 'S' {
        ProcessState::Sleeping
    } else if code == 'D' {
        ProcessState::DiskWait
    } else if code == 'Z' {
        ProcessState::Zombie
    } else if code == 'T' {
        ProcessState::Stopped
    } else {
        ProcessState::Other
    }
}

/// Key metrics of one process at the time of a snapshot.
#[derive(Debug, Clone, Copy, PartialEq, Eq, Structural)]
pub struct PcbData {
    /// Instantaneous CPU usage in hundredths of a percent (10000 is one
    /// fully used core on a one-core machine).
    pub cpu_percent: u64,
    /// Resident memory in mebibytes.
    pub memory_rss_mb: u64,
    /// One-character state code.
    pub state: char,
    /// Nice value.
    pub priority: i32,
    /// Seconds since the process started.
    pub uptime_seconds: u64,
}

impl PcbData {
    /// The lifecycle state behind the state code.
    pub fn lifecycle(&self) -> (state: ProcessState)
        ensures
            state == state_of_code(self.state),
    {
        let code = self.state;
        if code == 'R' {
            ProcessState::Running
        } else if code == 'S' {
            ProcessState::Sleeping
        } else if code == 'D' {
            ProcessState::DiskWait
        } else if code == 'Z' {
            ProcessState::Zombie
        } else if code == 'T' {
            ProcessState::Stopped
        } else {
            ProcessState::Other
        }
    }
}

} // verus!
