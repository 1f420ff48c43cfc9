//! The record kept for each process and the raw reading it is made from.

use vstd::prelude::*;
use vstd::string::StringExecFns;
use crate::platform::Platform;
use crate::process::pcb::PcbData;
use crate::text::{decimal_text, push_decimal};

pub mod pcb;
pub mod table;
pub mod tree;

verus! {

/// What one detailed read of a process yields, before any derivation.
#[derive(Debug)]
pub struct RawRecord {
    /// Parent pid as reported; not positive where there is no parent.
    pub ppid: i32,
    /// Real user id of the owner.
    pub ruid: u32,
    /// Command name.
    pub name: String,
    /// One-character state code.
    pub state: char,
    /// Resident set size in pages.
    pub rss_pages: u64,
    /// Nice value.
    pub nice: i32,
    /// Ticks spent in user mode.
    pub utime: u64,
    /// Ticks spent in kernel mode.
    pub stime: u64,
    /// Start time in ticks since boot.
    pub starttime: u64,
}

/// A single process of the system.
#[derive(Debug)]
pub struct Process {
    pub process_id: u32,
    pub user_id: u32,
    pub name: String,
    pub parent_id: Option<u32>,
    pub pcb_data: PcbData,
}

/// Bytes in a mebibyte.
pub const BYTES_PER_MB: u64 = 1_048_576;

/// Resident memory in mebibytes, rounded down and capped at `u64::MAX`.
pub open spec fn rss_mb(rss_pages: u64, page_size: u64) -> u64 {
    let mb = (rss_pages as nat * page_size as nat) / (BYTES_PER_MB as nat);
    if mb > u64::MAX { u64::MAX } else { mb as u64 }
}

/// Total CPU time of a reading in ticks, capped at `u64::MAX`.
pub open spec fn cpu_time(utime: u64, stime: u64) -> u64 {
    if utime + stime > u64::MAX { u64::MAX } else { (utime + stime) as u64 }
}

/// Whole seconds that a process started at tick `starttime` has been alive
/// on a system that has been up for `uptime_centis` hundredths of a second;
/// 0 where the start lies at or after the present.
pub open spec fn uptime_secs(starttime: u64, uptime_centis: u64, tick_hz: u64) -> u64 {
    let now_ticks = (uptime_centis as nat * tick_hz as nat) / 100;
    if tick_hz == 0 || now_ticks <= starttime {
        0
    } else {
        ((now_ticks - starttime) / (tick_hz as int)) as u64
    }
}

/// The parent that a reported parent pid names, if any.
pub open spec fn parent_of(ppid: i32) -> Option<u32> {
    if ppid > 0 { Some(ppid as u32) } else { None }
}

/// The record that a reading of process `pid` gives, with no CPU usage yet.
pub open spec fn record_of(pid: u32, raw: RawRecord, platform: Platform, uptime_centis: u64) -> Process {
    Process {
        process_id: pid,
        user_id: raw.ruid,
        name: raw.name,
        parent_id: parent_of(raw.ppid),
        pcb_data: PcbData {
            cpu_percent: 0,
            memory_rss_mb: rss_mb(raw.rss_pages, platform.page_size),
            state: raw.state,
            priority: raw.nice,
            uptime_seconds: uptime_secs(raw.starttime, uptime_centis, platform.tick_hz),
        },
    }
}

/// An uptime of `seconds` for a reader: hours, minutes and seconds, without
/// the hours where there are none, and without the minutes too where there
/// are neither.
pub open spec fn uptime_text(seconds: u64) -> Seq<char> {
    let hours = (seconds / 3600) as nat;
    let minutes = ((seconds % 3600) / 60) as nat;
    let secs = (seconds % 60) as nat;
    if hours > 0 {
        decimal_text(hours) + "h "@ + decimal_text(minutes) + "m "@ + decimal_text(secs) + "s"@
    } else if minutes > 0 {
        decimal_text(minutes) + "m "@ + decimal_text(secs) + "s"@
    } else {
        decimal_text(secs) + "s"@
    }
}

impl Process {
    /// The uptime as a text such as `1h 23m 45s`, `5m 30s` or `12s`.
    pub fn format_uptime(&self) -> (text: String)
        ensures
            text@ == uptime_text(self.pcb_data.uptime_seconds),
    {
        let seconds = self.pcb_data.uptime_seconds;
        let hours = seconds / 3600;
        let minutes = (seconds % 3600) / 60;
        let secs = seconds % 60;
        let mut text = String::new();
        if hours > 0 {
            push_decimal(&mut text, hours);
            text.append("h ");
        }
        if hours > 0 || minutes > 0 {
            push_decimal(&mut text, minutes);
            text.append("m ");
        }
        push_decimal(&mut text, secs);
        text.append("s");
        assert(text@ =~= uptime_text(seconds));
        text
    }

    /// What stays of a record as time passes: all but the CPU usage and the
    /// uptime, which stand at 0 here.
    pub open spec fn steady(self) -> Process {
        Process {
            pcb_data: PcbData { cpu_percent: 0, uptime_seconds: 0, ..self.pcb_data },
            ..self
        }
    }

    /// The same process with another CPU usage.
    pub open spec fn with_cpu(self, cpu_percent: u64) -> Process {
        Process {
            pcb_data: PcbData { cpu_percent, ..self.pcb_data },
            ..self
        }
    }

    /// Builds the record of process `pid` from one reading. The CPU usage
    /// starts at 0: it takes two readings to estimate it.
    pub fn from_raw(pid: u32, raw: &RawRecord, platform: &Platform, uptime_centis: u64) -> (process: Process)
        ensures
            process == record_of(pid, *raw, *platform, uptime_centis),
    {
        let parent_id = if raw.ppid > 0 { Some(raw.ppid as u32) } else { None };
        Process {
            process_id: pid,
            user_id: raw.ruid,
            name: raw.name.clone(),
            parent_id,
            pcb_data: PcbData {
                cpu_percent: 0,
                memory_rss_mb: Self::resident_mb(raw.rss_pages, platform.page_size),
                state: raw.state,
                priority: raw.nice,
                uptime_seconds: Self::calculate_uptime(raw.starttime, uptime_centis, platform.tick_hz),
            },
        }
    }

    /// Resident memory in mebibytes for a page count and a page size.
    pub fn resident_mb(rss_pages: u64, page_size: u64) -> (mb: u64)
        ensures
            mb == rss_mb(rss_pages, page_size),
    {
        assert(rss_pages as nat * page_size as nat <= u64::MAX as nat * u64::MAX as nat) by (nonlinear_arith)
            requires
                rss_pages <= u64::MAX,
                page_size <= u64::MAX,
        ;
        let bytes: u128 = rss_pages as u128 * page_size as u128;
        let mb: u128 = bytes / (BYTES_PER_MB as u128);
        if mb > u64::MAX as u128 { u64::MAX } else { mb as u64 }
    }

    /// Replaces the CPU usage, in hundredths of a percent.
    pub fn set_cpu_percent(&mut self, cpu_percent: u64)
        ensures
            *final(self) == old(self).with_cpu(cpu_percent),
    {
        self.pcb_data.cpu_percent = cpu_percent;
    }

    /// Total CPU time of a reading: user plus kernel ticks.
    pub fn get_cpu_time_jiffies(raw: &RawRecord) -> (ticks: u64)
        ensures
            ticks == cpu_time(raw.utime, raw.stime),
    {
        raw.utime.saturating_add(raw.stime)
    }

    /// Seconds since the process started, from its start tick and the
    /// system's time since boot.
    pub fn calculate_uptime(starttime: u64, uptime_centis: u64, tick_hz: u64) -> (seconds: u64)
        ensures
            seconds == uptime_secs(starttime, uptime_centis, tick_hz),
    {
        if tick_hz == 0 {
            return 0;
        }
        assert(uptime_centis as nat * tick_hz as nat <= u64::MAX as nat * u64::MAX as nat) by (nonlinear_arith)
            requires
                uptime_centis <= u64::MAX,
                tick_hz <= u64::MAX,
        ;
        let now_ticks: u128 = (uptime_centis as u128 * tick_hz as u128) / 100;
        if now_ticks <= starttime as u128 {
            0
        } else {
            let alive: u128 = (now_ticks - starttime as u128) / (tick_hz as u128);
            assert(alive <= u64::MAX) by (nonlinear_arith)
                requires
                    alive as int == (now_ticks as int - starttime as int) / (tick_hz as int),
                    now_ticks as int == (uptime_centis as int * tick_hz as int) / 100,
                    tick_hz > 0,
                    uptime_centis <= u64::MAX,
                    starttime >= 0,
                    now_ticks > starttime,
            ;
            alive as u64
        }
    }
}

impl Clone for Process {
    fn clone(&self) -> (copy: Process)
        ensures
            copy == *self,
    {
        Process {
            process_id: self.process_id,
            user_id: self.user_id,
            name: self.name.clone(),
            parent_id: self.parent_id,
            pcb_data: self.pcb_data,
        }
    }
}

} // verus!
