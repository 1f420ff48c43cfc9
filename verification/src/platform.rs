//! System constants that readings are interpreted against. They are queried
//! once by the host and then kept for the life of a manager.

use vstd::prelude::*;

verus! {

/// Ticks per second assumed where the system does not tell. A system that
/// ticks at another rate then gets skewed CPU percentages and uptimes.
pub const DEFAULT_TICK_HZ: u64 = 100;

/// Core count assumed where the system does not tell. On a machine with
/// more cores the CPU percentages then come out too high.
pub const DEFAULT_CORE_COUNT: u64 = 1;

/// The constants of one machine.
#[derive(Debug, Clone, Copy, PartialEq, Eq, Structural)]
pub struct Platform {
    /// Scheduling ticks per second.
    pub tick_hz: u64,
    /// Logical processors.
    pub core_count: u64,
    /// Bytes per memory page.
    pub page_size: u64,
}

impl Platform {
    /// Neither the tick rate nor the core count is 0.
    pub open spec fn wf(&self) -> bool {
        self.tick_hz > 0 && self.core_count > 0
    }

    /// The platform for the given query results; a tick rate or a core
    /// count of 0 stands for "could not be found out" and is replaced by
    /// the default.
    pub fn new(tick_hz: u64, core_count: u64, page_size: u64) -> (platform: Platform)
        ensures
            platform.wf(),
            platform.tick_hz == if tick_hz == 0 { DEFAULT_TICK_HZ } else { tick_hz },
            platform.core_count == if core_count == 0 { DEFAULT_CORE_COUNT } else { core_count },
            platform.page_size == page_size,
    {
        Platform {
            tick_hz: if tick_hz == 0 { DEFAULT_TICK_HZ } else { tick_hz },
            core_count: if core_count == 0 { DEFAULT_CORE_COUNT } else { core_count },
            page_size,
        }
    }
}

} // verus!
