//! The manager: the owner of the process table, of the CPU-time samples and
//! of the active session.

use vstd::prelude::*;
use std::collections::HashMap;
use crate::manager::batch::is_tree_of;
use crate::manager::monitoring::{
    history_after, refresh_processes, table_after, CpuSample, RefreshError, Sighting,
};
use crate::platform::Platform;
use crate::process::table::ProcessTable;
use crate::process::tree::ProcessNode;
use crate::process::Process;
use crate::user::User;

pub mod batch;
pub mod lineage;
pub mod monitoring;
pub mod operations;
pub mod permissions;

verus! {

/// The state of one managing session. It is handed to every operation by
/// reference; nothing is kept anywhere else.
pub struct Manager {
    /// The table of the latest refresh cycle.
    pub processes: ProcessTable,
    /// The session on whose behalf control operations are issued.
    pub active_user: User,
    /// The pid at which the process tree is rooted.
    pub root_pid: u32,
    /// The constants of the machine, as found out once.
    pub platform: Platform,
    /// The CPU-time sample of each process in the table.
    pub previous_cpu_times: HashMap<u32, CpuSample>,
}

/// The pid at which a new manager roots its process tree.
pub const DEFAULT_ROOT_PID: u32 = 1;

impl Manager {
    /// A manager for `active_user`, loaded with a first snapshot. Where the
    /// enumeration behind the snapshot failed there is no manager, but that
    /// error.
    pub fn new(
        active_user: User,
        platform: Platform,
        snapshot: Result<Vec<Sighting>, String>,
        now_nanos: u64,
        uptime_centis: u64,
    ) -> (made: Result<Manager, RefreshError>)
        ensures
            match snapshot {
                Err(reason) => made == Err::<Manager, RefreshError>(
                    RefreshError::EnumerationFailed { reason },
                ),
                Ok(sightings) => {
                    &&& made is Ok
                    &&& made->Ok_0.active_user == active_user
                    &&& made->Ok_0.root_pid == DEFAULT_ROOT_PID
                    &&& made->Ok_0.platform == platform
                    &&& made->Ok_0.processes@ == table_after(
                        sightings@,
                        Map::<u32, CpuSample>::empty(),
                        now_nanos,
                        uptime_centis,
                        platform,
                    )
                    &&& made->Ok_0.previous_cpu_times@ == history_after(sightings@, now_nanos)
                },
            },
    {
        let mut manager = Manager {
            processes: ProcessTable::new(),
            active_user,
            root_pid: DEFAULT_ROOT_PID,
            platform,
            previous_cpu_times: HashMap::new(),
        };
        match refresh_processes(
            &mut manager.processes,
            &mut manager.previous_cpu_times,
            snapshot,
            now_nanos,
            uptime_centis,
            &platform,
        ) {
            Ok(_) => Ok(manager),
            Err(error) => Err(error),
        }
    }

    /// Replaces the table by the one that `snapshot` gives. Where the
    /// enumeration failed the error is returned and nothing changes.
    pub fn refresh(&mut self, snapshot: Result<Vec<Sighting>, String>, now_nanos: u64, uptime_centis: u64) -> (done:
        Result<(), RefreshError>)
        ensures
            final(self).active_user == old(self).active_user,
            final(self).root_pid == old(self).root_pid,
            final(self).platform == old(self).platform,
            match snapshot {
                Err(reason) => {
                    &&& done == Err::<(), RefreshError>(RefreshError::EnumerationFailed { reason })
                    &&& final(self).processes == old(self).processes
                    &&& final(self).previous_cpu_times == old(self).previous_cpu_times
                },
                Ok(sightings) => {
                    &&& done == Ok::<(), RefreshError>(())
                    &&& final(self).processes@ == table_after(
                        sightings@,
                        old(self).previous_cpu_times@,
                        now_nanos,
                        uptime_centis,
                        old(self).platform,
                    )
                    &&& final(self).previous_cpu_times@ == history_after(sightings@, now_nanos)
                },
            },
    {
        let platform = self.platform;
        match refresh_processes(
            &mut self.processes,
            &mut self.previous_cpu_times,
            snapshot,
            now_nanos,
            uptime_centis,
            &platform,
        ) {
            Ok(_) => Ok(()),
            Err(error) => Err(error),
        }
    }

    /// The process tree below the root pid, if the table holds the root.
    pub fn build_process_tree(&self) -> (tree: Option<ProcessNode>)
        ensures
            is_tree_of(tree, self.processes@, self.root_pid),
    {
        crate::manager::batch::build_process_tree(self)
    }

    /// The current process records, in table order.
    pub fn processes(&self) -> (all: Vec<&Process>)
        ensures
            all@.len() == self.processes@.len(),
            forall|i: int| 0 <= i < all@.len() ==> *all@[i] == self.processes@[i],
    {
        self.processes.processes()
    }
}

} // verus!
