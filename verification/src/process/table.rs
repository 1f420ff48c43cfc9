//! The process table: at most one record per pid, kept in the order in
//! which the pids were first entered. The order makes everything that is
//! derived from a table, such as the order of the children in the process
//! tree, a function of the table.

use vstd::prelude::*;
use crate::process::Process;

verus! {

/// No pid occurs twice in `t`.
pub open spec fn distinct_pids(t: Seq<Process>) -> bool {
    forall|i: int, j: int| 0 <= i < j < t.len() ==> t[i].process_id != t[j].process_id
}

/// Some record of `t` carries `pid`.
pub open spec fn has_pid(t: Seq<Process>, pid: u32) -> bool {
    exists|i: int| 0 <= i < t.len() && #[trigger] t[i].process_id == pid
}

/// A place in `t` at which `pid` stands; meaningful where `has_pid` holds.
pub open spec fn index_of(t: Seq<Process>, pid: u32) -> int {
    choose|i: int| 0 <= i < t.len() && #[trigger] t[i].process_id == pid
}

/// `t` with `process` in the place of the record of the same pid, or at the
/// end where there is none.
pub open spec fn upsert(t: Seq<Process>, process: Process) -> Seq<Process> {
    if has_pid(t, process.process_id) {
        t.update(index_of(t, process.process_id), process)
    } else {
        t.push(process)
    }
}

/// Entering a record keeps the pids distinct, and afterwards the table holds
/// the pid entered and every pid it held before, and no other.
pub proof fn lemma_upsert(t: Seq<Process>, process: Process)
    requires
        distinct_pids(t),
    ensures
        distinct_pids(upsert(t, process)),
        forall|pid: u32| has_pid(upsert(t, process), pid) <==> (pid == process.process_id || has_pid(t, pid)),
        has_pid(upsert(t, process), process.process_id),
        upsert(t, process)[index_of(upsert(t, process), process.process_id)] == process,
{
    let u = upsert(t, process);
    if has_pid(t, process.process_id) {
        let k = index_of(t, process.process_id);
        assert(u[k].process_id == process.process_id);
        assert forall|pid: u32| has_pid(u, pid) implies (pid == process.process_id || has_pid(t, pid)) by {
            let i = index_of(u, pid);
            if i != k {
                assert(t[i].process_id == pid);
            }
        }
        assert forall|pid: u32| (pid == process.process_id || has_pid(t, pid)) implies has_pid(u, pid) by {
            if pid != process.process_id {
                let i = index_of(t, pid);
                assert(u[i].process_id == pid);
            }
        }
    } else {
        let k = t.len() as int;
        assert(u[k].process_id == process.process_id);
        assert forall|pid: u32| has_pid(u, pid) implies (pid == process.process_id || has_pid(t, pid)) by {
            let i = index_of(u, pid);
            if i != k {
                assert(t[i].process_id == pid);
            }
        }
        assert forall|pid: u32| (pid == process.process_id || has_pid(t, pid)) implies has_pid(u, pid) by {
            if pid != process.process_id {
                let i = index_of(t, pid);
                assert(u[i].process_id == pid);
            }
        }
        assert forall|i: int, j: int| 0 <= i < j < u.len() implies u[i].process_id != u[j].process_id by {
            if j == k {
                assert(t[i].process_id == u[i].process_id);
            }
        }
    }
    let m = index_of(u, process.process_id);
    assert(u[m].process_id == process.process_id);
}

/// The place of `pid` among `entries`, if it is there.
fn place_of(entries: &Vec<Process>, pid: u32) -> (place: Option<usize>)
    ensures
        match place {
            Some(i) => i < entries@.len() && entries@[i as int].process_id == pid,
            None => !has_pid(entries@, pid),
        },
{
    let mut i: usize = 0;
    while i < entries.len()
        invariant
            i <= entries.len(),
            forall|k: int| 0 <= k < i ==> entries@[k].process_id != pid,
        decreases entries.len() - i,
    {
        if entries[i].process_id == pid {
            return Some(i);
        }
        i += 1;
    }
    None
}

/// The mapping from pid to process record. No pid occurs twice in it.
pub struct ProcessTable {
    entries: Vec<Process>,
}

impl ProcessTable {
    /// The records in table order.
    pub closed spec fn view(&self) -> Seq<Process> {
        self.entries@
    }

    /// Pids are unique within a table, and a table is no longer than a
    /// vector can be. This holds of every table at all times.
    #[verifier::type_invariant]
    pub open spec fn wf(&self) -> bool {
        distinct_pids(self@) && self@.len() <= usize::MAX
    }

    /// The empty table.
    pub fn new() -> (table: ProcessTable)
        ensures
            table@ == Seq::<Process>::empty(),
    {
        ProcessTable { entries: Vec::new() }
    }

    /// Number of records.
    pub fn len(&self) -> (n: usize)
        ensures
            n == self@.len(),
    {
        self.entries.len()
    }

    /// The record at place `i` in table order.
    pub fn entry(&self, i: usize) -> (process: &Process)
        requires
            i < self@.len(),
        ensures
            *process == self@[i as int],
    {
        &self.entries[i]
    }

    /// The place of `pid` in table order, if the table holds it.
    pub fn position(&self, pid: u32) -> (place: Option<usize>)
        ensures
            match place {
                Some(i) => has_pid(self@, pid) && i == index_of(self@, pid),
                None => !has_pid(self@, pid),
            },
    {
        proof {
            use_type_invariant(self);
        }
        let place = place_of(&self.entries, pid);
        proof {
            if let Some(i) = place {
                assert(self@[i as int].process_id == pid);
                assert(self@[index_of(self@, pid)].process_id == pid);
            }
        }
        place
    }

    /// Whether the table holds `pid`.
    pub fn contains(&self, pid: u32) -> (held: bool)
        ensures
            held == has_pid(self@, pid),
    {
        self.position(pid).is_some()
    }

    /// The record of `pid`, if the table holds it.
    pub fn get(&self, pid: u32) -> (found: Option<&Process>)
        ensures
            match found {
                Some(process) => has_pid(self@, pid) && *process == self@[index_of(self@, pid)],
                None => !has_pid(self@, pid),
            },
    {
        match self.position(pid) {
            Some(i) => Some(&self.entries[i]),
            None => None,
        }
    }

    /// Enters `process`, replacing the record of the same pid if there is
    /// one.
    pub fn insert(&mut self, process: Process)
        ensures
            final(self)@ == upsert(old(self)@, process),
    {
        proof {
            use_type_invariant(&*self);
            lemma_upsert(self@, process);
        }
        let place = self.position(process.process_id);
        let mut entries: Vec<Process> = Vec::new();
        std::mem::swap(&mut entries, &mut self.entries);
        match place {
            Some(i) => {
                entries.set(i, process);
            },
            None => {
                entries.push(process);
            },
        }
        proof {
            assert(entries.len() == entries@.len());
        }
        self.entries = entries;
    }

    /// The records in table order.
    pub fn processes(&self) -> (all: Vec<&Process>)
        ensures
            all@.len() == self@.len(),
            forall|i: int| 0 <= i < all@.len() ==> *all@[i] == self@[i],
    {
        let mut all: Vec<&Process> = Vec::new();
        let mut i: usize = 0;
        while i < self.entries.len()
            invariant
                i <= self.entries.len(),
                all@.len() == i,
                forall|k: int| 0 <= k < i ==> *all@[k] == self.entries@[k],
            decreases self.entries.len() - i,
        {
            all.push(&self.entries[i]);
            i += 1;
        }
        all
    }
}

} // verus!
