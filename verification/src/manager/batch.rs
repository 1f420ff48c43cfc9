//! The parent/child hierarchy over the process table, and the operations
//! that act on many processes at once.

use vstd::prelude::*;
use std::collections::HashMap;
use crate::manager::lineage::{
    descends_from, in_tree, lemma_ancestor_is_no_descendant, lemma_below_are_the_descendants,
    lemma_depth_is_never_reached, lemma_found_is_hierarchy, lemma_listed_once, lemma_parents_come_first,
    lemma_table_decides_targets, lemma_tree_holds_the_descendants_of_the_root,
};
use crate::manager::operations::{complete, outcome_of, OpError, OsCall, SignalKind};
use crate::manager::Manager;
use crate::process::Process;
use crate::process::table::{has_pid, index_of, ProcessTable};
use crate::process::tree::{descendant_pids, find_in, ProcessNode};

verus! {

broadcast use vstd::std_specs::hash::group_hash_axioms;

/// Whether `process` hangs directly below `parent`: it names `parent` as its
/// parent and is not the designated root, which hangs below nothing.
pub open spec fn is_child(process: Process, parent: u32, root: u32) -> bool {
    process.parent_id == Some(parent) && process.process_id != root
}

/// Whether `process` has nothing in `t` to hang below although it is not the
/// designated root: it names no parent, or one that `t` does not hold.
pub open spec fn is_detached(t: Seq<Process>, process: Process, root: u32) -> bool {
    process.process_id != root && match process.parent_id {
        None => true,
        Some(parent) => !has_pid(t, parent),
    }
}

/// The places among the first `upto` of `t` whose records are children of
/// `parent`, in table order.
pub open spec fn kids(t: Seq<Process>, parent: u32, root: u32, upto: int) -> Seq<usize>
    decreases upto,
{
    if upto <= 0 {
        Seq::empty()
    } else if is_child(t[upto - 1], parent, root) {
        kids(t, parent, root, upto - 1).push((upto - 1) as usize)
    } else {
        kids(t, parent, root, upto - 1)
    }
}

/// The places among the first `upto` of `t` whose records are detached, in
/// table order.
pub open spec fn detached_places(t: Seq<Process>, root: u32, upto: int) -> Seq<usize>
    decreases upto,
{
    if upto <= 0 {
        Seq::empty()
    } else if is_detached(t, t[upto - 1], root) {
        detached_places(t, root, upto - 1).push((upto - 1) as usize)
    } else {
        detached_places(t, root, upto - 1)
    }
}

/// Whether `node` is the hierarchy below the record at `place` of `t`: it
/// holds that record, and its children are, in table order, the
/// hierarchies below the records that name it as their parent.
pub open spec fn is_hierarchy(node: ProcessNode, t: Seq<Process>, root: u32, place: int) -> bool
    decreases node,
{
    &&& 0 <= place < t.len()
    &&& node.process == t[place]
    &&& node.children@.len() == kids(t, t[place].process_id, root, t.len() as int).len()
    &&& forall|j: int|
        0 <= j < node.children@.len() ==> is_hierarchy(
            #[trigger] node.children@[j],
            t,
            root,
            kids(t, t[place].process_id, root, t.len() as int)[j] as int,
        )
}

/// Whether `node` is the hierarchy below the record at `place` of `t`, cut
/// off `depth` levels down: as `is_hierarchy`, but a node at the cut-off has
/// no children.
pub open spec fn is_subtree(node: ProcessNode, t: Seq<Process>, root: u32, place: int, depth: nat) -> bool
    decreases depth,
{
    &&& 0 <= place < t.len()
    &&& node.process == t[place]
    &&& if depth == 0 {
        node.children@.len() == 0
    } else {
        let below = kids(t, t[place].process_id, root, t.len() as int);
        &&& node.children@.len() == below.len()
        &&& forall|j: int|
            0 <= j < below.len() ==> is_subtree(
                #[trigger] node.children@[j],
                t,
                root,
                below[j] as int,
                (depth - 1) as nat,
            )
    }
}

/// Every place that `kids` lists lies below `upto` and holds a child of
/// `parent`; the places ascend.
pub proof fn lemma_kids(t: Seq<Process>, parent: u32, root: u32, upto: int)
    requires
        0 <= upto <= t.len(),
        t.len() <= usize::MAX,
    ensures
        kids(t, parent, root, upto).len() <= upto,
        forall|j: int|
            0 <= j < kids(t, parent, root, upto).len() ==> {
                &&& (#[trigger] kids(t, parent, root, upto)[j]) < upto
                &&& is_child(t[kids(t, parent, root, upto)[j] as int], parent, root)
            },
        forall|j: int, k: int|
            0 <= j < k < kids(t, parent, root, upto).len() ==> kids(t, parent, root, upto)[j] < kids(
                t,
                parent,
                root,
                upto,
            )[k],
        forall|i: int|
            0 <= i < upto && is_child(t[i], parent, root) ==> kids(t, parent, root, upto).contains(i as usize),
    decreases upto,
{
    if upto > 0 {
        lemma_kids(t, parent, root, upto - 1);
        let before = kids(t, parent, root, upto - 1);
        let now = kids(t, parent, root, upto);
        assert forall|i: int| 0 <= i < upto && is_child(t[i], parent, root) implies now.contains(i as usize) by {
            if i < upto - 1 {
                assert(before.contains(i as usize));
                let j = choose|j: int| 0 <= j < before.len() && before[j] == i as usize;
                assert(now[j] == i as usize);
            } else {
                assert(now[now.len() - 1] == i as usize);
            }
        }
    }
}

/// Every place that `detached_places` lists lies below `upto` and holds a
/// detached record, and every detached record among the first `upto` is
/// listed.
pub proof fn lemma_detached_places(t: Seq<Process>, root: u32, upto: int)
    requires
        0 <= upto <= t.len(),
        t.len() <= usize::MAX,
    ensures
        detached_places(t, root, upto).len() <= upto,
        forall|j: int|
            0 <= j < detached_places(t, root, upto).len() ==> {
                &&& (#[trigger] detached_places(t, root, upto)[j]) < upto
                &&& is_detached(t, t[detached_places(t, root, upto)[j] as int], root)
            },
        forall|i: int|
            0 <= i < upto && is_detached(t, t[i], root) ==> detached_places(t, root, upto).contains(i as usize),
    decreases upto,
{
    if upto > 0 {
        lemma_detached_places(t, root, upto - 1);
        let before = detached_places(t, root, upto - 1);
        let now = detached_places(t, root, upto);
        assert forall|i: int| 0 <= i < upto && is_detached(t, t[i], root) implies now.contains(i as usize) by {
            if i < upto - 1 {
                assert(before.contains(i as usize));
                let j = choose|j: int| 0 <= j < before.len() && before[j] == i as usize;
                assert(now[j] == i as usize);
            } else {
                assert(now[now.len() - 1] == i as usize);
            }
        }
    }
}

/// The places that `index` lists under `pid`.
pub open spec fn listed(index: Map<u32, Vec<usize>>, pid: u32) -> Seq<usize> {
    if index.contains_key(pid) { index[pid]@ } else { Seq::empty() }
}

/// Whether `index` lists, for every pid, the places of its children among
/// the first `upto` records of `t`.
pub open spec fn indexes(index: Map<u32, Vec<usize>>, t: Seq<Process>, root: u32, upto: int) -> bool {
    forall|pid: u32| #[trigger] listed(index, pid) == kids(t, pid, root, upto)
}

/// One pass over the table that notes under each parent pid the places of
/// its direct children.
fn index_children(table: &ProcessTable, root: u32) -> (index: HashMap<u32, Vec<usize>>)
    ensures
        indexes(index@, table@, root, table@.len() as int),
{
    let mut index: HashMap<u32, Vec<usize>> = HashMap::new();
    let n = table.len();
    let mut i: usize = 0;
    proof {
        assert forall|pid: u32| #[trigger] listed(index@, pid) == kids(table@, pid, root, 0) by {}
    }
    while i < n
        invariant
            i <= n,
            n == table@.len(),
            indexes(index@, table@, root, i as int),
        decreases n - i,
    {
        let process = table.entry(i);
        let ghost before = index@;
        if process.process_id != root {
            if let Some(parent) = process.parent_id {
                let mut places = match index.remove(&parent) {
                    Some(places) => places,
                    None => Vec::new(),
                };
                assert(places@ == listed(before, parent));
                places.push(i);
                index.insert(parent, places);
            }
        }
        proof {
            assert forall|pid: u32| #[trigger] listed(index@, pid) == kids(table@, pid, root, i + 1) by {
                assert(listed(before, pid) == kids(table@, pid, root, i as int));
                if is_child(table@[i as int], pid, root) {
                    assert(process.parent_id == Some(pid));
                }
            }
        }
        i += 1;
    }
    index
}

/// Builds the hierarchy below the record at `place`, at most `depth` levels
/// deep.
fn build_node(
    table: &ProcessTable,
    index: &HashMap<u32, Vec<usize>>,
    root: u32,
    place: usize,
    depth: usize,
) -> (node: ProcessNode)
    requires
        place < table@.len(),
        indexes(index@, table@, root, table@.len() as int),
    ensures
        is_subtree(node, table@, root, place as int, depth as nat),
    decreases depth,
{
    let process = table.entry(place);
    let mut node = ProcessNode::new(process.clone());
    if depth == 0 {
        return node;
    }
    let ghost below = kids(table@, process.process_id, root, table@.len() as int);
    proof {
        use_type_invariant(table);
        lemma_kids(table@, process.process_id, root, table@.len() as int);
        assert(listed(index@, process.process_id) == below);
    }
    match index.get(&process.process_id) {
        Some(places) => {
            let mut j: usize = 0;
            while j < places.len()
                invariant
                    j <= places.len(),
                    depth > 0,
                    place < table@.len(),
                    places@ == below,
                    node.process == table@[place as int],
                    node.children@.len() == j,
                    indexes(index@, table@, root, table@.len() as int),
                    forall|k: int| 0 <= k < below.len() ==> (#[trigger] below[k]) < table@.len(),
                    forall|k: int|
                        0 <= k < j ==> is_subtree(
                            #[trigger] node.children@[k],
                            table@,
                            root,
                            below[k] as int,
                            (depth - 1) as nat,
                        ),
                decreases places.len() - j,
            {
                let child = build_node(table, index, root, places[j], depth - 1);
                node.children.push(child);
                j += 1;
            }
        },
        None => {},
    }
    node
}

/// Whether `tree` is the process tree of table `t` below `root`: nothing
/// where `t` does not hold `root`, else the hierarchy below the root's
/// record.
pub open spec fn is_tree_of(tree: Option<ProcessNode>, t: Seq<Process>, root: u32) -> bool {
    match tree {
        None => !has_pid(t, root),
        Some(node) => has_pid(t, root) && is_hierarchy(node, t, root, index_of(t, root)),
    }
}

/// The tree below the root together with the hierarchies of the processes
/// that have nothing to hang below.
pub struct ProcessForest {
    /// The tree below the designated root, if the table holds the root.
    pub tree: Option<ProcessNode>,
    /// One root-level node for each detached process, in table order.
    pub detached: Vec<ProcessNode>,
}

/// Whether `forest` is the forest of table `t` for the designated `root`.
pub open spec fn is_forest_of(forest: ProcessForest, t: Seq<Process>, root: u32) -> bool {
    let places = detached_places(t, root, t.len() as int);
    &&& is_tree_of(forest.tree, t, root)
    &&& forest.detached@.len() == places.len()
    &&& forall|j: int|
        0 <= j < places.len() ==> is_hierarchy(#[trigger] forest.detached@[j], t, root, places[j] as int)
}

/// Builds the process tree below the manager's root pid: `None` where the
/// table does not hold the root, which is the normal state before the first
/// refresh; otherwise the root's node with all that hangs below it. The
/// builder goes no deeper than the table is long, which no line of descent
/// is, whatever the parent links of the table are.
pub fn build_process_tree(manager: &Manager) -> (tree: Option<ProcessNode>)
    ensures
        is_tree_of(tree, manager.processes@, manager.root_pid),
{
    let place = match manager.processes.position(manager.root_pid) {
        Some(place) => place,
        None => {
            return None;
        },
    };
    let index = index_children(&manager.processes, manager.root_pid);
    let n = manager.processes.len();
    let node = build_node(&manager.processes, &index, manager.root_pid, place, n);
    proof {
        use_type_invariant(&manager.processes);
        lemma_depth_is_never_reached(node, manager.processes@, manager.root_pid, place as int, n as nat, 0);
    }
    Some(node)
}

/// Builds the whole hierarchical view: the tree below the root, and a
/// root-level node for every process that names no parent or a parent that
/// the table no longer holds, so that such a process stays in view.
pub fn build_process_forest(manager: &Manager) -> (forest: ProcessForest)
    ensures
        is_forest_of(forest, manager.processes@, manager.root_pid),
{
    let table = &manager.processes;
    let root = manager.root_pid;
    let n = table.len();
    let index = index_children(table, root);
    let tree = match table.position(root) {
        Some(place) => {
            let node = build_node(table, &index, root, place, n);
            proof {
                use_type_invariant(table);
                lemma_depth_is_never_reached(node, table@, root, place as int, n as nat, 0);
            }
            Some(node)
        },
        None => None,
    };
    let mut detached: Vec<ProcessNode> = Vec::new();
    let mut i: usize = 0;
    while i < n
        invariant
            i <= n,
            n == table@.len(),
            indexes(index@, table@, root, n as int),
            detached@.len() == detached_places(table@, root, i as int).len(),
            forall|j: int|
                0 <= j < detached@.len() ==> is_hierarchy(
                    #[trigger] detached@[j],
                    table@,
                    root,
                    detached_places(table@, root, i as int)[j] as int,
                ),
        decreases n - i,
    {
        let process = table.entry(i);
        let alone = process.process_id != root && match process.parent_id {
            None => true,
            Some(parent) => !table.contains(parent),
        };
        if alone {
            let node = build_node(table, &index, root, i, n);
            proof {
                use_type_invariant(table);
                lemma_depth_is_never_reached(node, table@, root, i as int, n as nat, 0);
            }
            detached.push(node);
        }
        i += 1;
    }
    ProcessForest { tree, detached }
}

/// In a hierarchy, every child names the node above it as its parent and is
/// not the designated root; and a node has one child for each record of the
/// table that names it as its parent.
pub proof fn lemma_children_name_their_parent(node: ProcessNode, t: Seq<Process>, root: u32, place: int)
    requires
        t.len() <= usize::MAX,
        is_hierarchy(node, t, root, place),
    ensures
        forall|j: int|
            0 <= j < node.children@.len() ==> is_child(
                (#[trigger] node.children@[j]).process,
                node.process.process_id,
                root,
            ),
        forall|i: int|
            0 <= i < t.len() && is_child(#[trigger] t[i], node.process.process_id, root) ==> exists|j: int|
                0 <= j < node.children@.len() && (#[trigger] node.children@[j]).process == t[i],
{
    let below = kids(t, t[place].process_id, root, t.len() as int);
    lemma_kids(t, t[place].process_id, root, t.len() as int);
    assert forall|j: int| 0 <= j < node.children@.len() implies is_child(
        (#[trigger] node.children@[j]).process,
        node.process.process_id,
        root,
    ) by {
        assert(is_hierarchy(node.children@[j], t, root, below[j] as int));
    }
    assert forall|i: int|
        0 <= i < t.len() && is_child(#[trigger] t[i], node.process.process_id, root) implies exists|j: int|
        0 <= j < node.children@.len() && (#[trigger] node.children@[j]).process == t[i] by {
        assert(below.contains(i as usize));
        let j = choose|j: int| 0 <= j < below.len() && below[j] == i as usize;
        assert(is_hierarchy(node.children@[j], t, root, below[j] as int));
        assert(node.children@[j].process == t[i]);
    }
}

/// A process whose parent the table does not hold, or that names none, is
/// never left out of the forest: it is one of its root-level nodes.
pub proof fn lemma_detached_processes_are_roots(forest: ProcessForest, t: Seq<Process>, root: u32, i: int)
    requires
        t.len() <= usize::MAX,
        is_forest_of(forest, t, root),
        0 <= i < t.len(),
        is_detached(t, t[i], root),
    ensures
        exists|j: int| 0 <= j < forest.detached@.len() && (#[trigger] forest.detached@[j]).process == t[i],
{
    let places = detached_places(t, root, t.len() as int);
    lemma_detached_places(t, root, t.len() as int);
    assert(places.contains(i as usize));
    let j = choose|j: int| 0 <= j < places.len() && places[j] == i as usize;
    assert(is_hierarchy(forest.detached@[j], t, root, places[j] as int));
    assert(forest.detached@[j].process == t[i]);
}

/// The pids below `node` in discovery order.
pub fn get_descendant_pids(node: &ProcessNode) -> (pids: Vec<u32>)
    ensures
        pids@ == descendant_pids(*node),
{
    node.descendants()
}

/// How many of `outcomes` are successes.
pub open spec fn ok_count(outcomes: Seq<Result<(), OpError>>) -> nat
    decreases outcomes.len(),
{
    if outcomes.len() == 0 {
        0
    } else {
        ok_count(outcomes.drop_last()) + if outcomes.last() is Ok { 1nat } else { 0nat }
    }
}

/// The first `upto` of `targets` whose outcome is a success, in order.
pub open spec fn ok_targets(targets: Seq<u32>, outcomes: Seq<Result<(), OpError>>, upto: int) -> Seq<u32>
    decreases upto,
{
    if upto <= 0 || upto > outcomes.len() || upto > targets.len() {
        Seq::empty()
    } else if outcomes[upto - 1] is Ok {
        ok_targets(targets, outcomes, upto - 1).push(targets[upto - 1])
    } else {
        ok_targets(targets, outcomes, upto - 1)
    }
}

/// `n` refusals for want of privilege.
pub open spec fn all_denied(n: nat) -> Seq<Result<(), OpError>> {
    Seq::new(n, |i: int| Err::<(), OpError>(OpError::PermissionDenied))
}

/// Counts of a batch: every target that was attempted is in one of the two.
#[derive(Debug, Clone, Copy, PartialEq, Eq, Structural)]
pub struct BatchReport {
    pub succeeded: usize,
    pub failed: usize,
}

/// One signal for many targets, attempted one target after the other. A
/// failure is recorded and the batch goes on to the next target.
pub struct Batch {
    signal: SignalKind,
    targets: Vec<u32>,
    outcomes: Vec<Result<(), OpError>>,
}

impl Batch {
    /// The signal that every target gets.
    pub closed spec fn signal(&self) -> SignalKind {
        self.signal
    }

    /// The targets in the order in which they are attempted.
    pub closed spec fn targets(&self) -> Seq<u32> {
        self.targets@
    }

    /// The outcomes so far: the outcome at place `i` is that of target `i`.
    pub closed spec fn outcomes(&self) -> Seq<Result<(), OpError>> {
        self.outcomes@
    }

    /// No target has more than one outcome. This holds of every batch at
    /// all times.
    #[verifier::type_invariant]
    pub open spec fn wf(&self) -> bool {
        self.outcomes().len() <= self.targets().len()
    }

    /// The call that is due, if any target is left.
    pub open spec fn due(&self) -> Option<OsCall> {
        if self.outcomes().len() < self.targets().len() {
            Some(OsCall::SendSignal { pid: self.targets()[self.outcomes().len() as int], signal: self.signal() })
        } else {
            None
        }
    }

    /// A batch of `signal` for `targets`. For a session without `Admin`
    /// privilege every target is refused on the spot and no call is due.
    pub fn new(manager: &Manager, targets: Vec<u32>, signal: SignalKind) -> (batch: Batch)
        ensures
            batch.signal() == signal,
            batch.targets() == targets@,
            batch.outcomes() == if manager.active_user.admin() {
                Seq::<Result<(), OpError>>::empty()
            } else {
                all_denied(targets@.len())
            },
            !manager.active_user.admin() ==> batch.due() is None,
    {
        let mut outcomes: Vec<Result<(), OpError>> = Vec::new();
        if !manager.active_user.is_admin() {
            let mut i: usize = 0;
            while i < targets.len()
                invariant
                    i <= targets.len(),
                    outcomes@ == all_denied(i as nat),
                decreases targets.len() - i,
            {
                outcomes.push(Err(OpError::PermissionDenied));
                assert(outcomes@ == all_denied((i + 1) as nat));
                i += 1;
            }
        }
        Batch { signal, targets, outcomes }
    }

    /// The call to make next, or `None` once every target has its outcome.
    pub fn next_call(&self) -> (call: Option<OsCall>)
        ensures
            call == self.due(),
    {
        let done = self.outcomes.len();
        if done < self.targets.len() {
            Some(OsCall::SendSignal { pid: self.targets[done], signal: self.signal })
        } else {
            None
        }
    }

    /// Records the system's answer to the call that is due and moves on to
    /// the next target, whatever the answer was. Where no call is due the
    /// batch stays as it is.
    pub fn record(&mut self, reply: Result<(), i32>)
        ensures
            final(self).signal() == old(self).signal(),
            final(self).targets() == old(self).targets(),
            final(self).outcomes() == match old(self).due() {
                Some(call) => old(self).outcomes().push(outcome_of(call, reply)),
                None => old(self).outcomes(),
            },
    {
        let done = self.outcomes.len();
        if done < self.targets.len() {
            let call = OsCall::SendSignal { pid: self.targets[done], signal: self.signal };
            let outcome = complete(call, reply);
            let mut outcomes: Vec<Result<(), OpError>> = Vec::new();
            std::mem::swap(&mut outcomes, &mut self.outcomes);
            outcomes.push(outcome);
            self.outcomes = outcomes;
        }
    }

    /// How many targets are still to be attempted.
    pub fn remaining(&self) -> (n: usize)
        ensures
            n == self.targets().len() - self.outcomes().len(),
    {
        proof {
            use_type_invariant(self);
        }
        self.targets.len() - self.outcomes.len()
    }

    /// The target at place `i` and its outcome, if it has been attempted.
    pub fn outcome(&self, i: usize) -> (detail: Option<(u32, Result<(), OpError>)>)
        ensures
            detail == if i < self.outcomes().len() {
                Some((self.targets()[i as int], self.outcomes()[i as int]))
            } else {
                None
            },
    {
        proof {
            use_type_invariant(self);
        }
        if i < self.outcomes.len() {
            Some((self.targets[i], self.outcomes[i]))
        } else {
            None
        }
    }

    /// The counts so far. Together they are the number of targets
    /// attempted.
    pub fn report(&self) -> (report: BatchReport)
        ensures
            report.succeeded == ok_count(self.outcomes()),
            report.succeeded + report.failed == self.outcomes().len(),
    {
        let mut succeeded: usize = 0;
        let mut failed: usize = 0;
        let mut i: usize = 0;
        while i < self.outcomes.len()
            invariant
                i <= self.outcomes.len(),
                succeeded == ok_count(self.outcomes@.take(i as int)),
                succeeded + failed == i,
            decreases self.outcomes.len() - i,
        {
            proof {
                assert(self.outcomes@.take(i + 1).drop_last() == self.outcomes@.take(i as int));
            }
            match self.outcomes[i] {
                Ok(_) => {
                    succeeded += 1;
                },
                Err(_) => {
                    failed += 1;
                },
            }
            i += 1;
        }
        proof {
            assert(self.outcomes@.take(self.outcomes@.len() as int) == self.outcomes@);
        }
        BatchReport { succeeded, failed }
    }

    /// The targets whose call the system accepted, in the order attempted.
    pub fn succeeded_pids(&self) -> (pids: Vec<u32>)
        ensures
            pids@ == ok_targets(self.targets(), self.outcomes(), self.outcomes().len() as int),
    {
        proof {
            use_type_invariant(self);
        }
        let mut pids: Vec<u32> = Vec::new();
        let mut i: usize = 0;
        while i < self.outcomes.len()
            invariant
                i <= self.outcomes.len(),
                self.outcomes.len() <= self.targets.len(),
                pids@ == ok_targets(self.targets@, self.outcomes@, i as int),
            decreases self.outcomes.len() - i,
        {
            match self.outcomes[i] {
                Ok(_) => {
                    pids.push(self.targets[i]);
                },
                Err(_) => {},
            }
            i += 1;
        }
        pids
    }

    /// The result of a batch as a whole: the targets that succeeded where
    /// every target was attempted and none failed; otherwise the error that
    /// says how many are left, or how many succeeded and failed.
    pub fn finish(&self) -> (result: Result<Vec<u32>, OpError>)
        ensures
            match result {
                Ok(pids) => {
                    &&& self.due() is None
                    &&& ok_count(self.outcomes()) == self.outcomes().len()
                    &&& pids@ == ok_targets(self.targets(), self.outcomes(), self.outcomes().len() as int)
                },
                Err(error) => error == if self.due() is Some {
                    OpError::Unfinished { remaining: (self.targets().len() - self.outcomes().len()) as usize }
                } else {
                    OpError::PartialFailure {
                        succeeded: ok_count(self.outcomes()) as usize,
                        failed: (self.outcomes().len() - ok_count(self.outcomes())) as usize,
                    }
                } && (self.due() is Some || ok_count(self.outcomes()) < self.outcomes().len()),
            },
    {
        proof {
            use_type_invariant(self);
        }
        let remaining = self.remaining();
        if remaining > 0 {
            return Err(OpError::Unfinished { remaining });
        }
        let report = self.report();
        if report.failed > 0 {
            return Err(OpError::PartialFailure { succeeded: report.succeeded, failed: report.failed });
        }
        Ok(self.succeeded_pids())
    }
}

/// The outcomes of a batch of `signal` for `targets` once the system has
/// answered its calls with `replies`, one reply for each target in turn.
pub open spec fn outcomes_of(signal: SignalKind, targets: Seq<u32>, replies: Seq<Result<(), i32>>) -> Seq<
    Result<(), OpError>,
> {
    Seq::new(replies.len(), |i: int| outcome_of(OsCall::SendSignal { pid: targets[i], signal }, replies[i]))
}

/// How many of `replies` say that the system accepted the call.
pub open spec fn accepted(replies: Seq<Result<(), i32>>) -> nat
    decreases replies.len(),
{
    if replies.len() == 0 {
        0
    } else {
        accepted(replies.drop_last()) + if replies.last() is Ok { 1nat } else { 0nat }
    }
}

/// A batch never fails as a whole: every reply leaves one outcome, the
/// successes are the calls that the system accepted, and the failures are
/// all the others.
pub proof fn lemma_batch_counts_every_reply(signal: SignalKind, targets: Seq<u32>, replies: Seq<Result<(), i32>>)
    ensures
        outcomes_of(signal, targets, replies).len() == replies.len(),
        ok_count(outcomes_of(signal, targets, replies)) == accepted(replies),
        accepted(replies) <= replies.len(),
    decreases replies.len(),
{
    if replies.len() > 0 {
        lemma_batch_counts_every_reply(signal, targets, replies.drop_last());
        assert(outcomes_of(signal, targets, replies).drop_last() == outcomes_of(
            signal,
            targets,
            replies.drop_last(),
        ));
    }
}

/// Recording a reply appends the outcome that `outcomes_of` gives it: a
/// batch that has taken the replies `replies` and takes `reply` next has
/// then taken `replies.push(reply)`.
pub proof fn lemma_record_follows_replies(
    signal: SignalKind,
    targets: Seq<u32>,
    replies: Seq<Result<(), i32>>,
    reply: Result<(), i32>,
)
    requires
        replies.len() < targets.len(),
    ensures
        outcomes_of(signal, targets, replies.push(reply)) == outcomes_of(signal, targets, replies).push(
            outcome_of(OsCall::SendSignal { pid: targets[replies.len() as int], signal }, reply),
        ),
{
}

/// A batch that terminates `pids`: by force where `force` is set, by
/// request where it is not.
pub fn batch_kill(manager: &Manager, pids: Vec<u32>, force: bool) -> (batch: Batch)
    ensures
        batch.signal() == if force { SignalKind::Kill } else { SignalKind::Terminate },
        batch.targets() == pids@,
        batch.outcomes() == if manager.active_user.admin() {
            Seq::<Result<(), OpError>>::empty()
        } else {
            all_denied(pids@.len())
        },
{
    Batch::new(manager, pids, if force { SignalKind::Kill } else { SignalKind::Terminate })
}

/// A batch that suspends `pids`.
pub fn batch_pause(manager: &Manager, pids: Vec<u32>) -> (batch: Batch)
    ensures
        batch.signal() == SignalKind::Stop,
        batch.targets() == pids@,
        batch.outcomes() == if manager.active_user.admin() {
            Seq::<Result<(), OpError>>::empty()
        } else {
            all_denied(pids@.len())
        },
{
    Batch::new(manager, pids, SignalKind::Stop)
}

/// A batch that resumes `pids`.
pub fn batch_resume(manager: &Manager, pids: Vec<u32>) -> (batch: Batch)
    ensures
        batch.signal() == SignalKind::Continue,
        batch.targets() == pids@,
        batch.outcomes() == if manager.active_user.admin() {
            Seq::<Result<(), OpError>>::empty()
        } else {
            all_denied(pids@.len())
        },
{
    Batch::new(manager, pids, SignalKind::Continue)
}

/// What a kill of the descendants of `pid` comes to, given the process
/// tree: a refusal for a session without `Admin` privilege, before anything
/// else is looked at; an error where there is no tree or no node of `pid`
/// in it; else the pids below that node, deepest first: the reverse of the
/// order in which they are discovered. `pid` itself is never among the
/// targets: to kill it as well is a step of its own, `kill_process`, for
/// the caller to take afterwards.
pub open spec fn descendant_targets(admin: bool, tree: Option<ProcessNode>, pid: u32) -> Result<
    Seq<u32>,
    OpError,
> {
    if !admin {
        Err(OpError::PermissionDenied)
    } else {
        match tree {
            None => Err(OpError::TreeUnavailable),
            Some(root) => match find_in(root, pid) {
                None => Err(OpError::NotFound { pid }),
                Some(node) => Ok(descendant_pids(node).reverse()),
            },
        }
    }
}

/// Whether `plan` is the fresh kill batch for `expected`, or its error.
pub open spec fn plan_matches(plan: Result<Batch, OpError>, expected: Result<Seq<u32>, OpError>) -> bool {
    match expected {
        Ok(targets) => {
            &&& plan is Ok
            &&& plan->Ok_0.signal() == SignalKind::Kill
            &&& plan->Ok_0.targets() == targets
            &&& plan->Ok_0.outcomes().len() == 0
        },
        Err(error) => plan == Err::<Batch, OpError>(error),
    }
}

/// Plans the kill of everything below `parent_pid` in `tree`.
pub fn plan_descendant_kill(manager: &Manager, tree: &Option<ProcessNode>, parent_pid: u32) -> (plan: Result<
    Batch,
    OpError,
>)
    ensures
        plan_matches(plan, descendant_targets(manager.active_user.admin(), *tree, parent_pid)),
{
    if !manager.active_user.is_admin() {
        return Err(OpError::PermissionDenied);
    }
    let root = match tree {
        Some(root) => root,
        None => {
            return Err(OpError::TreeUnavailable);
        },
    };
    let start = match root.find(parent_pid) {
        Some(node) => node,
        None => {
            return Err(OpError::NotFound { pid: parent_pid });
        },
    };
    let pids = get_descendant_pids(start);
    let mut targets: Vec<u32> = Vec::new();
    let mut i: usize = pids.len();
    while i > 0
        invariant
            i <= pids.len(),
            targets@.len() == pids.len() - i,
            forall|k: int| 0 <= k < targets@.len() ==> targets@[k] == pids@[pids.len() - 1 - k],
        decreases i,
    {
        i -= 1;
        targets.push(pids[i]);
    }
    assert(targets@ == pids@.reverse());
    Ok(Batch::new(manager, targets, SignalKind::Kill))
}

/// Whether the target `pid` of a kill below `ancestor` is attempted while
/// its parent is still untouched: the parent is `ancestor`, which is
/// spared, or one of the targets that come `later`.
pub open spec fn comes_before_its_parent(t: Seq<Process>, pid: u32, later: Seq<u32>, ancestor: u32) -> bool {
    &&& has_pid(t, pid)
    &&& t[index_of(t, pid)].parent_id is Some
    &&& t[index_of(t, pid)].parent_id->0 == ancestor || later.contains(t[index_of(t, pid)].parent_id->0)
}

/// Plans the kill of all descendants of `parent_pid`: builds the process
/// tree, finds the node of `parent_pid` in it and lists what is below it,
/// deepest first. A session without `Admin` privilege is refused before
/// the table is looked at. Otherwise there is a plan exactly where
/// `parent_pid` belongs to the tree below the root. The plan is what
/// `descendant_targets` gives for the tree of the table; its targets are
/// the processes that descend from `parent_pid`, all of them and no other,
/// each once and before its own parent, and `parent_pid` itself is never
/// among them.
pub fn kill_descendants(manager: &Manager, parent_pid: u32) -> (plan: Result<Batch, OpError>)
    ensures
        !manager.active_user.admin() ==> plan == Err::<Batch, OpError>(OpError::PermissionDenied),
        manager.active_user.admin() ==> forall|tree: Option<ProcessNode>|
            #[trigger] is_tree_of(tree, manager.processes@, manager.root_pid) ==> plan_matches(
                plan,
                descendant_targets(true, tree, parent_pid),
            ),
        manager.active_user.admin() ==> match plan {
            Ok(_) => in_tree(manager.processes@, manager.root_pid, parent_pid),
            Err(error) => {
                &&& !in_tree(manager.processes@, manager.root_pid, parent_pid)
                &&& has_pid(manager.processes@, manager.root_pid) ==> error == (OpError::NotFound {
                    pid: parent_pid,
                })
                &&& !has_pid(manager.processes@, manager.root_pid) ==> error == OpError::TreeUnavailable
            },
        },
        plan is Ok ==> !plan->Ok_0.targets().contains(parent_pid),
        plan is Ok ==> plan->Ok_0.targets().no_duplicates(),
        plan is Ok ==> forall|i: int|
            0 <= i < plan->Ok_0.targets().len() ==> comes_before_its_parent(
                manager.processes@,
                #[trigger] plan->Ok_0.targets()[i],
                plan->Ok_0.targets().skip(i + 1),
                parent_pid,
            ),
        plan is Ok ==> forall|pid: u32|
            plan->Ok_0.targets().contains(pid) <==> descends_from(
                manager.processes@,
                manager.root_pid,
                pid,
                parent_pid,
            ),
{
    if !manager.active_user.is_admin() {
        return Err(OpError::PermissionDenied);
    }
    let tree = build_process_tree(manager);
    let plan = plan_descendant_kill(manager, &tree, parent_pid);
    proof {
        use_type_invariant(&manager.processes);
        assert(plan_matches(plan, descendant_targets(true, tree, parent_pid)));
        if tree is Some {
            lemma_tree_holds_the_descendants_of_the_root(
                tree->0,
                manager.processes@,
                manager.root_pid,
                parent_pid,
            );
        }
        assert forall|any: Option<ProcessNode>| #[trigger]
            is_tree_of(any, manager.processes@, manager.root_pid) implies plan_matches(
            plan,
            descendant_targets(true, any, parent_pid),
        ) by {
            lemma_table_decides_targets(tree, any, manager.processes@, manager.root_pid, parent_pid);
        }
        if plan is Ok {
            let found = find_in(tree->0, parent_pid)->0;
            lemma_ancestor_is_no_descendant(tree->0, manager.processes@, manager.root_pid, parent_pid);
            lemma_below_are_the_descendants(tree->0, manager.processes@, manager.root_pid, parent_pid);
            let targets = plan->Ok_0.targets();
            let below = descendant_pids(found);
            let at = lemma_found_is_hierarchy(
                tree->0,
                manager.processes@,
                manager.root_pid,
                index_of(manager.processes@, manager.root_pid),
                parent_pid,
            );
            lemma_listed_once(found, manager.processes@, manager.root_pid, at.0, at.1);
            assert forall|i: int, j: int| 0 <= i < targets.len() && 0 <= j < targets.len() && i != j implies targets[i]
                != targets[j] by {
                assert(targets[i] == below[below.len() - 1 - i]);
                assert(targets[j] == below[below.len() - 1 - j]);
            }
            assert forall|i: int| 0 <= i < targets.len() implies comes_before_its_parent(
                manager.processes@,
                #[trigger] targets[i],
                targets.skip(i + 1),
                parent_pid,
            ) by {
                let k = below.len() - 1 - i;
                assert(targets[i] == below[k]);
                let earlier = lemma_parents_come_first(found, manager.processes@, manager.root_pid, at.0, k);
                if earlier >= 0 {
                    let j = below.len() - 1 - earlier;
                    assert(targets[j] == below[earlier]);
                    assert(targets.skip(i + 1)[j - i - 1] == targets[j]);
                }
            }
            assert forall|pid: u32| targets.contains(pid) <==> below.contains(pid) by {
                if targets.contains(pid) {
                    let k = choose|k: int| 0 <= k < targets.len() && targets[k] == pid;
                    assert(below[below.len() - 1 - k] == pid);
                }
                if below.contains(pid) {
                    let k = choose|k: int| 0 <= k < below.len() && below[k] == pid;
                    assert(targets[below.len() - 1 - k] == pid);
                }
            }
        }
    }
    plan
}

} // verus!
