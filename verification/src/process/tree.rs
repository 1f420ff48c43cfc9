//! Nodes of the parent/child hierarchy.

use vstd::prelude::*;
use crate::process::Process;

verus! {

/// One process together with the nodes of its direct children. A node owns
/// its process value and its children; there are no links back to a parent.
pub struct ProcessNode {
    pub process: Process,
    pub children: Vec<ProcessNode>,
}

impl ProcessNode {
    /// A node without children.
    pub fn new(process: Process) -> (node: ProcessNode)
        ensures
            node.process == process,
            node.children@.len() == 0,
    {
        ProcessNode { process, children: Vec::new() }
    }
}

/// The pids below `node` in discovery order: each child in turn, directly
/// followed by that child's own descendants.
pub open spec fn descendant_pids(node: ProcessNode) -> Seq<u32>
    decreases node, 0int,
{
    forest_pids(node.children@, node.children@.len() as int)
}

/// The pids of the first `count` nodes of `nodes`, each directly followed by
/// its descendants.
pub open spec fn forest_pids(nodes: Seq<ProcessNode>, count: int) -> Seq<u32>
    decreases nodes, 1int, count,
{
    if count <= 0 || count > nodes.len() {
        Seq::empty()
    } else {
        forest_pids(nodes, count - 1) + seq![nodes[count - 1].process.process_id]
            + descendant_pids(nodes[count - 1])
    }
}

/// The first node at or below `node`, in discovery order, that holds `pid`.
pub open spec fn find_in(node: ProcessNode, pid: u32) -> Option<ProcessNode>
    decreases node, 0int, 0int,
{
    if node.process.process_id == pid {
        Some(node)
    } else {
        find_among(node.children@, pid, 0)
    }
}

/// The first node that holds `pid` at or below the nodes of `nodes` from
/// place `from` on.
pub open spec fn find_among(nodes: Seq<ProcessNode>, pid: u32, from: int) -> Option<ProcessNode>
    decreases nodes, 1int, nodes.len() - from,
{
    if from < 0 || from >= nodes.len() {
        None
    } else {
        match find_in(nodes[from], pid) {
            Some(found) => Some(found),
            None => find_among(nodes, pid, from + 1),
        }
    }
}

impl ProcessNode {
    /// Looks for the node of `pid` at or below this node.
    pub fn find(&self, pid: u32) -> (found: Option<&ProcessNode>)
        ensures
            match found {
                Some(node) => find_in(*self, pid) == Some(*node),
                None => find_in(*self, pid) is None,
            },
        decreases self,
    {
        if self.process.process_id == pid {
            return Some(self);
        }
        let mut j: usize = 0;
        while j < self.children.len()
            invariant
                j <= self.children.len(),
                self.process.process_id != pid,
                find_among(self.children@, pid, 0) == find_among(self.children@, pid, j as int),
            decreases self.children.len() - j,
        {
            match self.children[j].find(pid) {
                Some(node) => {
                    return Some(node);
                },
                None => {},
            }
            j += 1;
        }
        None
    }

    /// The pids below this node in discovery order.
    pub fn descendants(&self) -> (pids: Vec<u32>)
        ensures
            pids@ == descendant_pids(*self),
        decreases self,
    {
        let mut pids: Vec<u32> = Vec::new();
        let mut j: usize = 0;
        while j < self.children.len()
            invariant
                j <= self.children.len(),
                pids@ == forest_pids(self.children@, j as int),
            decreases self.children.len() - j,
        {
            let child = &self.children[j];
            pids.push(child.process.process_id);
            let mut below = child.descendants();
            pids.append(&mut below);
            j += 1;
        }
        pids
    }
}

} // verus!
