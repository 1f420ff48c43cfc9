//! Lines of descent through the process table, and what follows from them
//! for the hierarchical view: no line is longer than the depth down to
//! which the builder goes; whatever descends from the root or from a
//! detached process is found in the forest, so that no process is lost from
//! view; and the processes below a node of the tree are the descendants of
//! its process, each listed once and after its parent.

use vstd::prelude::*;
use crate::manager::batch::{
    descendant_targets, detached_places, is_child, is_detached, is_forest_of, is_hierarchy, is_subtree,
    is_tree_of, kids, lemma_detached_places, lemma_kids, ProcessForest,
};
use crate::process::table::{distinct_pids, has_pid, index_of};
use crate::process::tree::{descendant_pids, find_among, find_in, forest_pids, ProcessNode};
use crate::process::Process;

verus! {

/// The place of the record that the record at `place` hangs below, or -1
/// where it hangs below nothing: at no place of `t`, for the designated
/// root, and for a record without a parent in `t`.
pub open spec fn parent_place(t: Seq<Process>, root: u32, place: int) -> int {
    if 0 <= place < t.len() && t[place].process_id != root && t[place].parent_id is Some && has_pid(
        t,
        t[place].parent_id->0,
    ) {
        index_of(t, t[place].parent_id->0)
    } else {
        -1
    }
}

/// The place reached from `place` after `steps` steps from child to
/// parent, or -1 where the line ends before.
pub open spec fn ancestor_place(t: Seq<Process>, root: u32, place: int, steps: nat) -> int
    decreases steps,
{
    if steps == 0 {
        place
    } else {
        parent_place(t, root, ancestor_place(t, root, place, (steps - 1) as nat))
    }
}

/// Whether a line of descent can start at `place`: at the designated root
/// or at a detached record.
pub open spec fn is_top(t: Seq<Process>, root: u32, place: int) -> bool {
    0 <= place < t.len() && (t[place].process_id == root || is_detached(t, t[place], root))
}

/// Whether the process `pid` descends from the process `ancestor` in `t`:
/// both are in the table, and a line of one or more parents leads from the
/// one to the other.
pub open spec fn descends_from(t: Seq<Process>, root: u32, pid: u32, ancestor: u32) -> bool {
    &&& has_pid(t, pid)
    &&& has_pid(t, ancestor)
    &&& exists|steps: nat|
        steps >= 1 && #[trigger] ancestor_place(t, root, index_of(t, pid), steps) == index_of(t, ancestor)
}

/// Whether the process `pid` belongs to the tree below `root`: the table
/// holds the root, and `pid` is the root or descends from it.
pub open spec fn in_tree(t: Seq<Process>, root: u32, pid: u32) -> bool {
    has_pid(t, root) && (pid == root || descends_from(t, root, pid, root))
}

/// Whether the parent links of `t` run in no circle: no record is its own
/// ancestor.
pub open spec fn acyclic(t: Seq<Process>, root: u32) -> bool {
    forall|place: int, steps: nat|
        0 <= place < t.len() && steps >= 1 ==> #[trigger] ancestor_place(t, root, place, steps) != place
}

/// A parent's place is a place of the table.
pub proof fn lemma_parent_place_in_table(t: Seq<Process>, root: u32, place: int)
    ensures
        -1 <= parent_place(t, root, place) < t.len(),
        parent_place(t, root, place) >= 0 ==> {
            &&& 0 <= place < t.len()
            &&& is_child(t[place], t[parent_place(t, root, place)].process_id, root)
        },
{
}

/// Once a line has ended it stays ended; up to its end it runs through
/// places of the table.
pub proof fn lemma_line_runs_in_table(t: Seq<Process>, root: u32, place: int, steps: nat, further: nat)
    requires
        0 <= place < t.len(),
        steps <= further,
        ancestor_place(t, root, place, further) >= 0,
    ensures
        0 <= ancestor_place(t, root, place, steps) < t.len(),
    decreases further - steps,
{
    if steps < further {
        lemma_line_runs_in_table(t, root, place, steps + 1, further);
        lemma_parent_place_in_table(t, root, ancestor_place(t, root, place, steps));
    } else if steps > 0 {
        lemma_parent_place_in_table(t, root, ancestor_place(t, root, place, (steps - 1) as nat));
    }
}

/// Where two steps of a line reach the same place, the line repeats itself
/// from there on.
pub proof fn lemma_line_repeats(t: Seq<Process>, root: u32, place: int, x: nat, y: nat, more: nat)
    requires
        ancestor_place(t, root, place, x) == ancestor_place(t, root, place, y),
    ensures
        ancestor_place(t, root, place, x + more) == ancestor_place(t, root, place, y + more),
    decreases more,
{
    if more > 0 {
        lemma_line_repeats(t, root, place, x, y, (more - 1) as nat);
    }
}

/// A line of `first` steps followed by a line of `then` steps is a line of
/// `first + then` steps.
pub proof fn lemma_line_continues(t: Seq<Process>, root: u32, place: int, first: nat, then_on: nat)
    ensures
        ancestor_place(t, root, place, first + then_on) == ancestor_place(
            t,
            root,
            ancestor_place(t, root, place, first),
            then_on,
        ),
    decreases then_on,
{
    if then_on > 0 {
        lemma_line_continues(t, root, place, first, (then_on - 1) as nat);
    }
}

/// A line that ends at a top passes no place twice.
pub proof fn lemma_line_passes_no_place_twice(t: Seq<Process>, root: u32, place: int, steps: nat, x: nat, y: nat)
    requires
        0 <= place < t.len(),
        is_top(t, root, ancestor_place(t, root, place, steps)),
        x < y <= steps,
    ensures
        ancestor_place(t, root, place, x) != ancestor_place(t, root, place, y),
{
    if ancestor_place(t, root, place, x) == ancestor_place(t, root, place, y) {
        let top = ancestor_place(t, root, place, steps);
        let early = (steps - (y - x)) as nat;
        lemma_line_repeats(t, root, place, x, y, (steps - y) as nat);
        assert(x + (steps - y) == early);
        assert(ancestor_place(t, root, place, early) == top);
        assert(parent_place(t, root, top) == -1);
        assert(ancestor_place(t, root, place, early + 1) == -1);
        lemma_line_runs_in_table(t, root, place, early + 1, steps);
    }
}

/// A line that ends at a top is shorter than the table is long.
pub proof fn lemma_line_is_short(t: Seq<Process>, root: u32, place: int, steps: nat)
    requires
        0 <= place < t.len(),
        is_top(t, root, ancestor_place(t, root, place, steps)),
    ensures
        steps < t.len(),
{
    let line = Seq::new(steps + 1, |m: int| ancestor_place(t, root, place, m as nat));
    assert forall|x: int, y: int| 0 <= x < line.len() && 0 <= y < line.len() && x != y implies line[x]
        != line[y] by {
        if x < y {
            lemma_line_passes_no_place_twice(t, root, place, steps, x as nat, y as nat);
        } else {
            lemma_line_passes_no_place_twice(t, root, place, steps, y as nat, x as nat);
        }
    }
    assert(line.no_duplicates());
    line.unique_seq_to_set();
    let places = vstd::set_lib::set_int_range(0, t.len() as int);
    vstd::set_lib::lemma_int_range(0, t.len() as int);
    assert forall|p: int| line.to_set().contains(p) implies places.contains(p) by {
        let m = choose|m: int| 0 <= m < line.len() && line[m] == p;
        lemma_line_runs_in_table(t, root, place, m as nat, steps);
    }
    vstd::set_lib::lemma_len_subset(line.to_set(), places);
}

/// No place on a line that ends at a top is its own ancestor.
pub proof fn lemma_no_circle_on_a_line(t: Seq<Process>, root: u32, place: int, steps: nat, around: nat)
    requires
        0 <= place < t.len(),
        is_top(t, root, ancestor_place(t, root, place, steps)),
        around >= 1,
    ensures
        ancestor_place(t, root, place, around) != place,
{
    if around <= steps {
        lemma_line_passes_no_place_twice(t, root, place, steps, 0, around);
    } else if ancestor_place(t, root, place, around) == place {
        let top = ancestor_place(t, root, place, steps);
        assert(parent_place(t, root, top) == -1);
        assert(ancestor_place(t, root, place, steps + 1) == -1);
        lemma_line_runs_in_table(t, root, place, steps + 1, around);
    }
}

/// A child's parent place is the place of the record it names, where the
/// table holds no pid twice.
pub proof fn lemma_child_hangs_below(t: Seq<Process>, root: u32, child: int, top: int)
    requires
        distinct_pids(t),
        0 <= child < t.len(),
        0 <= top < t.len(),
        is_child(t[child], t[top].process_id, root),
    ensures
        parent_place(t, root, child) == top,
{
    assert(has_pid(t, t[top].process_id));
}

/// Two children of one record do not descend from one another, and nothing
/// descends from both: where lines lead from one place to two of the
/// children of a record on a line to a top, the two are the same child and
/// the lines are equally long.
pub proof fn lemma_one_child_above(
    t: Seq<Process>,
    root: u32,
    top: int,
    steps: nat,
    place: int,
    one: nat,
    other: nat,
)
    requires
        0 <= place < t.len(),
        0 <= top < t.len(),
        is_top(t, root, ancestor_place(t, root, top, steps)),
        parent_place(t, root, ancestor_place(t, root, place, one)) == top,
        parent_place(t, root, ancestor_place(t, root, place, other)) == top,
    ensures
        one == other,
{
    if one != other {
        let lo = if one < other { one } else { other };
        let hi = if one < other { other } else { one };
        assert(ancestor_place(t, root, place, lo + 1) == top);
        assert(ancestor_place(t, root, place, hi + 1) == top);
        lemma_line_continues(t, root, place, lo + 1, (hi - lo) as nat);
        assert(lo + 1 + (hi - lo) == hi + 1);
        lemma_no_circle_on_a_line(t, root, top, steps, (hi - lo) as nat);
    }
}

/// A place at which a line does not end has a parent's place above it.
pub proof fn lemma_line_goes_on(t: Seq<Process>, root: u32, place: int)
    requires
        0 <= place < t.len(),
        !is_top(t, root, place),
    ensures
        0 <= parent_place(t, root, place) < t.len(),
{
}

/// Where the parent links run in no circle, the line of parents of every
/// record ends at a top: at the designated root or at a detached record.
/// The length of the line is returned. `from` is the number of steps that
/// are known not to reach a top.
pub proof fn lemma_every_line_ends(t: Seq<Process>, root: u32, place: int, from: nat) -> (steps: nat)
    requires
        acyclic(t, root),
        0 <= place < t.len(),
        from <= t.len(),
        forall|s: nat| s <= from ==> 0 <= #[trigger] ancestor_place(t, root, place, s) < t.len(),
    ensures
        is_top(t, root, ancestor_place(t, root, place, steps)),
    decreases t.len() - from,
{
    let here = ancestor_place(t, root, place, from);
    if is_top(t, root, here) {
        from
    } else if from < t.len() {
        lemma_line_goes_on(t, root, here);
        assert(ancestor_place(t, root, place, from + 1) == parent_place(t, root, here));
        assert forall|s: nat| s <= from + 1 implies 0 <= #[trigger] ancestor_place(t, root, place, s) < t.len() by {
            if s <= from {
            }
        }
        lemma_every_line_ends(t, root, place, from + 1)
    } else {
        let line = Seq::new(from + 1, |m: int| ancestor_place(t, root, place, m as nat));
        if line.no_duplicates() {
            line.unique_seq_to_set();
            let places = vstd::set_lib::set_int_range(0, t.len() as int);
            vstd::set_lib::lemma_int_range(0, t.len() as int);
            assert forall|p: int| line.to_set().contains(p) implies places.contains(p) by {
                let m = choose|m: int| 0 <= m < line.len() && line[m] == p;
                assert(line[m] == ancestor_place(t, root, place, m as nat));
            }
            vstd::set_lib::lemma_len_subset(line.to_set(), places);
        } else {
            let (x, y) = choose|x: int, y: int|
                0 <= x < line.len() && 0 <= y < line.len() && x != y && line[x] == line[y];
            let lo = if x < y { x } else { y };
            let hi = if x < y { y } else { x };
            let again = ancestor_place(t, root, place, lo as nat);
            assert(line[lo] == again);
            assert(line[hi] == ancestor_place(t, root, place, hi as nat));
            lemma_line_continues(t, root, place, lo as nat, (hi - lo) as nat);
            assert(ancestor_place(t, root, again, (hi - lo) as nat) == again);
        }
        from
    }
}

/// The depth at which the builder would cut a hierarchy off is never
/// reached: what it builds `depth` levels deep, below a record from which a
/// line of `steps` parents leads to a top, is the whole hierarchy below
/// that record, where `depth` and `steps` together are the length of the
/// table or more.
pub proof fn lemma_depth_is_never_reached(
    node: ProcessNode,
    t: Seq<Process>,
    root: u32,
    place: int,
    depth: nat,
    steps: nat,
)
    requires
        t.len() <= usize::MAX,
        distinct_pids(t),
        is_subtree(node, t, root, place, depth),
        is_top(t, root, ancestor_place(t, root, place, steps)),
        depth + steps >= t.len(),
    ensures
        is_hierarchy(node, t, root, place),
    decreases depth,
{
    lemma_line_is_short(t, root, place, steps);
    let below = kids(t, t[place].process_id, root, t.len() as int);
    lemma_kids(t, t[place].process_id, root, t.len() as int);
    assert forall|j: int| 0 <= j < node.children@.len() implies is_hierarchy(
        #[trigger] node.children@[j],
        t,
        root,
        below[j] as int,
    ) by {
        assert(is_subtree(node.children@[j], t, root, below[j] as int, (depth - 1) as nat));
        lemma_child_hangs_below(t, root, below[j] as int, place);
        lemma_line_continues(t, root, below[j] as int, 1, steps);
        assert(ancestor_place(t, root, below[j] as int, 0) == below[j] as int);
        assert(ancestor_place(t, root, below[j] as int, 1) == place);
        assert(ancestor_place(t, root, below[j] as int, steps + 1) == ancestor_place(t, root, place, steps));
        lemma_depth_is_never_reached(
            node.children@[j],
            t,
            root,
            below[j] as int,
            (depth - 1) as nat,
            steps + 1,
        );
    }
}

/// What is found in one of the nodes is found among them.
pub proof fn lemma_found_among(nodes: Seq<ProcessNode>, pid: u32, at: int, from: int)
    requires
        0 <= from <= at < nodes.len(),
        find_in(nodes[at], pid) is Some,
    ensures
        find_among(nodes, pid, from) is Some,
    decreases at - from,
{
    if from < at {
        lemma_found_among(nodes, pid, at, from + 1);
    }
}

/// What is found among nodes is found in one of them.
pub proof fn lemma_found_in_one(nodes: Seq<ProcessNode>, pid: u32, from: int) -> (at: int)
    requires
        0 <= from,
        find_among(nodes, pid, from) is Some,
    ensures
        from <= at < nodes.len(),
        find_in(nodes[at], pid) == find_among(nodes, pid, from),
    decreases nodes.len() - from,
{
    if find_in(nodes[from], pid) is Some {
        from
    } else {
        lemma_found_in_one(nodes, pid, from + 1)
    }
}

/// A hierarchy holds every record from which a line of parents leads to
/// its top.
pub proof fn lemma_hierarchy_holds_descendants(
    node: ProcessNode,
    t: Seq<Process>,
    root: u32,
    top: int,
    place: int,
    steps: nat,
)
    requires
        t.len() <= usize::MAX,
        is_hierarchy(node, t, root, top),
        0 <= place < t.len(),
        ancestor_place(t, root, place, steps) == top,
    ensures
        find_in(node, t[place].process_id) is Some,
    decreases steps,
{
    let pid = t[place].process_id;
    if steps > 0 && node.process.process_id != pid {
        let next = ancestor_place(t, root, place, (steps - 1) as nat);
        assert(parent_place(t, root, next) == top);
        lemma_parent_place_in_table(t, root, next);
        let below = kids(t, t[top].process_id, root, t.len() as int);
        lemma_kids(t, t[top].process_id, root, t.len() as int);
        assert(below.contains(next as usize));
        let j = choose|j: int| 0 <= j < below.len() && below[j] == next as usize;
        assert(is_hierarchy(node.children@[j], t, root, below[j] as int));
        lemma_hierarchy_holds_descendants(node.children@[j], t, root, next, place, (steps - 1) as nat);
        lemma_found_among(node.children@, pid, j, 0);
    }
}

/// A node found in a hierarchy is itself the hierarchy below a record of the
/// table: the record of the pid looked for, from which a line of parents
/// leads to the top of the hierarchy. The place of that record and the
/// length of the line are returned.
pub proof fn lemma_found_is_hierarchy(node: ProcessNode, t: Seq<Process>, root: u32, top: int, pid: u32) -> (at: (
    int,
    nat,
))
    requires
        t.len() <= usize::MAX,
        distinct_pids(t),
        is_hierarchy(node, t, root, top),
        find_in(node, pid) is Some,
    ensures
        0 <= at.0 < t.len(),
        t[at.0].process_id == pid,
        ancestor_place(t, root, at.0, at.1) == top,
        is_hierarchy(find_in(node, pid)->0, t, root, at.0),
    decreases node,
{
    if node.process.process_id == pid {
        (top, 0)
    } else {
        let j = lemma_found_in_one(node.children@, pid, 0);
        let below = kids(t, t[top].process_id, root, t.len() as int);
        lemma_kids(t, t[top].process_id, root, t.len() as int);
        assert(is_hierarchy(node.children@[j], t, root, below[j] as int));
        let inner = lemma_found_is_hierarchy(node.children@[j], t, root, below[j] as int, pid);
        lemma_child_hangs_below(t, root, below[j] as int, top);
        (inner.0, inner.1 + 1)
    }
}

/// The tree holds a node for the root and for every process that descends
/// from the root, and for no other.
pub proof fn lemma_tree_holds_the_descendants_of_the_root(tree: ProcessNode, t: Seq<Process>, root: u32, pid: u32)
    requires
        t.len() <= usize::MAX,
        distinct_pids(t),
        has_pid(t, root),
        is_hierarchy(tree, t, root, index_of(t, root)),
    ensures
        find_in(tree, pid) is Some <==> in_tree(t, root, pid),
{
    let top = index_of(t, root);
    if find_in(tree, pid) is Some {
        let at = lemma_found_is_hierarchy(tree, t, root, top, pid);
        assert(has_pid(t, pid));
        assert(index_of(t, pid) == at.0);
        if at.1 >= 1 {
            assert(ancestor_place(t, root, index_of(t, pid), at.1) == index_of(t, root));
        }
    }
    if pid != root && descends_from(t, root, pid, root) {
        let from = index_of(t, pid);
        let steps = choose|steps: nat| steps >= 1 && #[trigger] ancestor_place(t, root, from, steps) == top;
        lemma_hierarchy_holds_descendants(tree, t, root, top, from, steps);
    }
}

/// No process is lost from view: a process whose line of parents ends at
/// the designated root is found in the tree, and one whose line ends at a
/// detached process is found in the hierarchy of that process, which is a
/// root-level node of the forest.
pub proof fn lemma_forest_holds_every_line(forest: ProcessForest, t: Seq<Process>, root: u32, place: int, steps: nat)
    requires
        t.len() <= usize::MAX,
        distinct_pids(t),
        is_forest_of(forest, t, root),
        0 <= place < t.len(),
        is_top(t, root, ancestor_place(t, root, place, steps)),
    ensures
        t[ancestor_place(t, root, place, steps)].process_id == root ==> forest.tree is Some && find_in(
            forest.tree->0,
            t[place].process_id,
        ) is Some,
        t[ancestor_place(t, root, place, steps)].process_id != root ==> exists|j: int|
            0 <= j < forest.detached@.len() && (#[trigger] forest.detached@[j]).process == t[ancestor_place(
                t,
                root,
                place,
                steps,
            )] && find_in(forest.detached@[j], t[place].process_id) is Some,
{
    let top = ancestor_place(t, root, place, steps);
    if t[top].process_id == root {
        assert(has_pid(t, root));
        assert(index_of(t, root) == top);
        lemma_hierarchy_holds_descendants(forest.tree->0, t, root, top, place, steps);
    } else {
        let places = detached_places(t, root, t.len() as int);
        lemma_detached_places(t, root, t.len() as int);
        assert(places.contains(top as usize));
        let j = choose|j: int| 0 <= j < places.len() && places[j] == top as usize;
        assert(is_hierarchy(forest.detached@[j], t, root, places[j] as int));
        lemma_hierarchy_holds_descendants(forest.detached@[j], t, root, top, place, steps);
    }
}

/// No process of a table whose parent links run in no circle is lost from
/// view: each is found in the tree below the root or in the hierarchy of
/// one of the root-level nodes beside it.
pub proof fn lemma_forest_holds_every_process(forest: ProcessForest, t: Seq<Process>, root: u32, place: int)
    requires
        t.len() <= usize::MAX,
        distinct_pids(t),
        acyclic(t, root),
        is_forest_of(forest, t, root),
        0 <= place < t.len(),
    ensures
        (forest.tree is Some && find_in(forest.tree->0, t[place].process_id) is Some) || (exists|j: int|
            0 <= j < forest.detached@.len() && find_in(#[trigger] forest.detached@[j], t[place].process_id)
                is Some),
{
    assert forall|s: nat| s <= 0 implies 0 <= #[trigger] ancestor_place(t, root, place, s) < t.len() by {}
    let steps = lemma_every_line_ends(t, root, place, 0);
    lemma_forest_holds_every_line(forest, t, root, place, steps);
}

/// Every pid listed for the first `count` children of the record at `top`
/// is that of a record from which a line leads to one of these children.
/// The place of the record, the length of the line and the child are
/// returned.
pub proof fn lemma_listed_below_a_child(
    nodes: Seq<ProcessNode>,
    count: int,
    t: Seq<Process>,
    root: u32,
    top: int,
    k: int,
) -> (at: (int, nat, int))
    requires
        t.len() <= usize::MAX,
        distinct_pids(t),
        0 <= top < t.len(),
        0 <= count <= nodes.len(),
        nodes.len() == kids(t, t[top].process_id, root, t.len() as int).len(),
        forall|j: int|
            0 <= j < nodes.len() ==> is_hierarchy(
                #[trigger] nodes[j],
                t,
                root,
                kids(t, t[top].process_id, root, t.len() as int)[j] as int,
            ),
        0 <= k < forest_pids(nodes, count).len(),
    ensures
        0 <= at.0 < t.len(),
        0 <= at.2 < count,
        t[at.0].process_id == forest_pids(nodes, count)[k],
        ancestor_place(t, root, at.0, at.1) == kids(t, t[top].process_id, root, t.len() as int)[at.2] as int,
    decreases nodes, 1nat, count,
{
    let below = kids(t, t[top].process_id, root, t.len() as int);
    lemma_kids(t, t[top].process_id, root, t.len() as int);
    let before = forest_pids(nodes, count - 1);
    let last = nodes[count - 1];
    let place = below[count - 1] as int;
    assert(is_hierarchy(last, t, root, place));
    assert(forest_pids(nodes, count) == before + seq![last.process.process_id] + descendant_pids(last));
    if k < before.len() {
        lemma_listed_below_a_child(nodes, count - 1, t, root, top, k)
    } else if k == before.len() {
        assert(ancestor_place(t, root, place, 0) == place);
        (place, 0, count - 1)
    } else {
        let inner = lemma_descendant_hangs_below(last, t, root, place, k - before.len() - 1);
        (inner.0, inner.1, count - 1)
    }
}

/// A pid listed for the last of the first `count` children, or below it,
/// is that of a record from which a line leads to that child.
pub proof fn lemma_last_block_is_below_last(
    nodes: Seq<ProcessNode>,
    count: int,
    t: Seq<Process>,
    root: u32,
    top: int,
    k: int,
) -> (at: (int, nat))
    requires
        t.len() <= usize::MAX,
        distinct_pids(t),
        0 <= top < t.len(),
        0 < count <= nodes.len(),
        nodes.len() == kids(t, t[top].process_id, root, t.len() as int).len(),
        forall|j: int|
            0 <= j < nodes.len() ==> is_hierarchy(
                #[trigger] nodes[j],
                t,
                root,
                kids(t, t[top].process_id, root, t.len() as int)[j] as int,
            ),
        forest_pids(nodes, count - 1).len() <= k < forest_pids(nodes, count).len(),
    ensures
        0 <= at.0 < t.len(),
        t[at.0].process_id == forest_pids(nodes, count)[k],
        ancestor_place(t, root, at.0, at.1) == kids(t, t[top].process_id, root, t.len() as int)[count - 1] as int,
{
    let below = kids(t, t[top].process_id, root, t.len() as int);
    lemma_kids(t, t[top].process_id, root, t.len() as int);
    let before = forest_pids(nodes, count - 1);
    let last = nodes[count - 1];
    let place = below[count - 1] as int;
    assert(is_hierarchy(last, t, root, place));
    assert(forest_pids(nodes, count) == before + seq![last.process.process_id] + descendant_pids(last));
    if k == before.len() {
        assert(ancestor_place(t, root, place, 0) == place);
        (place, 0)
    } else {
        let inner = lemma_descendant_hangs_below(last, t, root, place, k - before.len() - 1);
        (inner.0, inner.1)
    }
}

/// Every pid below a node of a hierarchy is that of a record from which a
/// line of one or more parents leads to the node's record. The place of
/// that record and the length of the line are returned.
pub proof fn lemma_descendant_hangs_below(node: ProcessNode, t: Seq<Process>, root: u32, top: int, k: int) -> (at: (
    int,
    nat,
))
    requires
        t.len() <= usize::MAX,
        distinct_pids(t),
        is_hierarchy(node, t, root, top),
        0 <= k < descendant_pids(node).len(),
    ensures
        0 <= at.0 < t.len(),
        at.1 >= 1,
        t[at.0].process_id == descendant_pids(node)[k],
        ancestor_place(t, root, at.0, at.1) == top,
    decreases node, 0nat, 0nat,
{
    let at = lemma_listed_below_a_child(node.children@, node.children@.len() as int, t, root, top, k);
    let child = kids(t, t[top].process_id, root, t.len() as int)[at.2] as int;
    lemma_kids(t, t[top].process_id, root, t.len() as int);
    lemma_child_hangs_below(t, root, child, top);
    (at.0, at.1 + 1)
}

/// The pids of the first `count` nodes hold the pid of each of these nodes
/// and every pid below it.
pub proof fn lemma_listed_among(nodes: Seq<ProcessNode>, count: int, j: int)
    requires
        0 <= j < count <= nodes.len(),
    ensures
        forest_pids(nodes, count).contains(nodes[j].process.process_id),
        forall|q: u32| descendant_pids(nodes[j]).contains(q) ==> forest_pids(nodes, count).contains(q),
    decreases count,
{
    let all = forest_pids(nodes, count);
    let before = forest_pids(nodes, count - 1);
    let last = nodes[count - 1];
    assert(all == before + seq![last.process.process_id] + descendant_pids(last));
    if j < count - 1 {
        lemma_listed_among(nodes, count - 1, j);
        let at = choose|k: int| 0 <= k < before.len() && before[k] == nodes[j].process.process_id;
        assert(all[at] == nodes[j].process.process_id);
        assert forall|q: u32| descendant_pids(nodes[j]).contains(q) implies all.contains(q) by {
            assert(forest_pids(nodes, count - 1).contains(q));
            let k = choose|k: int| 0 <= k < before.len() && before[k] == q;
            assert(all[k] == q);
        }
    } else {
        assert(all[before.len() as int] == last.process.process_id);
        assert forall|q: u32| descendant_pids(last).contains(q) implies all.contains(q) by {
            let k = choose|k: int| 0 <= k < descendant_pids(last).len() && descendant_pids(last)[k] == q;
            assert(all[before.len() + 1 + k] == q);
        }
    }
}

/// A pid that is found in a hierarchy and is not that of its top is among
/// the pids below the top.
pub proof fn lemma_found_is_listed(node: ProcessNode, pid: u32)
    requires
        find_in(node, pid) is Some,
        node.process.process_id != pid,
    ensures
        descendant_pids(node).contains(pid),
    decreases node,
{
    let j = lemma_found_in_one(node.children@, pid, 0);
    let child = node.children@[j];
    lemma_listed_among(node.children@, node.children@.len() as int, j);
    if child.process.process_id != pid {
        lemma_found_is_listed(child, pid);
    }
}

/// The pids below the node of `pid` in the tree are those of the processes
/// that descend from `pid`, all of them and no other.
pub proof fn lemma_below_are_the_descendants(tree: ProcessNode, t: Seq<Process>, root: u32, pid: u32)
    requires
        t.len() <= usize::MAX,
        distinct_pids(t),
        has_pid(t, root),
        is_hierarchy(tree, t, root, index_of(t, root)),
        find_in(tree, pid) is Some,
    ensures
        forall|q: u32| descendant_pids(find_in(tree, pid)->0).contains(q) <==> descends_from(t, root, q, pid),
{
    let found = find_in(tree, pid)->0;
    let top = index_of(t, root);
    let at = lemma_found_is_hierarchy(tree, t, root, top, pid);
    let place = at.0;
    assert(has_pid(t, pid));
    assert(index_of(t, pid) == place);
    assert forall|q: u32| descendant_pids(found).contains(q) implies descends_from(t, root, q, pid) by {
        let k = choose|k: int| 0 <= k < descendant_pids(found).len() && descendant_pids(found)[k] == q;
        let under = lemma_descendant_hangs_below(found, t, root, place, k);
        assert(has_pid(t, q));
        assert(index_of(t, q) == under.0);
        assert(ancestor_place(t, root, index_of(t, q), under.1) == index_of(t, pid));
    }
    assert forall|q: u32| descends_from(t, root, q, pid) implies descendant_pids(found).contains(q) by {
        let from = index_of(t, q);
        let steps = choose|steps: nat| steps >= 1 && #[trigger] ancestor_place(t, root, from, steps) == place;
        lemma_hierarchy_holds_descendants(found, t, root, place, from, steps);
        if q == pid {
            assert(from == place);
            lemma_no_circle_on_a_line(t, root, place, at.1, steps);
        }
        lemma_found_is_listed(found, q);
    }
}

/// A process is never among its own descendants: where a node is found in
/// the tree below the root, the pids below that node do not hold the
/// node's own pid.
pub proof fn lemma_ancestor_is_no_descendant(tree: ProcessNode, t: Seq<Process>, root: u32, pid: u32)
    requires
        t.len() <= usize::MAX,
        distinct_pids(t),
        has_pid(t, root),
        is_hierarchy(tree, t, root, index_of(t, root)),
        find_in(tree, pid) is Some,
    ensures
        !descendant_pids(find_in(tree, pid)->0).contains(pid),
{
    let found = find_in(tree, pid)->0;
    let top = index_of(t, root);
    let at = lemma_found_is_hierarchy(tree, t, root, top, pid);
    let place = at.0;
    let steps = at.1;
    if descendant_pids(found).contains(pid) {
        let k = choose|k: int| 0 <= k < descendant_pids(found).len() && descendant_pids(found)[k] == pid;
        let under = lemma_descendant_hangs_below(found, t, root, place, k);
        assert(under.0 == place);
        lemma_no_circle_on_a_line(t, root, place, steps, under.1);
    }
}

/// In the discovery order a parent comes before its children: the parent
/// of every pid below a node is the node itself or stands earlier in the
/// list. The earlier place is returned, or -1 where the parent is the
/// node.
pub proof fn lemma_parents_come_first(node: ProcessNode, t: Seq<Process>, root: u32, top: int, k: int) -> (at: int)
    requires
        t.len() <= usize::MAX,
        distinct_pids(t),
        is_hierarchy(node, t, root, top),
        0 <= k < descendant_pids(node).len(),
    ensures
        has_pid(t, descendant_pids(node)[k]),
        -1 <= at < k,
        at == -1 ==> t[index_of(t, descendant_pids(node)[k])].parent_id == Some(node.process.process_id),
        at >= 0 ==> t[index_of(t, descendant_pids(node)[k])].parent_id == Some(descendant_pids(node)[at]),
    decreases node, 0nat, 0nat,
{
    lemma_parents_come_first_among(node.children@, node.children@.len() as int, t, root, top, k)
}

/// The same for the pids of the first `count` children of the record at
/// `top` and of what is below them.
pub proof fn lemma_parents_come_first_among(
    nodes: Seq<ProcessNode>,
    count: int,
    t: Seq<Process>,
    root: u32,
    top: int,
    k: int,
) -> (at: int)
    requires
        t.len() <= usize::MAX,
        distinct_pids(t),
        0 <= top < t.len(),
        0 <= count <= nodes.len(),
        nodes.len() == kids(t, t[top].process_id, root, t.len() as int).len(),
        forall|j: int|
            0 <= j < nodes.len() ==> is_hierarchy(
                #[trigger] nodes[j],
                t,
                root,
                kids(t, t[top].process_id, root, t.len() as int)[j] as int,
            ),
        0 <= k < forest_pids(nodes, count).len(),
    ensures
        has_pid(t, forest_pids(nodes, count)[k]),
        -1 <= at < k,
        at == -1 ==> t[index_of(t, forest_pids(nodes, count)[k])].parent_id == Some(t[top].process_id),
        at >= 0 ==> t[index_of(t, forest_pids(nodes, count)[k])].parent_id == Some(forest_pids(nodes, count)[at]),
    decreases nodes, 1nat, count,
{
    let below = kids(t, t[top].process_id, root, t.len() as int);
    lemma_kids(t, t[top].process_id, root, t.len() as int);
    let all = forest_pids(nodes, count);
    let before = forest_pids(nodes, count - 1);
    let last = nodes[count - 1];
    let place = below[count - 1] as int;
    assert(is_hierarchy(last, t, root, place));
    assert(all == before + seq![last.process.process_id] + descendant_pids(last));
    if k < before.len() {
        let at = lemma_parents_come_first_among(nodes, count - 1, t, root, top, k);
        if at >= 0 {
            assert(all[at] == before[at]);
        }
        at
    } else if k == before.len() {
        assert(t[place].process_id == all[k]);
        assert(index_of(t, all[k]) == place);
        -1
    } else {
        let inner = lemma_parents_come_first(last, t, root, place, k - before.len() - 1);
        assert(all[k] == descendant_pids(last)[k - before.len() - 1]);
        if inner >= 0 {
            assert(all[before.len() + 1 + inner] == descendant_pids(last)[inner]);
            before.len() + 1 + inner
        } else {
            assert(all[before.len() as int] == last.process.process_id);
            before.len() as int
        }
    }
}

/// No pid is listed twice below a node of a hierarchy whose top lies on a
/// line to a top of the table: the hierarchical view shows no process
/// twice.
pub proof fn lemma_listed_once(node: ProcessNode, t: Seq<Process>, root: u32, top: int, steps: nat)
    requires
        t.len() <= usize::MAX,
        distinct_pids(t),
        is_hierarchy(node, t, root, top),
        is_top(t, root, ancestor_place(t, root, top, steps)),
    ensures
        descendant_pids(node).no_duplicates(),
    decreases node, 0nat, 0nat,
{
    lemma_listed_once_among(node.children@, node.children@.len() as int, t, root, top, steps);
}

/// The same for the pids of the first `count` children of the record at
/// `top` and of what is below them.
pub proof fn lemma_listed_once_among(
    nodes: Seq<ProcessNode>,
    count: int,
    t: Seq<Process>,
    root: u32,
    top: int,
    steps: nat,
)
    requires
        t.len() <= usize::MAX,
        distinct_pids(t),
        0 <= top < t.len(),
        is_top(t, root, ancestor_place(t, root, top, steps)),
        0 <= count <= nodes.len(),
        nodes.len() == kids(t, t[top].process_id, root, t.len() as int).len(),
        forall|j: int|
            0 <= j < nodes.len() ==> is_hierarchy(
                #[trigger] nodes[j],
                t,
                root,
                kids(t, t[top].process_id, root, t.len() as int)[j] as int,
            ),
    ensures
        forest_pids(nodes, count).no_duplicates(),
    decreases nodes, 1nat, count,
{
    if count > 0 {
        let below = kids(t, t[top].process_id, root, t.len() as int);
        lemma_kids(t, t[top].process_id, root, t.len() as int);
        let all = forest_pids(nodes, count);
        let before = forest_pids(nodes, count - 1);
        let last = nodes[count - 1];
        let place = below[count - 1] as int;
        let under = descendant_pids(last);
        assert(is_hierarchy(last, t, root, place));
        assert(all == before + seq![last.process.process_id] + under);
        lemma_child_hangs_below(t, root, place, top);
        lemma_line_continues(t, root, place, 1, steps);
        assert(ancestor_place(t, root, place, 0) == place);
        assert(ancestor_place(t, root, place, 1) == top);
        assert(ancestor_place(t, root, place, steps + 1) == ancestor_place(t, root, top, steps));
        lemma_listed_once_among(nodes, count - 1, t, root, top, steps);
        lemma_listed_once(last, t, root, place, steps + 1);
        assert forall|x: int, y: int| 0 <= x < y < all.len() && all[x] == all[y] implies false by {
            if y < before.len() {
                assert(before[x] == all[x]);
                assert(before[y] == all[y]);
            } else if x < before.len() {
                let early = lemma_listed_below_a_child(nodes, count - 1, t, root, top, x);
                let late = lemma_last_block_is_below_last(nodes, count, t, root, top, y);
                assert(before[x] == all[x]);
                assert(early.0 == late.0);
                lemma_child_hangs_below(t, root, below[early.2] as int, top);
                lemma_one_child_above(t, root, top, steps, early.0, early.1, late.1);
                assert(below[early.2] == below[count - 1]);
            } else if x == before.len() {
                let inner = lemma_descendant_hangs_below(last, t, root, place, y - before.len() - 1);
                assert(all[y] == under[y - before.len() - 1]);
                assert(inner.0 == place);
                lemma_no_circle_on_a_line(t, root, place, steps + 1, inner.1);
            } else {
                assert(all[x] == under[x - before.len() - 1]);
                assert(all[y] == under[y - before.len() - 1]);
            }
        }
    }
}

/// Two hierarchies below the same record list the same pids below their
/// tops, in the same order.
pub proof fn lemma_hierarchies_list_alike(one: ProcessNode, other: ProcessNode, t: Seq<Process>, root: u32, top: int)
    requires
        is_hierarchy(one, t, root, top),
        is_hierarchy(other, t, root, top),
    ensures
        descendant_pids(one) == descendant_pids(other),
    decreases one, 0nat, 0nat,
{
    lemma_children_list_alike(one.children@, other.children@, one.children@.len() as int, t, root, top);
}

/// The same for the first `count` children of the record at `top`.
pub proof fn lemma_children_list_alike(
    ones: Seq<ProcessNode>,
    others: Seq<ProcessNode>,
    count: int,
    t: Seq<Process>,
    root: u32,
    top: int,
)
    requires
        0 <= top < t.len(),
        0 <= count <= ones.len(),
        ones.len() == kids(t, t[top].process_id, root, t.len() as int).len(),
        others.len() == ones.len(),
        forall|j: int|
            0 <= j < ones.len() ==> is_hierarchy(
                #[trigger] ones[j],
                t,
                root,
                kids(t, t[top].process_id, root, t.len() as int)[j] as int,
            ),
        forall|j: int|
            0 <= j < others.len() ==> is_hierarchy(
                #[trigger] others[j],
                t,
                root,
                kids(t, t[top].process_id, root, t.len() as int)[j] as int,
            ),
    ensures
        forest_pids(ones, count) == forest_pids(others, count),
    decreases ones, 1nat, count,
{
    if count > 0 {
        let place = kids(t, t[top].process_id, root, t.len() as int)[count - 1] as int;
        lemma_children_list_alike(ones, others, count - 1, t, root, top);
        assert(is_hierarchy(ones[count - 1], t, root, place));
        assert(is_hierarchy(others[count - 1], t, root, place));
        lemma_hierarchies_list_alike(ones[count - 1], others[count - 1], t, root, place);
    }
}

/// The table decides what a kill of the descendants of `pid` comes to:
/// any two trees of the same table give the same targets or the same
/// error.
pub proof fn lemma_table_decides_targets(
    one: Option<ProcessNode>,
    other: Option<ProcessNode>,
    t: Seq<Process>,
    root: u32,
    pid: u32,
)
    requires
        t.len() <= usize::MAX,
        distinct_pids(t),
        is_tree_of(one, t, root),
        is_tree_of(other, t, root),
    ensures
        descendant_targets(true, one, pid) == descendant_targets(true, other, pid),
{
    if one is Some {
        let top = index_of(t, root);
        let a = one->0;
        let b = other->0;
        if find_in(a, pid) is Some {
            let at = lemma_found_is_hierarchy(a, t, root, top, pid);
            lemma_hierarchy_holds_descendants(b, t, root, top, at.0, at.1);
            let bt = lemma_found_is_hierarchy(b, t, root, top, pid);
            assert(at.0 == bt.0);
            lemma_hierarchies_list_alike(find_in(a, pid)->0, find_in(b, pid)->0, t, root, at.0);
        } else if find_in(b, pid) is Some {
            let bt = lemma_found_is_hierarchy(b, t, root, top, pid);
            lemma_hierarchy_holds_descendants(a, t, root, top, bt.0, bt.1);
        }
    }
}

} // verus!
