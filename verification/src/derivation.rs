//! The order in which the classes of a graph can be built from the leaves
//! up: a class gets its place once one of its nodes has all its children in
//! classes that were placed before.

use crate::cycle_breaking::{pair_node, valid_pair};
use crate::cycles::{lemma_unvisited_count_update, unvisited_count, Status};
use crate::graph::{Class, ClassId, EGraph, Node};
use vstd::prelude::*;

verus! {

/// The place of a class that cannot be built.
pub const UNPLACED: usize = usize::MAX;

/// All children of node `p` are in classes with a place below `limit`.
pub open spec fn children_below(
    egraph: &EGraph,
    place: Seq<usize>,
    p: (ClassId, usize),
    limit: usize,
) -> bool {
    forall|k: int|
        0 <= k < egraph.nodes@[pair_node(egraph, p) as int].children@.len() ==> place[(
        #[trigger] egraph.child_class(pair_node(egraph, p) as int, k)) as int] < limit
}

/// Every class with a place has a node whose children are all in classes
/// with a lower place.
pub open spec fn placement_sound(egraph: &EGraph, place: Seq<usize>) -> bool {
    &&& place.len() == egraph.classes@.len()
    &&& forall|c: ClassId|
        c < place.len() && place[c as int] != UNPLACED ==> exists|i: usize|
            valid_pair(egraph, (c, i)) && #[trigger] children_below(
                egraph,
                place,
                (c, i),
                place[c as int],
            )
}

/// No class without a place could get one: each of its nodes has a child
/// in a class without a place.
pub open spec fn placement_closed(egraph: &EGraph, place: Seq<usize>) -> bool {
    forall|c: ClassId, i: usize|
        c < place.len() && place[c as int] == UNPLACED && valid_pair(egraph, (c, i))
            ==> !#[trigger] children_below(egraph, place, (c, i), UNPLACED)
}

/// Some node of class `c` has all its children in classes with a place.
pub open spec fn can_be_placed(egraph: &EGraph, place: Seq<usize>, c: ClassId) -> bool {
    exists|i: usize|
        valid_pair(egraph, (c, i)) && #[trigger] children_below(egraph, place, (c, i), UNPLACED)
}

/// The places, and the next place to give, after class `c` was looked at:
/// a class without a place gets the next place if it can be placed.
pub open spec fn looked_at(egraph: &EGraph, state: (Seq<usize>, nat), c: ClassId) -> (
    Seq<usize>,
    nat,
) {
    if state.0[c as int] == UNPLACED && can_be_placed(egraph, state.0, c) {
        (state.0.update(c as int, state.1 as usize), state.1 + 1)
    } else {
        state
    }
}

/// The state after the first `m` classes were looked at in their order.
pub open spec fn pass_upto(egraph: &EGraph, state: (Seq<usize>, nat), m: nat) -> (Seq<usize>, nat)
    decreases m,
{
    if m == 0 {
        state
    } else {
        looked_at(egraph, pass_upto(egraph, state, (m - 1) as nat), (m - 1) as ClassId)
    }
}

/// The state after `k` passes over all classes, starting with no class
/// placed.
pub open spec fn after_passes(egraph: &EGraph, k: nat) -> (Seq<usize>, nat)
    decreases k,
{
    if k == 0 {
        (Seq::new(egraph.classes@.len(), |c: int| UNPLACED), 0)
    } else {
        pass_upto(egraph, after_passes(egraph, (k - 1) as nat), egraph.classes@.len())
    }
}

/// `place` is what the passes arrive at: the places after some number of
/// passes, which one more pass leaves as they are.
pub open spec fn placed_by_passes(egraph: &EGraph, place: Seq<usize>) -> bool {
    exists|k: nat|
        (#[trigger] after_passes(egraph, k)).0 == place && pass_upto(
            egraph,
            after_passes(egraph, k),
            egraph.classes@.len(),
        ) == after_passes(egraph, k)
}

/// Once a pass changes nothing, no later pass does.
pub proof fn lemma_passes_settle(egraph: &EGraph, k: nat, more: nat)
    requires
        pass_upto(egraph, after_passes(egraph, k), egraph.classes@.len()) == after_passes(
            egraph,
            k,
        ),
    ensures
        after_passes(egraph, k + more) == after_passes(egraph, k),
    decreases more,
{
    if more > 0 {
        lemma_passes_settle(egraph, k, (more - 1) as nat);
    }
}

/// The passes arrive at one placement only.
pub proof fn lemma_placement_is_unique(egraph: &EGraph, first: Seq<usize>, second: Seq<usize>)
    requires
        placed_by_passes(egraph, first),
        placed_by_passes(egraph, second),
    ensures
        first == second,
{
    let k = choose|k: nat|
        (#[trigger] after_passes(egraph, k)).0 == first && pass_upto(
            egraph,
            after_passes(egraph, k),
            egraph.classes@.len(),
        ) == after_passes(egraph, k);
    let j = choose|j: nat|
        (#[trigger] after_passes(egraph, j)).0 == second && pass_upto(
            egraph,
            after_passes(egraph, j),
            egraph.classes@.len(),
        ) == after_passes(egraph, j);
    if k <= j {
        lemma_passes_settle(egraph, k, (j - k) as nat);
    } else {
        lemma_passes_settle(egraph, j, (k - j) as nat);
    }
}

/// The classes with a place are marked as done.
pub open spec fn marks_placed(place: Seq<usize>, marks: Seq<Status>) -> bool {
    &&& marks.len() == place.len()
    &&& forall|c: int|
        0 <= c < place.len() ==> ((#[trigger] marks[c]) is Unvisited <==> place[c] == UNPLACED)
}

/// Among classes that are all unmarked, all are counted.
pub proof fn lemma_all_unvisited(marks: Seq<Status>)
    requires
        forall|c: int| 0 <= c < marks.len() ==> (#[trigger] marks[c]) is Unvisited,
    ensures
        unvisited_count(marks) == marks.len(),
    decreases marks.len(),
{
    if marks.len() > 0 {
        lemma_all_unvisited(marks.drop_last());
    }
}

/// Whether all children of node `i` of class `c` are in classes with a
/// place below `limit`.
pub fn children_before(
    egraph: &EGraph,
    place: &Vec<usize>,
    c: ClassId,
    i: usize,
    limit: usize,
) -> (ready: bool)
    requires
        egraph.well_formed(),
        place@.len() == egraph.classes@.len(),
        valid_pair(egraph, (c, i)),
    ensures
        ready == children_below(egraph, place@, (c, i), limit),
{
    assert(egraph.class_ok(c as int));
    assert(egraph.member_ok(c as int, i as int));
    let node: &Node = &egraph.nodes[egraph.classes[c].nodes[i]];
    assert(egraph.node_ok(pair_node(egraph, (c, i)) as int));
    let mut k: usize = 0;
    while k < node.children.len()
        invariant
            k <= node.children@.len(),
            egraph.well_formed(),
            place@.len() == egraph.classes@.len(),
            valid_pair(egraph, (c, i)),
            pair_node(egraph, (c, i)) < egraph.nodes@.len(),
            node == egraph.nodes@[pair_node(egraph, (c, i)) as int],
            forall|j: int|
                0 <= j < k ==> place@[(#[trigger] egraph.child_class(
                    pair_node(egraph, (c, i)) as int,
                    j,
                )) as int] < limit,
        decreases node.children@.len() - k,
    {
        assert(egraph.node_ok(pair_node(egraph, (c, i)) as int));
        assert(node.children@[k as int] < egraph.nodes@.len());
        assert(egraph.node_ok(node.children@[k as int] as int));
        let d: ClassId = egraph.nid_to_cid(node.children[k]);
        assert(d == egraph.child_class(pair_node(egraph, (c, i)) as int, k as int));
        if place[d] >= limit {
            return false;
        }
        k += 1;
    }
    true
}

/// The place of each class, [`UNPLACED`] for a class that cannot be built.
///
/// Places are given in passes over the classes in their order: a class
/// without a place gets the next one as soon as one of its nodes has all
/// its children in classes with a place.
#[verifier::rlimit(80)]
pub fn place_classes(egraph: &EGraph) -> (place: Vec<usize>)
    requires
        egraph.well_formed(),
    ensures
        placed_by_passes(egraph, place@),
        placement_sound(egraph, place@),
        placement_closed(egraph, place@),
{
    let n: usize = egraph.classes.len();
    let mut place: Vec<usize> = Vec::new();
    let ghost mut marks: Seq<Status> = Seq::empty();
    let mut c: usize = 0;
    while c < n
        invariant
            c <= n,
            place@.len() == c,
            marks.len() == c,
            forall|d: int| 0 <= d < c ==> place@[d] == UNPLACED,
            forall|d: int| 0 <= d < c ==> (#[trigger] marks[d]) is Unvisited,
        decreases n - c,
    {
        place.push(UNPLACED);
        proof {
            marks = marks.push(Status::Unvisited);
        }
        c += 1;
    }
    proof {
        lemma_all_unvisited(marks);
        assert(place@ =~= after_passes(egraph, 0).0);
    }
    let mut next: usize = 0;
    let mut changed: bool = true;
    let ghost mut passes: nat = 0;
    while changed
        invariant
            (place@, next as nat) == after_passes(egraph, passes),
            !changed ==> pass_upto(egraph, after_passes(egraph, passes), n as nat)
                == after_passes(egraph, passes),
            n == egraph.classes@.len(),
            egraph.well_formed(),
            place@.len() == n,
            marks_placed(place@, marks),
            next + unvisited_count(marks) == n,
            placement_sound(egraph, place@),
            forall|d: int| 0 <= d < n && place@[d] != UNPLACED ==> place@[d] < next,
            !changed ==> placement_closed(egraph, place@),
        decreases unvisited_count(marks), (if changed { 1int } else { 0int }),
    {
        changed = false;
        let ghost start = place@;
        let ghost first = (place@, next as nat);
        let ghost left = unvisited_count(marks);
        let mut ci: usize = 0;
        while ci < n
            invariant
                ci <= n,
                (place@, next as nat) == pass_upto(egraph, first, ci as nat),
                !changed ==> (place@, next as nat) == first,
                n == egraph.classes@.len(),
                egraph.well_formed(),
                place@.len() == n,
                marks_placed(place@, marks),
                next + unvisited_count(marks) == n,
                placement_sound(egraph, place@),
                forall|d: int| 0 <= d < n && place@[d] != UNPLACED ==> place@[d] < next,
                !changed ==> place@ == start && unvisited_count(marks) == left,
                !changed ==> forall|d: ClassId, i: usize|
                    d < ci && place@[d as int] == UNPLACED && valid_pair(egraph, (d, i))
                        ==> !#[trigger] children_below(egraph, place@, (d, i), UNPLACED),
                changed ==> unvisited_count(marks) < left,
            decreases n - ci,
        {
            if place[ci] == UNPLACED {
                let class: &Class = &egraph.classes[ci];
                let mut i: usize = 0;
                let mut found: bool = false;
                while i < class.nodes.len() && !found
                    invariant
                        i <= class.nodes@.len(),
                        ci < n,
                        n == egraph.classes@.len(),
                        egraph.well_formed(),
                        place@.len() == n,
                        class == egraph.classes@[ci as int],
                        forall|w: usize|
                            w < i ==> !#[trigger] children_below(
                                egraph,
                                place@,
                                (ci, w),
                                UNPLACED,
                            ),
                        found ==> i < class.nodes@.len() && children_below(
                            egraph,
                            place@,
                            (ci, i),
                            UNPLACED,
                        ),
                    decreases class.nodes@.len() - i, (if found { 0int } else { 1int }),
                {
                    assert(valid_pair(egraph, (ci, i)));
                    if children_before(egraph, &place, ci, i, UNPLACED) {
                        found = true;
                    } else {
                        i += 1;
                    }
                }
                if found {
                    let ghost before = place@;
                    let ghost marks_before = marks;
                    proof {
                        lemma_unvisited_count_update(marks, ci as int, Status::Done);
                        marks = marks.update(ci as int, Status::Done);
                    }
                    place.set(ci, next);
                    proof {
                        assert(valid_pair(egraph, (ci, i)));
                        assert forall|c: ClassId|
                            c < place@.len() && place@[c as int] != UNPLACED implies exists|
                            w: usize,
                        |
                            valid_pair(egraph, (c, w)) && #[trigger] children_below(
                                egraph,
                                place@,
                                (c, w),
                                place@[c as int],
                            ) by {
                            if c == ci {
                                assert(egraph.class_ok(ci as int));
                                assert(egraph.member_ok(ci as int, i as int));
                                let m = pair_node(egraph, (ci, i)) as int;
                                assert(egraph.node_ok(m));
                                assert forall|k: int|
                                    0 <= k < egraph.nodes@[m].children@.len() implies place@[(
                                #[trigger] egraph.child_class(m, k)) as int] < place@[ci as int] by {
                                    let d = egraph.child_class(m, k);
                                    assert(egraph.node_ok(egraph.nodes@[m].children@[k] as int));
                                    assert(before[d as int] < UNPLACED);
                                }
                                assert(children_below(egraph, place@, (ci, i), place@[ci as int]));
                            } else {
                                let w = choose|w: usize|
                                    valid_pair(egraph, (c, w)) && #[trigger] children_below(
                                        egraph,
                                        before,
                                        (c, w),
                                        before[c as int],
                                    );
                                assert(egraph.class_ok(c as int));
                                assert(egraph.member_ok(c as int, w as int));
                                let m = pair_node(egraph, (c, w)) as int;
                                assert(egraph.node_ok(m));
                                assert forall|k: int|
                                    0 <= k < egraph.nodes@[m].children@.len() implies place@[(
                                #[trigger] egraph.child_class(m, k)) as int] < place@[c as int] by {
                                    let d = egraph.child_class(m, k);
                                    assert(egraph.node_ok(egraph.nodes@[m].children@[k] as int));
                                    assert(before[d as int] < before[c as int]);
                                }
                                assert(children_below(egraph, place@, (c, w), place@[c as int]));
                            }
                        }
                    }
                    next += 1;
                    changed = true;
                    assert(can_be_placed(egraph, before, ci));
                } else {
                    assert(!can_be_placed(egraph, place@, ci)) by {
                        assert forall|w: usize| valid_pair(egraph, (ci, w)) implies !#[trigger] children_below(
                            egraph,
                            place@,
                            (ci, w),
                            UNPLACED,
                        ) by {}
                    }
                }
            }
            ci += 1;
        }
        proof {
            if changed {
                passes = passes + 1;
            }
        }
    }
    place
}

} // verus!
