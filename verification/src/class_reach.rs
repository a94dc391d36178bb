//! Whether one class can be reached from another by steps from a class to
//! the class of a child of one of its nodes.

use crate::cycle_breaking::{
    class_reaches, class_steps, class_uses, lemma_class_reaches_extend, pair_node, valid_pair,
};
use crate::cycles::{lemma_unvisited_count_update, unvisited_count, Status};
use crate::graph::{Class, ClassId, EGraph, Node};
use crate::status_table::StatusTable;
use vstd::prelude::*;

verus! {

/// Every class that a node of a class of `expanded` has a child in is
/// marked.
pub open spec fn uses_marked(egraph: &EGraph, seen: Seq<Status>, expanded: Set<ClassId>) -> bool {
    forall|c: ClassId, i: usize, k: int|
        expanded.contains(c) && valid_pair(egraph, (c, i)) && 0 <= k < egraph.nodes@[pair_node(
            egraph,
            (c, i),
        ) as int].children@.len() ==> seen[(#[trigger] egraph.child_class(
            pair_node(egraph, (c, i)) as int,
            k,
        )) as int] is Done
}

/// The marked classes are exactly the classes of `expanded`.
pub open spec fn all_expanded(seen: Seq<Status>, expanded: Set<ClassId>) -> bool {
    forall|c: ClassId| c < seen.len() ==> ((#[trigger] seen[c as int]) is Done <==> expanded.contains(c))
}

/// Where the marked classes hold every class that they use, they hold
/// every class that can be reached from one of them.
pub proof fn lemma_marked_hold_reached(
    egraph: &EGraph,
    seen: Seq<Status>,
    expanded: Set<ClassId>,
    a: ClassId,
    b: ClassId,
    n: nat,
)
    requires
        egraph.well_formed(),
        seen.len() == egraph.classes@.len(),
        all_expanded(seen, expanded),
        uses_marked(egraph, seen, expanded),
        a < seen.len(),
        seen[a as int] is Done,
        class_steps(egraph, a, b, n),
    ensures
        b < seen.len(),
        seen[b as int] is Done,
    decreases n,
{
    if n > 0 {
        let m = choose|m: ClassId| #[trigger]
            class_uses(egraph, a, m) && class_steps(egraph, m, b, (n - 1) as nat);
        let (i, k) = choose|i: usize, k: int|
            valid_pair(egraph, (a, i)) && 0 <= k < egraph.nodes@[pair_node(
                egraph,
                (a, i),
            ) as int].children@.len() && #[trigger] egraph.child_class(
                pair_node(egraph, (a, i)) as int,
                k,
            ) == m;
        assert(egraph.class_ok(a as int));
        assert(egraph.member_ok(a as int, i as int));
        let node = pair_node(egraph, (a, i)) as int;
        assert(egraph.node_ok(node));
        assert(egraph.node_ok(egraph.nodes@[node].children@[k] as int));
        assert(expanded.contains(a));
        assert(seen[egraph.child_class(pair_node(egraph, (a, i)) as int, k) as int] is Done);
        lemma_marked_hold_reached(egraph, seen, expanded, m, b, (n - 1) as nat);
    }
}

/// The class of a child of a listed node is a class of the graph.
pub proof fn lemma_child_class_in_range(egraph: &EGraph, p: (ClassId, usize), k: int)
    requires
        egraph.well_formed(),
        valid_pair(egraph, p),
        0 <= k < egraph.nodes@[pair_node(egraph, p) as int].children@.len(),
    ensures
        pair_node(egraph, p) < egraph.nodes@.len(),
        egraph.child_class(pair_node(egraph, p) as int, k) < egraph.classes@.len(),
{
    assert(egraph.class_ok(p.0 as int));
    assert(egraph.member_ok(p.0 as int, p.1 as int));
    let node = pair_node(egraph, p) as int;
    assert(egraph.node_ok(node));
    assert(egraph.node_ok(egraph.nodes@[node].children@[k] as int));
}

/// Whether class `to` can be reached from class `from`, or is `from`.
#[verifier::rlimit(100)]
pub fn reaches_class(egraph: &EGraph, from: ClassId, to: ClassId) -> (found: bool)
    requires
        egraph.well_formed(),
        from < egraph.classes@.len(),
        to < egraph.classes@.len(),
    ensures
        found == class_reaches(egraph, from, to),
{
    let n: usize = egraph.classes.len();
    let mut seen: StatusTable = StatusTable::new(n);
    proof {
        lemma_unvisited_count_update(seen@, from as int, Status::Done);
        assert(class_steps(egraph, from, from, 0));
    }
    seen.set(from, Status::Done);
    let mut worklist: Vec<ClassId> = Vec::new();
    worklist.push(from);
    let ghost mut expanded: Set<ClassId> = Set::empty();
    assert(worklist@[0] == from);
    assert(worklist@.contains(from));
    while worklist.len() > 0
        invariant
            n == egraph.classes@.len(),
            egraph.well_formed(),
            from < n,
            to < n,
            seen@.len() == n,
            forall|w: int|
                0 <= w < worklist@.len() ==> (#[trigger] worklist@[w]) < n && seen@[worklist@[w] as int] is Done,
            forall|c: ClassId|
                c < n && (#[trigger] seen@[c as int]) is Done ==> class_reaches(egraph, from, c),
            forall|c: ClassId|
                c < n && (#[trigger] seen@[c as int]) is Done ==> expanded.contains(c)
                    || worklist@.contains(c),
            forall|c: ClassId| #[trigger]
                expanded.contains(c) ==> c < n && c != to && seen@[c as int] is Done,
            uses_marked(egraph, seen@, expanded),
            seen@[from as int] is Done,
            forall|c: int| 0 <= c < n ==> !((#[trigger] seen@[c]) is InProgress),
        decreases unvisited_count(seen@), worklist@.len(),
    {
        let ghost list0 = worklist@;
        let ghost left0 = unvisited_count(seen@);
        let x: ClassId = worklist.pop().unwrap();
        assert(x == list0[list0.len() - 1]);
        if x == to {
            return true;
        }
        let ghost list1 = worklist@;
        assert forall|c: ClassId|
            c < n && (#[trigger] seen@[c as int]) is Done implies expanded.contains(c)
            || list1.contains(c) || c == x by {
            if list0.contains(c) && c != x {
                let w = choose|w: int| 0 <= w < list0.len() && list0[w] == c;
                assert(list1[w] == c);
            }
        }
        let class: &Class = &egraph.classes[x];
        assert(egraph.class_ok(x as int));
        let mut j: usize = 0;
        while j < class.nodes.len()
            invariant
                j <= class.nodes@.len(),
                n == egraph.classes@.len(),
                egraph.well_formed(),
                from < n,
                to < n,
                x < n,
                x != to,
                class == egraph.classes@[x as int],
                seen@.len() == n,
                seen@[x as int] is Done,
                seen@[from as int] is Done,
                forall|w: int|
                    0 <= w < worklist@.len() ==> (#[trigger] worklist@[w]) < n && seen@[worklist@[w] as int] is Done,
                forall|c: ClassId|
                    c < n && (#[trigger] seen@[c as int]) is Done ==> class_reaches(egraph, from, c),
                forall|c: ClassId|
                    c < n && (#[trigger] seen@[c as int]) is Done ==> expanded.contains(c)
                        || worklist@.contains(c) || c == x,
                forall|c: ClassId| #[trigger]
                    expanded.contains(c) ==> c < n && c != to && seen@[c as int] is Done,
                uses_marked(egraph, seen@, expanded),
                forall|c: int| 0 <= c < n ==> !((#[trigger] seen@[c]) is InProgress),
                unvisited_count(seen@) < left0 || (unvisited_count(seen@) == left0
                    && worklist@.len() == list0.len() - 1),
                forall|i: usize, k: int|
                    i < j && 0 <= k < egraph.nodes@[pair_node(egraph, (x, i)) as int].children@.len()
                        ==> seen@[(#[trigger] egraph.child_class(
                        pair_node(egraph, (x, i)) as int,
                        k,
                    )) as int] is Done,
            decreases class.nodes@.len() - j,
        {
            assert(egraph.class_ok(x as int));
            assert(egraph.member_ok(x as int, j as int));
            assert(valid_pair(egraph, (x, j)));
            let node: &Node = &egraph.nodes[class.nodes[j]];
            assert(egraph.node_ok(pair_node(egraph, (x, j)) as int));
            let mut k: usize = 0;
            while k < node.children.len()
                invariant
                    k <= node.children@.len(),
                    j < class.nodes@.len(),
                    n == egraph.classes@.len(),
                    egraph.well_formed(),
                    from < n,
                    to < n,
                    x < n,
                    x != to,
                    class == egraph.classes@[x as int],
                    valid_pair(egraph, (x, j)),
                    pair_node(egraph, (x, j)) < egraph.nodes@.len(),
                    node == egraph.nodes@[pair_node(egraph, (x, j)) as int],
                    seen@.len() == n,
                    seen@[x as int] is Done,
                    seen@[from as int] is Done,
                    forall|w: int|
                        0 <= w < worklist@.len() ==> (#[trigger] worklist@[w]) < n && seen@[worklist@[w] as int] is Done,
                    forall|c: ClassId|
                        c < n && (#[trigger] seen@[c as int]) is Done ==> class_reaches(
                            egraph,
                            from,
                            c,
                        ),
                    forall|c: ClassId|
                        c < n && (#[trigger] seen@[c as int]) is Done ==> expanded.contains(c)
                            || worklist@.contains(c) || c == x,
                    forall|c: ClassId| #[trigger]
                        expanded.contains(c) ==> c < n && c != to && seen@[c as int] is Done,
                    uses_marked(egraph, seen@, expanded),
                    forall|c: int| 0 <= c < n ==> !((#[trigger] seen@[c]) is InProgress),
                    unvisited_count(seen@) < left0 || (unvisited_count(seen@) == left0
                        && worklist@.len() == list0.len() - 1),
                    forall|i: usize, w: int|
                        i < j && 0 <= w < egraph.nodes@[pair_node(
                            egraph,
                            (x, i),
                        ) as int].children@.len() ==> seen@[(#[trigger] egraph.child_class(
                            pair_node(egraph, (x, i)) as int,
                            w,
                        )) as int] is Done,
                    forall|w: int|
                        0 <= w < k ==> seen@[(#[trigger] egraph.child_class(
                            pair_node(egraph, (x, j)) as int,
                            w,
                        )) as int] is Done,
                decreases node.children@.len() - k,
            {
                assert(egraph.node_ok(pair_node(egraph, (x, j)) as int));
                assert(node.children@[k as int] < egraph.nodes@.len());
                assert(egraph.node_ok(node.children@[k as int] as int));
                let y: ClassId = egraph.nid_to_cid(node.children[k]);
                assert(y == egraph.child_class(pair_node(egraph, (x, j)) as int, k as int));
                proof {
                    assert(class_uses(egraph, x, y));
                    lemma_class_reaches_extend(egraph, from, x, y);
                }
                match seen.get(y) {
                    Status::Done => {},
                    _ => {
                        let ghost seen0 = seen@;
                        let ghost list2 = worklist@;
                        proof {
                            lemma_unvisited_count_update(seen@, y as int, Status::Done);
                        }
                        seen.set(y, Status::Done);
                        worklist.push(y);
                        proof {
                            assert(worklist@[list2.len() as int] == y);
                            assert forall|c: ClassId|
                                c < n && (#[trigger] seen@[c as int]) is Done implies expanded.contains(
                                c,
                            ) || worklist@.contains(c) || c == x by {
                                if c != y && list2.contains(c) {
                                    let w = choose|w: int| 0 <= w < list2.len() && list2[w] == c;
                                    assert(worklist@[w] == c);
                                }
                            }
                            assert forall|w: int| 0 <= w < worklist@.len() implies (
                            #[trigger] worklist@[w]) < n && seen@[worklist@[w] as int] is Done by {
                                if w < list2.len() {
                                    assert(worklist@[w] == list2[w]);
                                }
                            }
                            assert forall|c: ClassId, i: usize, w: int|
                                expanded.contains(c) && valid_pair(egraph, (c, i)) && 0 <= w
                                    < egraph.nodes@[pair_node(egraph, (c, i)) as int].children@.len() implies seen@[(
                            #[trigger] egraph.child_class(pair_node(egraph, (c, i)) as int, w)) as int] is Done by {
                                lemma_child_class_in_range(egraph, (c, i), w);
                                assert(seen0[egraph.child_class(
                                    pair_node(egraph, (c, i)) as int,
                                    w,
                                ) as int] is Done);
                            }
                            assert forall|i: usize, w: int|
                                i < j && 0 <= w < egraph.nodes@[pair_node(
                                    egraph,
                                    (x, i),
                                ) as int].children@.len() implies seen@[(
                            #[trigger] egraph.child_class(pair_node(egraph, (x, i)) as int, w)) as int] is Done by {
                                assert(valid_pair(egraph, (x, i)));
                                lemma_child_class_in_range(egraph, (x, i), w);
                                assert(seen0[egraph.child_class(
                                    pair_node(egraph, (x, i)) as int,
                                    w,
                                ) as int] is Done);
                            }
                            assert forall|w: int| 0 <= w < k + 1 implies seen@[(
                            #[trigger] egraph.child_class(pair_node(egraph, (x, j)) as int, w)) as int] is Done by {
                                lemma_child_class_in_range(egraph, (x, j), w);
                                if w < k {
                                    assert(seen0[egraph.child_class(
                                        pair_node(egraph, (x, j)) as int,
                                        w,
                                    ) as int] is Done);
                                }
                            }
                        }
                    },
                }
                k += 1;
            }
            j += 1;
        }
        proof {
            let grown = expanded.insert(x);
            assert forall|c: ClassId, i: usize, k: int|
                grown.contains(c) && valid_pair(egraph, (c, i)) && 0 <= k < egraph.nodes@[pair_node(
                    egraph,
                    (c, i),
                ) as int].children@.len() implies seen@[(#[trigger] egraph.child_class(
                pair_node(egraph, (c, i)) as int,
                k,
            )) as int] is Done by {
                if c == x {
                    assert(i < j);
                }
            }
            expanded = grown;
        }
    }
    proof {
        if class_reaches(egraph, from, to) {
            let steps = choose|steps: nat| #[trigger] class_steps(egraph, from, to, steps);
            assert forall|c: ClassId| c < seen@.len() implies ((#[trigger] seen@[c as int]) is Done
                <==> expanded.contains(c)) by {
                if seen@[c as int] is Done {
                    assert(!worklist@.contains(c));
                }
            }
            lemma_marked_hold_reached(egraph, seen@, expanded, from, to, steps);
            assert(expanded.contains(to));
            assert(false);
        }
    }
    false
}

} // verus!
