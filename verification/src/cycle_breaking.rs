//! The pass that runs before an exact extraction: it finds the nodes that
//! must not be chosen, so that whatever is chosen among the others forms no
//! cycle.
//!
//! The classes are placed from the leaves up. A node that lies on a cycle
//! of classes and has a child in a class that is not placed before its own
//! is banned. Every node that is left leads only to classes of a lower
//! rank: to a class that reaches fewer classes, or to one that reaches the
//! same classes and is placed earlier.

use crate::class_reach::{lemma_child_class_in_range, reaches_class};
use crate::derivation::{
    children_before, children_below, place_classes, placed_by_passes, placement_closed,
    placement_sound, UNPLACED,
};
use crate::graph::{Class, ClassId, EGraph, Node, NodeId};
use vstd::prelude::*;

verus! {

/// `p` names a node of the graph by its class and its position in the
/// class.
pub open spec fn valid_pair(egraph: &EGraph, p: (ClassId, usize)) -> bool {
    p.0 < egraph.classes@.len() && p.1 < egraph.classes@[p.0 as int].nodes@.len()
}

/// The node that `p` names.
pub open spec fn pair_node(egraph: &EGraph, p: (ClassId, usize)) -> NodeId {
    egraph.classes@[p.0 as int].nodes@[p.1 as int]
}

/// Every pair names a node of the graph.
pub open spec fn all_valid(egraph: &EGraph, pairs: Seq<(ClassId, usize)>) -> bool {
    forall|w: int| 0 <= w < pairs.len() ==> valid_pair(egraph, #[trigger] pairs[w])
}

/// With the nodes of `banned` left out, every class ranks strictly above
/// the classes of the children of each of its nodes: no choice among the
/// nodes that are left can close a cycle.
pub open spec fn breaks_cycles(
    egraph: &EGraph,
    banned: Seq<(ClassId, usize)>,
    rank: spec_fn(ClassId) -> nat,
) -> bool {
    forall|c: ClassId, i: usize, k: int|
        valid_pair(egraph, (c, i)) && !banned.contains((c, i)) && 0 <= k
            < egraph.nodes@[pair_node(egraph, (c, i)) as int].children@.len() ==> rank(
            #[trigger] egraph.child_class(pair_node(egraph, (c, i)) as int, k),
        ) < rank(c)
}

/// Some node of class `a` has a child in class `b`.
pub open spec fn class_uses(egraph: &EGraph, a: ClassId, b: ClassId) -> bool {
    exists|i: usize, k: int|
        valid_pair(egraph, (a, i)) && 0 <= k < egraph.nodes@[pair_node(
            egraph,
            (a, i),
        ) as int].children@.len() && #[trigger] egraph.child_class(
            pair_node(egraph, (a, i)) as int,
            k,
        ) == b
}

/// Class `b` can be reached from class `a` in `n` steps, each from a class
/// to the class of a child of one of its nodes.
pub open spec fn class_steps(egraph: &EGraph, a: ClassId, b: ClassId, n: nat) -> bool
    decreases n,
{
    if n == 0 {
        a == b
    } else {
        exists|m: ClassId| #[trigger]
            class_uses(egraph, a, m) && class_steps(egraph, m, b, (n - 1) as nat)
    }
}

/// Class `b` can be reached from class `a`, or is `a`.
pub open spec fn class_reaches(egraph: &EGraph, a: ClassId, b: ClassId) -> bool {
    exists|n: nat| #[trigger] class_steps(egraph, a, b, n)
}

/// The node that `p` names lies on a cycle of classes: its class can be
/// reached from the class of one of its children.
pub open spec fn on_cycle(egraph: &EGraph, p: (ClassId, usize)) -> bool {
    exists|k: int|
        0 <= k < egraph.nodes@[pair_node(egraph, p) as int].children@.len() && class_reaches(
            egraph,
            #[trigger] egraph.child_class(pair_node(egraph, p) as int, k),
            p.0,
        )
}

/// Every pair names a node on a cycle of classes.
pub open spec fn all_on_cycle(egraph: &EGraph, pairs: Seq<(ClassId, usize)>) -> bool {
    forall|w: int| 0 <= w < pairs.len() ==> on_cycle(egraph, #[trigger] pairs[w])
}

/// A way from class to class can be made one step longer at its end.
pub proof fn lemma_class_steps_extend(egraph: &EGraph, a: ClassId, c: ClassId, d: ClassId, n: nat)
    requires
        class_steps(egraph, a, c, n),
        class_uses(egraph, c, d),
    ensures
        class_steps(egraph, a, d, n + 1),
    decreases n,
{
    if n == 0 {
        assert(class_steps(egraph, d, d, 0));
        assert(class_uses(egraph, a, d) && class_steps(egraph, d, d, 0));
    } else {
        let m = choose|m: ClassId| #[trigger]
            class_uses(egraph, a, m) && class_steps(egraph, m, c, (n - 1) as nat);
        lemma_class_steps_extend(egraph, m, c, d, (n - 1) as nat);
        assert(class_uses(egraph, a, m) && class_steps(egraph, m, d, n));
    }
}

/// What is reached before a class is used is reached through the use.
pub proof fn lemma_class_reaches_extend(egraph: &EGraph, a: ClassId, c: ClassId, d: ClassId)
    requires
        class_reaches(egraph, a, c),
        class_uses(egraph, c, d),
    ensures
        class_reaches(egraph, a, d),
{
    let n = choose|n: nat| #[trigger] class_steps(egraph, a, c, n);
    lemma_class_steps_extend(egraph, a, c, d, n);
    assert(class_steps(egraph, a, d, n + 1));
}

/// The graph has no cycle of classes: no class can be reached from the
/// class of a child of one of its nodes.
pub open spec fn acyclic_classes(egraph: &EGraph) -> bool {
    forall|p: (ClassId, usize)| valid_pair(egraph, p) ==> !#[trigger] on_cycle(egraph, p)
}

/// Where a ranking orders all nodes, every step from class to class goes
/// down in rank.
pub proof fn lemma_class_steps_rank(
    egraph: &EGraph,
    rank: spec_fn(ClassId) -> nat,
    a: ClassId,
    b: ClassId,
    n: nat,
)
    requires
        breaks_cycles(egraph, Seq::empty(), rank),
        class_steps(egraph, a, b, n),
    ensures
        rank(b) + n <= rank(a),
    decreases n,
{
    if n > 0 {
        let m = choose|m: ClassId| #[trigger]
            class_uses(egraph, a, m) && class_steps(egraph, m, b, (n - 1) as nat);
        let (i, k) = choose|i: usize, k: int|
            valid_pair(egraph, (a, i)) && 0 <= k < egraph.nodes@[pair_node(
                egraph,
                (a, i),
            ) as int].children@.len() && #[trigger] egraph.child_class(
                pair_node(egraph, (a, i)) as int,
                k,
            ) == m;
        assert(!Seq::<(ClassId, usize)>::empty().contains((a, i)));
        assert(rank(egraph.child_class(pair_node(egraph, (a, i)) as int, k)) < rank(a));
        lemma_class_steps_rank(egraph, rank, m, b, (n - 1) as nat);
    }
}

/// A graph whose classes can be ranked with no node left out has no cycle
/// of classes.
pub proof fn lemma_ranked_graph_is_acyclic(egraph: &EGraph, rank: spec_fn(ClassId) -> nat)
    requires
        breaks_cycles(egraph, Seq::empty(), rank),
    ensures
        acyclic_classes(egraph),
{
    assert forall|p: (ClassId, usize)| valid_pair(egraph, p) implies !#[trigger] on_cycle(
        egraph,
        p,
    ) by {
        if on_cycle(egraph, p) {
            let k = choose|k: int|
                0 <= k < egraph.nodes@[pair_node(egraph, p) as int].children@.len()
                    && class_reaches(
                    egraph,
                    #[trigger] egraph.child_class(pair_node(egraph, p) as int, k),
                    p.0,
                );
            let d = egraph.child_class(pair_node(egraph, p) as int, k);
            let n = choose|n: nat| #[trigger] class_steps(egraph, d, p.0, n);
            lemma_class_steps_rank(egraph, rank, d, p.0, n);
            assert(!Seq::<(ClassId, usize)>::empty().contains((p.0, p.1)));
            assert(valid_pair(egraph, (p.0, p.1)));
            assert(pair_node(egraph, (p.0, p.1)) == pair_node(egraph, p));
            assert(rank(egraph.child_class(pair_node(egraph, (p.0, p.1)) as int, k)) < rank(p.0));
        }
    }
}

/// In a graph without a cycle of classes, nodes on a cycle are none.
pub proof fn lemma_no_cycle_no_ban(egraph: &EGraph, banned: Seq<(ClassId, usize)>)
    requires
        acyclic_classes(egraph),
        all_valid(egraph, banned),
        all_on_cycle(egraph, banned),
    ensures
        banned.len() == 0,
{
    if banned.len() > 0 {
        assert(valid_pair(egraph, banned[0]));
        assert(on_cycle(egraph, banned[0]));
    }
}

/// Whether the node that `p` names lies on a cycle of classes.
pub fn lies_on_cycle(egraph: &EGraph, p: (ClassId, usize)) -> (found: bool)
    requires
        egraph.well_formed(),
        valid_pair(egraph, p),
    ensures
        found == on_cycle(egraph, p),
{
    assert(egraph.class_ok(p.0 as int));
    assert(egraph.member_ok(p.0 as int, p.1 as int));
    let node: &Node = &egraph.nodes[egraph.classes[p.0].nodes[p.1]];
    assert(egraph.node_ok(pair_node(egraph, p) as int));
    let mut k: usize = 0;
    while k < node.children.len()
        invariant
            k <= node.children@.len(),
            egraph.well_formed(),
            valid_pair(egraph, p),
            pair_node(egraph, p) < egraph.nodes@.len(),
            node == egraph.nodes@[pair_node(egraph, p) as int],
            forall|w: int|
                0 <= w < k ==> !class_reaches(
                    egraph,
                    #[trigger] egraph.child_class(pair_node(egraph, p) as int, w),
                    p.0,
                ),
        decreases node.children@.len() - k,
    {
        assert(egraph.node_ok(pair_node(egraph, p) as int));
        assert(node.children@[k as int] < egraph.nodes@.len());
        assert(egraph.node_ok(node.children@[k as int] as int));
        let d: ClassId = egraph.nid_to_cid(node.children[k]);
        assert(d == egraph.child_class(pair_node(egraph, p) as int, k as int));
        if reaches_class(egraph, d, p.0) {
            return true;
        }
        k += 1;
    }
    false
}

/// What is reached from a class that a class uses is reached from the
/// using class.
pub proof fn lemma_class_reaches_through(egraph: &EGraph, a: ClassId, m: ClassId, b: ClassId)
    requires
        class_uses(egraph, a, m),
        class_reaches(egraph, m, b),
    ensures
        class_reaches(egraph, a, b),
{
    let n = choose|n: nat| #[trigger] class_steps(egraph, m, b, n);
    assert(class_uses(egraph, a, m) && class_steps(egraph, m, b, n));
    assert(class_steps(egraph, a, b, n + 1));
}

/// Node `p` points upwards on a cycle: it lies on a cycle of classes, and
/// one of its children is in a class that is not placed before its own.
pub open spec fn banned_at_first(egraph: &EGraph, place: Seq<usize>, p: (ClassId, usize)) -> bool {
    !children_below(egraph, place, p, place[p.0 as int]) && on_cycle(egraph, p)
}

/// The pairs are listed in the order of the classes and, within a class,
/// of its nodes, each once.
pub open spec fn listed_in_order(pairs: Seq<(ClassId, usize)>) -> bool {
    forall|v: int, w: int|
        0 <= v < w < pairs.len() ==> (#[trigger] pairs[v]).0 < (#[trigger] pairs[w]).0 || (
        pairs[v].0 == pairs[w].0 && pairs[v].1 < pairs[w].1)
}

/// `banned` holds exactly the nodes that lie on a cycle of classes and
/// have a child in a class that `place` does not put before their own, for
/// a placement of the classes from the leaves up.
pub open spec fn bans_by(egraph: &EGraph, banned: Seq<(ClassId, usize)>, place: Seq<usize>) -> bool {
    &&& placement_sound(egraph, place)
    &&& placement_closed(egraph, place)
    &&& forall|p: (ClassId, usize)|
        valid_pair(egraph, p) ==> (banned.contains(p) <==> #[trigger] banned_at_first(
            egraph,
            place,
            p,
        ))
}

/// Every class with a place keeps a node that is not banned and has all
/// its children in classes with a lower place: what can be built from the
/// leaves up can be built without a banned node.
pub proof fn lemma_placed_class_keeps_a_node(
    egraph: &EGraph,
    banned: Seq<(ClassId, usize)>,
    place: Seq<usize>,
    c: ClassId,
)
    requires
        bans_by(egraph, banned, place),
        c < egraph.classes@.len(),
        place[c as int] != UNPLACED,
    ensures
        exists|i: usize|
            valid_pair(egraph, (c, i)) && !banned.contains((c, i)) && #[trigger] children_below(
                egraph,
                place,
                (c, i),
                place[c as int],
            ),
{
    let i = choose|i: usize|
        valid_pair(egraph, (c, i)) && #[trigger] children_below(
            egraph,
            place,
            (c, i),
            place[c as int],
        );
    assert(!banned_at_first(egraph, place, (c, i)));
}

/// The number of classes with an id below `m` that class `c` reaches.
pub open spec fn reach_count(egraph: &EGraph, c: ClassId, m: nat) -> nat
    decreases m,
{
    if m == 0 {
        0
    } else {
        reach_count(egraph, c, (m - 1) as nat) + if class_reaches(egraph, c, (m - 1) as ClassId) {
            1nat
        } else {
            0nat
        }
    }
}

/// A class that reaches all that another reaches, reaches no fewer
/// classes.
pub proof fn lemma_reach_count_le(egraph: &EGraph, a: ClassId, b: ClassId, m: nat)
    requires
        forall|e: ClassId| #[trigger] class_reaches(egraph, b, e) ==> class_reaches(egraph, a, e),
    ensures
        reach_count(egraph, b, m) <= reach_count(egraph, a, m),
    decreases m,
{
    if m > 0 {
        lemma_reach_count_le(egraph, a, b, (m - 1) as nat);
    }
}

/// A class that reaches all that another reaches, and one class more,
/// reaches more classes.
pub proof fn lemma_reach_count_lt(egraph: &EGraph, a: ClassId, b: ClassId, m: nat, more: ClassId)
    requires
        forall|e: ClassId| #[trigger] class_reaches(egraph, b, e) ==> class_reaches(egraph, a, e),
        more < m,
        class_reaches(egraph, a, more),
        !class_reaches(egraph, b, more),
    ensures
        reach_count(egraph, b, m) < reach_count(egraph, a, m),
    decreases m,
{
    if more == m - 1 {
        lemma_reach_count_le(egraph, a, b, (m - 1) as nat);
    } else {
        lemma_reach_count_lt(egraph, a, b, (m - 1) as nat, more);
    }
}

/// The rank of a class: first by the number of classes it reaches, then
/// by its place.
pub open spec fn class_rank(egraph: &EGraph, place: Seq<usize>, c: ClassId) -> nat {
    (reach_count(egraph, c, egraph.classes@.len()) * (usize::MAX + 1) + place[c as int]) as nat
}

/// With the nodes left out that point upwards on a cycle, every node
/// leads only to classes of a lower rank: no choice among the nodes that
/// are left can close a cycle.
pub proof fn lemma_bans_break_cycles(
    egraph: &EGraph,
    banned: Seq<(ClassId, usize)>,
    place: Seq<usize>,
)
    requires
        egraph.well_formed(),
        bans_by(egraph, banned, place),
    ensures
        breaks_cycles(egraph, banned, |c: ClassId| class_rank(egraph, place, c)),
{
    let rank = |c: ClassId| class_rank(egraph, place, c);
    let n = egraph.classes@.len() as nat;
    assert forall|c: ClassId, i: usize, k: int|
        valid_pair(egraph, (c, i)) && !banned.contains((c, i)) && 0 <= k
            < egraph.nodes@[pair_node(egraph, (c, i)) as int].children@.len() implies rank(
        #[trigger] egraph.child_class(pair_node(egraph, (c, i)) as int, k),
    ) < rank(c) by {
        let d = egraph.child_class(pair_node(egraph, (c, i)) as int, k);
        lemma_child_class_in_range(egraph, (c, i), k);
        assert(class_uses(egraph, c, d));
        assert forall|e: ClassId| #[trigger] class_reaches(egraph, d, e) implies class_reaches(
            egraph,
            c,
            e,
        ) by {
            lemma_class_reaches_through(egraph, c, d, e);
        }
        let below = reach_count(egraph, d, n);
        let above = reach_count(egraph, c, n);
        if class_reaches(egraph, d, c) {
            assert(on_cycle(egraph, (c, i)));
            assert(!banned_at_first(egraph, place, (c, i)));
            assert(place[d as int] < place[c as int]);
            lemma_reach_count_le(egraph, c, d, n);
            assert(below * (usize::MAX + 1) <= above * (usize::MAX + 1)) by (nonlinear_arith)
                requires
                    below <= above,
            ;
        } else {
            assert(class_steps(egraph, c, c, 0));
            lemma_reach_count_lt(egraph, c, d, n, c);
            assert((below + 1) * (usize::MAX + 1) <= above * (usize::MAX + 1)) by (nonlinear_arith)
                requires
                    below + 1 <= above,
            ;
            assert((below + 1) * (usize::MAX + 1) == below * (usize::MAX + 1) + (usize::MAX + 1))
                by (nonlinear_arith);
        }
    }
}

/// The nodes that an exact extraction must not choose, in the order of
/// the classes and of the nodes in them.
///
/// The classes are placed from the leaves up. A node is banned if it lies
/// on a cycle of classes and has a child in a class that is not placed
/// before its own class.
///
/// Every banned node lies on a cycle of classes, so a graph without such a
/// cycle has no banned node. With the banned nodes left out, no choice of
/// nodes can close a cycle (see [`lemma_bans_break_cycles`]). And every
/// class that can be built from the leaves up keeps a node to be built
/// with (see [`lemma_placed_class_keeps_a_node`]).
#[verifier::rlimit(80)]
pub fn find_cycles(egraph: &EGraph) -> (banned: Vec<(ClassId, usize)>)
    requires
        egraph.well_formed(),
    ensures
        all_valid(egraph, banned@),
        all_on_cycle(egraph, banned@),
        acyclic_classes(egraph) ==> banned@.len() == 0,
        listed_in_order(banned@),
        exists|place: Seq<usize>|
            placed_by_passes(egraph, place) && #[trigger] bans_by(egraph, banned@, place),
        exists|rank: spec_fn(ClassId) -> nat| breaks_cycles(egraph, banned@, rank),
{
    let n: usize = egraph.classes.len();
    let place: Vec<usize> = place_classes(egraph);
    let mut banned: Vec<(ClassId, usize)> = Vec::new();
    let mut c: usize = 0;
    while c < n
        invariant
            c <= n,
            n == egraph.classes@.len(),
            egraph.well_formed(),
            placement_sound(egraph, place@),
            listed_in_order(banned@),
            forall|w: int|
                0 <= w < banned@.len() ==> valid_pair(egraph, #[trigger] banned@[w])
                    && banned_at_first(egraph, place@, banned@[w]) && banned@[w].0 < c,
            forall|d: ClassId, i: usize|
                d < c && valid_pair(egraph, (d, i)) && #[trigger] banned_at_first(
                    egraph,
                    place@,
                    (d, i),
                ) ==> banned@.contains((d, i)),
        decreases n - c,
    {
        let class: &Class = &egraph.classes[c];
        let mut i: usize = 0;
        while i < class.nodes.len()
            invariant
                i <= class.nodes@.len(),
                c < n,
                n == egraph.classes@.len(),
                egraph.well_formed(),
                class == egraph.classes@[c as int],
                placement_sound(egraph, place@),
                listed_in_order(banned@),
                forall|w: int|
                    0 <= w < banned@.len() ==> valid_pair(egraph, #[trigger] banned@[w])
                        && banned_at_first(egraph, place@, banned@[w]) && (banned@[w].0 < c || (
                    banned@[w].0 == c && banned@[w].1 < i)),
                forall|d: ClassId, w: usize|
                    (d < c || (d == c && w < i)) && valid_pair(egraph, (d, w))
                        && #[trigger] banned_at_first(egraph, place@, (d, w)) ==> banned@.contains(
                        (d, w),
                    ),
            decreases class.nodes@.len() - i,
        {
            assert(valid_pair(egraph, (c, i)));
            let upwards: bool = !children_before(egraph, &place, c, i, place[c]);
            let ghost before = banned@;
            if upwards && lies_on_cycle(egraph, (c, i)) {
                banned.push((c, i));
                proof {
                    assert(banned@[before.len() as int] == (c, i));
                    assert forall|v: int, w: int| 0 <= v < w < banned@.len() implies (
                    #[trigger] banned@[v]).0 < (#[trigger] banned@[w]).0 || (banned@[v].0
                        == banned@[w].0 && banned@[v].1 < banned@[w].1) by {
                        assert(banned@[v] == before[v]);
                        if w < before.len() {
                            assert(banned@[w] == before[w]);
                        }
                    }
                    assert forall|w: int| 0 <= w < banned@.len() implies valid_pair(
                        egraph,
                        #[trigger] banned@[w],
                    ) && banned_at_first(egraph, place@, banned@[w]) && (banned@[w].0 < c || (
                    banned@[w].0 == c && banned@[w].1 < i + 1)) by {
                        if w < before.len() {
                            assert(banned@[w] == before[w]);
                        }
                    }
                }
            }
            proof {
                assert forall|d: ClassId, w: usize|
                    (d < c || (d == c && w < i + 1)) && valid_pair(egraph, (d, w))
                        && #[trigger] banned_at_first(
                        egraph,
                        place@,
                        (d, w),
                    ) implies banned@.contains((d, w)) by {
                    if d == c && w == i {
                        assert(banned@[before.len() as int] == (c, i));
                    } else {
                        assert(before.contains((d, w)));
                        let v = choose|v: int| 0 <= v < before.len() && before[v] == (d, w);
                        assert(banned@[v] == (d, w));
                    }
                }
            }
            i += 1;
        }
        c += 1;
    }
    proof {
        assert(bans_by(egraph, banned@, place@)) by {
            assert forall|p: (ClassId, usize)| valid_pair(egraph, p) implies (banned@.contains(p)
                <==> #[trigger] banned_at_first(egraph, place@, p)) by {
                if banned@.contains(p) {
                    let w = choose|w: int| 0 <= w < banned@.len() && banned@[w] == p;
                    assert(banned_at_first(egraph, place@, banned@[w]));
                }
                if banned_at_first(egraph, place@, p) {
                    assert(banned_at_first(egraph, place@, (p.0, p.1)));
                    assert(banned@.contains((p.0, p.1)));
                }
            }
        }
        lemma_bans_break_cycles(egraph, banned@, place@);
        assert(breaks_cycles(egraph, banned@, |c: ClassId| class_rank(egraph, place@, c)));
        if acyclic_classes(egraph) {
            lemma_no_cycle_no_ban(egraph, banned@);
        }
    }
    banned
}

} // verus!
