//! What the work-queue extractors share: the index from a class to the
//! nodes that use it, the queue of leaves to start from, and the facts
//! that carry the queue from one step to the next.

use crate::counting::lemma_push_contains;
use crate::cost::{
    cost_or_infinity, lemma_child_le_children_cost, lemma_children_cost_local, node_cost,
    CostFunction,
};
use crate::graph::{Class, ClassId, Cost, EGraph, Node, NodeId, INFINITY};
use crate::unique_queue::{extended, lemma_extended_contains, UniqueQueue};
use vstd::prelude::*;

verus! {

/// Node `m` exists and its class lists it.
pub open spec fn listed_node(egraph: &EGraph, m: NodeId) -> bool {
    &&& m < egraph.nodes@.len()
    &&& egraph.nodes@[m as int].eclass < egraph.classes@.len()
    &&& exists|j: int|
        0 <= j < egraph.classes@[egraph.nodes@[m as int].eclass as int].nodes@.len()
            && #[trigger] egraph.classes@[egraph.nodes@[m as int].eclass as int].nodes@[j] == m
}

/// `(c, j, k)` comes before `(ci, ji, ki)` when classes, then positions in
/// the class, then positions among the children are compared.
pub open spec fn comes_before(c: int, j: int, k: int, ci: int, ji: int, ki: int) -> bool {
    c < ci || (c == ci && (j < ji || (j == ji && k < ki)))
}

/// The index holds only listed nodes, and for every child of every node
/// that comes before `(ci, ji, ki)`, the node is filed under the child's
/// class.
pub open spec fn parents_up_to(
    egraph: &EGraph,
    parents: Seq<Vec<NodeId>>,
    ci: int,
    ji: int,
    ki: int,
) -> bool {
    &&& parents.len() == egraph.classes@.len()
    &&& forall|c: int, i: int|
        0 <= c < parents.len() && 0 <= i < parents[c]@.len() ==> listed_node(
            egraph,
            #[trigger] parents[c]@[i],
        )
    &&& forall|c: int, j: int, k: int|
        0 <= c < egraph.classes@.len() && 0 <= j < egraph.classes@[c].nodes@.len() && 0 <= k
            < egraph.nodes@[egraph.classes@[c].nodes@[j] as int].children@.len() && comes_before(
            c,
            j,
            k,
            ci,
            ji,
            ki,
        ) ==> parents[#[trigger] egraph.child_class(
            egraph.classes@[c].nodes@[j] as int,
            k,
        ) as int]@.contains(egraph.classes@[c].nodes@[j])
}

/// The index is complete: under each class it holds the listed nodes that
/// have a child in that class, and only listed nodes.
pub open spec fn parents_ok(egraph: &EGraph, parents: Seq<Vec<NodeId>>) -> bool {
    parents_up_to(egraph, parents, egraph.classes@.len() as int, 0, 0)
}

/// Every listed node that is not waiting in the queue costs at least what
/// its class costs.
pub open spec fn pending_covers(
    cf: CostFunction,
    egraph: &EGraph,
    costs: Map<ClassId, Cost>,
    queue: Seq<NodeId>,
) -> bool {
    forall|c: ClassId, j: int|
        c < egraph.classes@.len() && 0 <= j < egraph.classes@[c as int].nodes@.len()
            && !queue.contains(egraph.classes@[c as int].nodes@[j]) ==> cost_or_infinity(costs, c)
            <= #[trigger] node_cost(
            cf,
            egraph,
            &egraph.nodes@[egraph.classes@[c as int].nodes@[j] as int],
            costs,
        )
}

/// Every queued node is a listed node.
pub open spec fn all_listed(egraph: &EGraph, queue: Seq<NodeId>) -> bool {
    forall|i: int| 0 <= i < queue.len() ==> listed_node(egraph, #[trigger] queue[i])
}

/// While no class has a cost, a node with children is infinitely
/// expensive.
pub proof fn lemma_inner_node_infinite(cf: CostFunction, egraph: &EGraph, node: &Node)
    requires
        node.children@.len() > 0,
    ensures
        node_cost(cf, egraph, node, Map::<ClassId, Cost>::empty()) == INFINITY,
{
    lemma_child_le_children_cost(cf, egraph, node.children@, Map::<ClassId, Cost>::empty(), 0);
}

/// Node `n`, once for each of its first `k` children whose class is `c`.
pub open spec fn users_of_node(egraph: &EGraph, c: ClassId, n: NodeId, k: nat) -> Seq<NodeId>
    decreases k,
{
    if k == 0 {
        Seq::empty()
    } else {
        let before = users_of_node(egraph, c, n, (k - 1) as nat);
        if egraph.child_class(n as int, k - 1) == c {
            before.push(n)
        } else {
            before
        }
    }
}

/// The first `j` nodes of class `ci`, each once for each of its children
/// whose class is `c`.
pub open spec fn users_in_class(egraph: &EGraph, c: ClassId, ci: ClassId, j: nat) -> Seq<NodeId>
    decreases j,
{
    if j == 0 {
        Seq::empty()
    } else {
        let n = egraph.classes@[ci as int].nodes@[j - 1];
        users_in_class(egraph, c, ci, (j - 1) as nat) + users_of_node(
            egraph,
            c,
            n,
            egraph.nodes@[n as int].children@.len(),
        )
    }
}

/// The nodes of the first `ci` classes, in the order of the classes and of
/// the nodes in them, each once for each of its children whose class is
/// `c`: the nodes that use class `c`.
pub open spec fn users(egraph: &EGraph, c: ClassId, ci: nat) -> Seq<NodeId>
    decreases ci,
{
    if ci == 0 {
        Seq::empty()
    } else {
        users(egraph, c, (ci - 1) as nat) + users_in_class(
            egraph,
            c,
            (ci - 1) as ClassId,
            egraph.classes@[ci - 1].nodes@.len(),
        )
    }
}

/// The queue after the leaves among the first `j` nodes of class `ci` were
/// inserted into `queue`.
pub open spec fn leaves_in_class(egraph: &EGraph, queue: Seq<NodeId>, ci: ClassId, j: nat) -> Seq<
    NodeId,
>
    decreases j,
{
    if j == 0 {
        queue
    } else {
        let before = leaves_in_class(egraph, queue, ci, (j - 1) as nat);
        let n = egraph.classes@[ci as int].nodes@[j - 1];
        if egraph.nodes@[n as int].children@.len() == 0 && !before.contains(n) {
            before.push(n)
        } else {
            before
        }
    }
}

/// The leaves of the first `ci` classes, in the order of the classes and of
/// the nodes in them, each once.
pub open spec fn leaves(egraph: &EGraph, ci: nat) -> Seq<NodeId>
    decreases ci,
{
    if ci == 0 {
        Seq::empty()
    } else {
        leaves_in_class(
            egraph,
            leaves(egraph, (ci - 1) as nat),
            (ci - 1) as ClassId,
            egraph.classes@[ci - 1].nodes@.len(),
        )
    }
}

/// The index holds, for each class, exactly the nodes that use it, in
/// order.
pub open spec fn parents_exact(egraph: &EGraph, parents: Seq<Vec<NodeId>>) -> bool {
    &&& parents.len() == egraph.classes@.len()
    &&& forall|c: int|
        0 <= c < parents.len() ==> (#[trigger] parents[c])@ == users(
            egraph,
            c as ClassId,
            egraph.classes@.len(),
        )
}

/// Files `node_id` under class `cid`.
fn add_parent(parents: &mut Vec<Vec<NodeId>>, cid: ClassId, node_id: NodeId)
    requires
        cid < old(parents)@.len(),
    ensures
        final(parents)@.len() == old(parents)@.len(),
        final(parents)@[cid as int]@ == old(parents)@[cid as int]@.push(node_id),
        forall|c: int|
            0 <= c < old(parents)@.len() && c != cid ==> final(parents)@[c] == old(parents)@[c],
{
    parents[cid].push(node_id);
}

/// The parent index: for each class, the listed nodes that have a child in
/// that class, in the order of the classes and of the nodes in them.
#[verifier::rlimit(60)]
pub fn build_parents(egraph: &EGraph) -> (parents: Vec<Vec<NodeId>>)
    requires
        egraph.well_formed(),
    ensures
        parents_ok(egraph, parents@),
        parents_exact(egraph, parents@),
{
    let n: usize = egraph.classes.len();
    let mut parents: Vec<Vec<NodeId>> = Vec::new();
    let mut c: usize = 0;
    while c < n
        invariant
            c <= n,
            parents@.len() == c,
            forall|d: int| 0 <= d < c ==> parents@[d]@.len() == 0,
        decreases n - c,
    {
        parents.push(Vec::new());
        c += 1;
    }
    let mut ci: usize = 0;
    while ci < n
        invariant
            ci <= n,
            n == egraph.classes@.len(),
            egraph.well_formed(),
            parents_up_to(egraph, parents@, ci as int, 0, 0),
            forall|c: int|
                0 <= c < n ==> (#[trigger] parents@[c])@ == users(egraph, c as ClassId, ci as nat),
        decreases n - ci,
    {
        let class: &Class = &egraph.classes[ci];
        let mut ji: usize = 0;
        proof {
            assert forall|c: int| 0 <= c < n implies (#[trigger] parents@[c])@ == users(
                egraph,
                c as ClassId,
                ci as nat,
            ) + users_in_class(egraph, c as ClassId, ci, 0) by {
                assert(users(egraph, c as ClassId, ci as nat) + Seq::<NodeId>::empty() =~= users(
                    egraph,
                    c as ClassId,
                    ci as nat,
                ));
            }
        }
        while ji < class.nodes.len()
            invariant
                ji <= class.nodes@.len(),
                ci < n,
                n == egraph.classes@.len(),
                class == egraph.classes@[ci as int],
                egraph.well_formed(),
                parents_up_to(egraph, parents@, ci as int, ji as int, 0),
                forall|c: int|
                    0 <= c < n ==> (#[trigger] parents@[c])@ == users(
                        egraph,
                        c as ClassId,
                        ci as nat,
                    ) + users_in_class(egraph, c as ClassId, ci, ji as nat),
            decreases class.nodes@.len() - ji,
        {
            assert(egraph.class_ok(ci as int));
            assert(egraph.member_ok(ci as int, ji as int));
            let node_id: NodeId = class.nodes[ji];
            let node: &Node = &egraph.nodes[node_id];
            assert(egraph.node_ok(node_id as int));
            assert(listed_node(egraph, node_id));
            let mut ki: usize = 0;
            proof {
                assert forall|c: int| 0 <= c < n implies (#[trigger] parents@[c])@ == users(
                    egraph,
                    c as ClassId,
                    ci as nat,
                ) + users_in_class(egraph, c as ClassId, ci, ji as nat) + users_of_node(
                    egraph,
                    c as ClassId,
                    node_id,
                    0,
                ) by {
                    let head = users(egraph, c as ClassId, ci as nat) + users_in_class(
                        egraph,
                        c as ClassId,
                        ci,
                        ji as nat,
                    );
                    assert(head + Seq::<NodeId>::empty() =~= head);
                }
            }
            while ki < node.children.len()
                invariant
                    ki <= node.children@.len(),
                    ci < n,
                    ji < class.nodes@.len(),
                    n == egraph.classes@.len(),
                    class == egraph.classes@[ci as int],
                    node_id == class.nodes@[ji as int],
                    node_id < egraph.nodes@.len(),
                    node == egraph.nodes@[node_id as int],
                    listed_node(egraph, node_id),
                    egraph.well_formed(),
                    parents_up_to(egraph, parents@, ci as int, ji as int, ki as int),
                    forall|c: int|
                        0 <= c < n ==> (#[trigger] parents@[c])@ == users(
                            egraph,
                            c as ClassId,
                            ci as nat,
                        ) + users_in_class(egraph, c as ClassId, ci, ji as nat) + users_of_node(
                            egraph,
                            c as ClassId,
                            node_id,
                            ki as nat,
                        ),
                decreases node.children@.len() - ki,
            {
                assert(egraph.node_ok(node_id as int));
                assert(egraph.nodes@[node_id as int].children@[ki as int] < egraph.nodes@.len());
                assert(egraph.node_ok(node.children@[ki as int] as int));
                let cid: ClassId = egraph.nid_to_cid(node.children[ki]);
                let ghost before = parents@;
                add_parent(&mut parents, cid, node_id);
                proof {
                    assert forall|c: int| 0 <= c < n implies (#[trigger] parents@[c])@ == users(
                        egraph,
                        c as ClassId,
                        ci as nat,
                    ) + users_in_class(egraph, c as ClassId, ci, ji as nat) + users_of_node(
                        egraph,
                        c as ClassId,
                        node_id,
                        (ki + 1) as nat,
                    ) by {
                        let head = users(egraph, c as ClassId, ci as nat) + users_in_class(
                            egraph,
                            c as ClassId,
                            ci,
                            ji as nat,
                        );
                        let tail = users_of_node(egraph, c as ClassId, node_id, ki as nat);
                        assert(before[c]@ == head + tail);
                        assert(egraph.child_class(node_id as int, ki as int) == cid);
                        if c == cid {
                            assert((head + tail).push(node_id) =~= head + tail.push(node_id));
                        }
                    }
                    assert forall|c: int, i: int|
                        0 <= c < parents@.len() && 0 <= i < parents@[c]@.len() implies listed_node(
                        egraph,
                        #[trigger] parents@[c]@[i],
                    ) by {
                        if c == cid && i == before[c]@.len() {
                        } else {
                            assert(parents@[c]@[i] == before[c]@[i]);
                        }
                    }
                    assert forall|c: int, j: int, k: int|
                        0 <= c < egraph.classes@.len() && 0 <= j < egraph.classes@[c].nodes@.len()
                            && 0 <= k < egraph.nodes@[egraph.classes@[c].nodes@[j] as int].children@.len()
                            && comes_before(
                            c,
                            j,
                            k,
                            ci as int,
                            ji as int,
                            ki + 1,
                        ) implies parents@[#[trigger] egraph.child_class(
                        egraph.classes@[c].nodes@[j] as int,
                        k,
                    ) as int]@.contains(egraph.classes@[c].nodes@[j]) by {
                        let m = egraph.classes@[c].nodes@[j];
                        let d = egraph.child_class(m as int, k);
                        assert(egraph.class_ok(c));
                        assert(egraph.member_ok(c, j));
                        assert(egraph.node_ok(m as int));
                        assert(egraph.node_ok(egraph.nodes@[m as int].children@[k] as int));
                        if comes_before(c, j, k, ci as int, ji as int, ki as int) {
                            assert(before[d as int]@.contains(m));
                            if d == cid {
                                lemma_push_contains(before[d as int]@, node_id, m);
                            }
                        } else {
                            assert(d == cid && m == node_id);
                            lemma_push_contains(before[d as int]@, node_id, m);
                        }
                    }
                }
                ki += 1;
            }
            proof {
                assert forall|c: int| 0 <= c < n implies (#[trigger] parents@[c])@ == users(
                    egraph,
                    c as ClassId,
                    ci as nat,
                ) + users_in_class(egraph, c as ClassId, ci, (ji + 1) as nat) by {
                    let head = users(egraph, c as ClassId, ci as nat);
                    let mid = users_in_class(egraph, c as ClassId, ci, ji as nat);
                    let tail = users_of_node(
                        egraph,
                        c as ClassId,
                        node_id,
                        node.children@.len(),
                    );
                    assert(head + mid + tail =~= head + (mid + tail));
                }
            }
            ji += 1;
        }
        ci += 1;
    }
    parents
}

/// The queue to start from: the listed leaves, in the order of the classes
/// and of the nodes in them.
#[verifier::rlimit(60)]
pub fn seed_leaves(egraph: &EGraph) -> (queue: UniqueQueue)
    requires
        egraph.well_formed(),
    ensures
        queue.well_formed(),
        all_listed(egraph, queue@),
        forall|cf: CostFunction| #[trigger]
            pending_covers(cf, egraph, Map::<ClassId, Cost>::empty(), queue@),
        queue@ == leaves(egraph, egraph.classes@.len()),
{
    let n: usize = egraph.classes.len();
    let mut queue = UniqueQueue::default();
    let mut ci: usize = 0;
    while ci < n
        invariant
            ci <= n,
            n == egraph.classes@.len(),
            egraph.well_formed(),
            queue.well_formed(),
            all_listed(egraph, queue@),
            queue@ == leaves(egraph, ci as nat),
            forall|c: int, j: int|
                0 <= c < ci && 0 <= j < egraph.classes@[c].nodes@.len() && egraph.nodes@[(
                #[trigger] egraph.classes@[c].nodes@[j]) as int].children@.len() == 0
                    ==> queue@.contains(egraph.classes@[c].nodes@[j]),
        decreases n - ci,
    {
        let class: &Class = &egraph.classes[ci];
        let ghost class_start = queue@;
        let mut ji: usize = 0;
        while ji < class.nodes.len()
            invariant
                ji <= class.nodes@.len(),
                ci < n,
                n == egraph.classes@.len(),
                class == egraph.classes@[ci as int],
                egraph.well_formed(),
                queue.well_formed(),
                all_listed(egraph, queue@),
                class_start == leaves(egraph, ci as nat),
                queue@ == leaves_in_class(egraph, class_start, ci, ji as nat),
                forall|c: int, j: int|
                    0 <= c <= ci && 0 <= j < egraph.classes@[c].nodes@.len() && (c < ci || j < ji)
                        && egraph.nodes@[(#[trigger] egraph.classes@[c].nodes@[j]) as int].children@.len()
                        == 0 ==> queue@.contains(egraph.classes@[c].nodes@[j]),
            decreases class.nodes@.len() - ji,
        {
            assert(egraph.class_ok(ci as int));
            assert(egraph.member_ok(ci as int, ji as int));
            let node_id: NodeId = class.nodes[ji];
            assert(egraph.node_ok(node_id as int));
            assert(listed_node(egraph, node_id));
            if egraph.nodes[node_id].is_leaf() {
                let ghost before = queue@;
                queue.insert(node_id);
                proof {
                    assert forall|y: NodeId| before.contains(y) implies queue@.contains(y) by {
                        lemma_push_contains(before, node_id, y);
                    }
                    lemma_push_contains(before, node_id, node_id);
                    assert forall|i: int| 0 <= i < queue@.len() implies listed_node(
                        egraph,
                        #[trigger] queue@[i],
                    ) by {
                        if i < before.len() {
                            assert(queue@[i] == before[i]);
                        }
                    }
                }
            }
            ji += 1;
        }
        ci += 1;
    }
    proof {
        let none = Map::<ClassId, Cost>::empty();
        assert forall|cf: CostFunction| #[trigger]
            pending_covers(cf, egraph, none, queue@) by {
            assert forall|c: ClassId, j: int|
                c < egraph.classes@.len() && 0 <= j < egraph.classes@[c as int].nodes@.len()
                    && !queue@.contains(
                    egraph.classes@[c as int].nodes@[j],
                ) implies cost_or_infinity(none, c) <= #[trigger] node_cost(
                cf,
                egraph,
                &egraph.nodes@[egraph.classes@[c as int].nodes@[j] as int],
                none,
            ) by {
                let m = egraph.classes@[c as int].nodes@[j];
                lemma_inner_node_infinite(cf, egraph, &egraph.nodes@[m as int]);
            }
        }
    }
    queue
}

/// A step that leaves the costs alone: the node at the front of the queue
/// is no cheaper than its class, and leaves the queue.
pub proof fn lemma_pending_skip(
    cf: CostFunction,
    egraph: &EGraph,
    costs: Map<ClassId, Cost>,
    queue: Seq<NodeId>,
)
    requires
        egraph.well_formed(),
        pending_covers(cf, egraph, costs, queue),
        queue.len() > 0,
        listed_node(egraph, queue[0]),
        cost_or_infinity(costs, egraph.nodes@[queue[0] as int].eclass) <= node_cost(
            cf,
            egraph,
            &egraph.nodes@[queue[0] as int],
            costs,
        ),
    ensures
        pending_covers(cf, egraph, costs, queue.drop_first()),
{
    let rest = queue.drop_first();
    assert forall|c: ClassId, j: int|
        c < egraph.classes@.len() && 0 <= j < egraph.classes@[c as int].nodes@.len()
            && !rest.contains(egraph.classes@[c as int].nodes@[j]) implies cost_or_infinity(
        costs,
        c,
    ) <= #[trigger] node_cost(
        cf,
        egraph,
        &egraph.nodes@[egraph.classes@[c as int].nodes@[j] as int],
        costs,
    ) by {
        let m = egraph.classes@[c as int].nodes@[j];
        assert(egraph.class_ok(c as int));
        assert(egraph.member_ok(c as int, j));
        if m != queue[0] {
            if queue.contains(m) {
                let i = choose|i: int| 0 <= i < queue.len() && queue[i] == m;
                assert(rest[i - 1] == m);
            }
        }
    }
}

/// A step that lowers a cost: the node at the front of the queue is
/// cheaper than its class, the class takes its cost, and the nodes that
/// use the class join the queue.
#[verifier::rlimit(60)]
pub proof fn lemma_pending_commit(
    cf: CostFunction,
    egraph: &EGraph,
    costs: Map<ClassId, Cost>,
    queue: Seq<NodeId>,
    parents: Seq<Vec<NodeId>>,
)
    requires
        egraph.well_formed(),
        parents_ok(egraph, parents),
        pending_covers(cf, egraph, costs, queue),
        all_listed(egraph, queue),
        queue.len() > 0,
        node_cost(cf, egraph, &egraph.nodes@[queue[0] as int], costs) < cost_or_infinity(
            costs,
            egraph.nodes@[queue[0] as int].eclass,
        ),
    ensures
        pending_covers(
            cf,
            egraph,
            costs.insert(
                egraph.nodes@[queue[0] as int].eclass,
                node_cost(cf, egraph, &egraph.nodes@[queue[0] as int], costs),
            ),
            extended(queue.drop_first(), parents[egraph.nodes@[queue[0] as int].eclass as int]@),
        ),
        all_listed(
            egraph,
            extended(queue.drop_first(), parents[egraph.nodes@[queue[0] as int].eclass as int]@),
        ),
{
    let q = queue[0];
    let cq = egraph.nodes@[q as int].eclass;
    let cost = node_cost(cf, egraph, &egraph.nodes@[q as int], costs);
    let costs2 = costs.insert(cq, cost);
    let rest = queue.drop_first();
    let users = parents[cq as int]@;
    let queue2 = extended(rest, users);
    assert(listed_node(egraph, q));
    lemma_extended_contains(rest, users);
    assert forall|i: int| 0 <= i < queue2.len() implies listed_node(
        egraph,
        #[trigger] queue2[i],
    ) by {
        let y = queue2[i];
        assert(queue2.contains(y));
        if rest.contains(y) {
            let w = choose|w: int| 0 <= w < rest.len() && rest[w] == y;
            assert(queue[w + 1] == y);
        } else {
            let w = choose|w: int| 0 <= w < users.len() && users[w] == y;
            assert(listed_node(egraph, parents[cq as int]@[w]));
        }
    }
    assert forall|c: ClassId, j: int|
        c < egraph.classes@.len() && 0 <= j < egraph.classes@[c as int].nodes@.len()
            && !queue2.contains(egraph.classes@[c as int].nodes@[j]) implies cost_or_infinity(
        costs2,
        c,
    ) <= #[trigger] node_cost(
        cf,
        egraph,
        &egraph.nodes@[egraph.classes@[c as int].nodes@[j] as int],
        costs2,
    ) by {
        let m = egraph.classes@[c as int].nodes@[j];
        let node = &egraph.nodes@[m as int];
        assert(egraph.class_ok(c as int));
        assert(egraph.member_ok(c as int, j));
        assert(egraph.node_ok(m as int));
        assert(!rest.contains(m) && !users.contains(m));
        assert forall|k: int| 0 <= k < node.children@.len() implies cost_or_infinity(
            costs2,
            #[trigger] egraph.nodes@[node.children@[k] as int].eclass,
        ) == cost_or_infinity(costs, egraph.nodes@[node.children@[k] as int].eclass) by {
            let d = egraph.child_class(egraph.classes@[c as int].nodes@[j] as int, k);
            assert(egraph.node_ok(node.children@[k] as int));
            assert(comes_before(c as int, j, k, egraph.classes@.len() as int, 0, 0));
            assert(parents[d as int]@.contains(m));
            assert(d != cq);
        }
        lemma_children_cost_local(cf, egraph, node.children@, costs2, costs);
        assert(node_cost(cf, egraph, node, costs2) == node_cost(cf, egraph, node, costs));
        if m != q {
            if queue.contains(m) {
                let i = choose|i: int| 0 <= i < queue.len() && queue[i] == m;
                assert(rest[i - 1] == m);
            }
            assert(!queue.contains(m));
            assert(cost_or_infinity(costs, c) <= node_cost(
                cf,
                egraph,
                &egraph.nodes@[egraph.classes@[c as int].nodes@[j] as int],
                costs,
            ));
        } else {
            assert(c == cq);
        }
    }
}

} // verus!
