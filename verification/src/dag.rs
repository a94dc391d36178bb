//! DAG cost: the cost of the chosen nodes of all classes that the roots
//! depend on, each class counted once.

use crate::cost::{lemma_saturate_add, saturate};
use crate::cycles::{lemma_unvisited_count_update, unvisited_count, Status};
use crate::extraction_result::ExtractionResult;
use crate::graph::{ClassId, Cost, EGraph, Node, NodeId};
use crate::status_table::StatusTable;
use vstd::prelude::*;

verus! {

/// The classes that a walk has visited.
pub open spec fn visited_set(status: Seq<Status>) -> Set<ClassId> {
    Set::new(|c: ClassId| c < status.len() && status[c as int] is Done)
}

impl ExtractionResult {
    /// Every class that the roots depend on, directly or through other
    /// classes, has a choice among its own nodes.
    pub open spec fn complete_from(&self, egraph: &EGraph, roots: Seq<ClassId>) -> bool {
        exists|s: Set<ClassId>| self.covers(egraph, roots, s)
    }

    /// `s` holds the roots and, with each class, a proper choice for it and
    /// the classes it depends on.
    pub open spec fn covers(&self, egraph: &EGraph, roots: Seq<ClassId>, s: Set<ClassId>) -> bool {
        &&& forall|i: int| 0 <= i < roots.len() ==> s.contains(#[trigger] roots[i])
        &&& self.closed(egraph, s)
    }

    /// The roots depend on class `c`, directly or through other classes
    /// (or `c` is a root): `c` lies in every set that covers the roots.
    pub open spec fn reaches(&self, egraph: &EGraph, roots: Seq<ClassId>, c: ClassId) -> bool {
        forall|s: Set<ClassId>| #[trigger] self.covers(egraph, roots, s) ==> s.contains(c)
    }

    /// The classes that the roots depend on, the roots included.
    pub open spec fn reachable(&self, egraph: &EGraph, roots: Seq<ClassId>) -> Set<ClassId> {
        Set::new(|c: ClassId| c < egraph.classes@.len() && self.reaches(egraph, roots, c))
    }

    /// Where every class that the roots depend on has a proper choice, the
    /// classes that the roots depend on hold the roots and, with each
    /// class, the classes it depends on.
    pub proof fn lemma_reachable_covers(&self, egraph: &EGraph, roots: Seq<ClassId>)
        requires
            egraph.well_formed(),
            self.complete_from(egraph, roots),
        ensures
            self.covers(egraph, roots, self.reachable(egraph, roots)),
    {
        let some = choose|s: Set<ClassId>| self.covers(egraph, roots, s);
        let reach = self.reachable(egraph, roots);
        assert forall|i: int| 0 <= i < roots.len() implies reach.contains(#[trigger] roots[i]) by {
            assert(some.contains(roots[i]));
            assert(self.chosen_ok(egraph, roots[i]));
            assert(egraph.node_ok(self@[roots[i]] as int));
        }
        assert forall|c: ClassId| #[trigger] reach.contains(c) implies self.chosen_ok(
            egraph,
            c,
        ) by {
            assert(some.contains(c));
        }
        assert forall|c: ClassId, k: int|
            reach.contains(c) && 0 <= k < self.arity(egraph, c) implies reach.contains(
            #[trigger] self.dependency(egraph, c, k),
        ) by {
            let d = self.dependency(egraph, c, k);
            assert(some.contains(c));
            assert(self.chosen_ok(egraph, c));
            assert(egraph.node_ok(self@[c] as int));
            assert(egraph.node_ok(egraph.nodes@[self@[c] as int].children@[k] as int));
            assert forall|s: Set<ClassId>| #[trigger] self.covers(egraph, roots, s) implies s.contains(
                d,
            ) by {
                assert(s.contains(c));
            }
        }
    }

    /// The own cost of the node chosen for `c`.
    pub open spec fn chosen_cost(&self, egraph: &EGraph, c: ClassId) -> Cost {
        egraph.nodes@[self@[c] as int].cost
    }

    /// The exact sum of the chosen nodes' own costs over the classes of `s`
    /// with an id below `n`.
    pub open spec fn sum_below(&self, egraph: &EGraph, s: Set<ClassId>, n: nat) -> int
        decreases n,
    {
        if n == 0 {
            0
        } else {
            self.sum_below(egraph, s, (n - 1) as nat) + if s.contains((n - 1) as ClassId) {
                self.chosen_cost(egraph, (n - 1) as ClassId) as int
            } else {
                0
            }
        }
    }

    /// The DAG cost from `roots`: the sum of the chosen nodes' own costs
    /// over the classes that the roots depend on, each class once.
    pub open spec fn dag_cost_spec(&self, egraph: &EGraph, roots: Seq<ClassId>) -> Cost {
        saturate(
            self.sum_below(egraph, self.reachable(egraph, roots), egraph.classes@.len() as nat),
        )
    }

    /// A sum of costs is never negative.
    pub proof fn lemma_sum_below_nonnegative(&self, egraph: &EGraph, s: Set<ClassId>, n: nat)
        ensures
            self.sum_below(egraph, s, n) >= 0,
        decreases n,
    {
        if n > 0 {
            self.lemma_sum_below_nonnegative(egraph, s, (n - 1) as nat);
        }
    }

    /// One more class in the set adds that class's cost to the sum.
    pub proof fn lemma_sum_below_insert(&self, egraph: &EGraph, s: Set<ClassId>, n: nat, c: ClassId)
        requires
            !s.contains(c),
            n <= usize::MAX,
        ensures
            self.sum_below(egraph, s.insert(c), n) == self.sum_below(egraph, s, n) + if c < n {
                self.chosen_cost(egraph, c) as int
            } else {
                0
            },
        decreases n,
    {
        if n > 0 {
            self.lemma_sum_below_insert(egraph, s, (n - 1) as nat, c);
        }
    }

    /// A larger set does not have a smaller sum.
    pub proof fn lemma_sum_below_subset(
        &self,
        egraph: &EGraph,
        small: Set<ClassId>,
        large: Set<ClassId>,
        n: nat,
    )
        requires
            forall|c: ClassId| small.contains(c) ==> large.contains(c),
        ensures
            self.sum_below(egraph, small, n) <= self.sum_below(egraph, large, n),
        decreases n,
    {
        if n > 0 {
            self.lemma_sum_below_subset(egraph, small, large, (n - 1) as nat);
        }
    }

    /// The sum over a union is at most the sum of the sums.
    pub proof fn lemma_sum_below_union(
        &self,
        egraph: &EGraph,
        a: Set<ClassId>,
        b: Set<ClassId>,
        n: nat,
    )
        ensures
            self.sum_below(egraph, a.union(b), n) <= self.sum_below(egraph, a, n) + self.sum_below(
                egraph,
                b,
                n,
            ),
        decreases n,
    {
        if n > 0 {
            self.lemma_sum_below_union(egraph, a, b, (n - 1) as nat);
        }
    }

    /// The DAG cost from `roots`: each class that the roots depend on
    /// contributes the own cost of its chosen node, once.
    ///
    /// Every class that the roots depend on must have a choice among its
    /// own nodes.
    pub fn dag_cost(&self, egraph: &EGraph, roots: &[ClassId]) -> (cost: Cost)
        requires
            egraph.well_formed(),
            self.complete_from(egraph, roots@),
        ensures
            cost == self.dag_cost_spec(egraph, roots@),
    {
        self.calculate_dag_cost_with_extraction_result(egraph, roots).0
    }

    /// The DAG cost from `roots`, and with it the choices of exactly the
    /// classes that the roots depend on.
    ///
    /// Every class that the roots depend on must have a choice among its
    /// own nodes.
    #[verifier::rlimit(60)]
    pub fn calculate_dag_cost_with_extraction_result(
        &self,
        egraph: &EGraph,
        roots: &[ClassId],
    ) -> (out: (Cost, ExtractionResult))
        requires
            egraph.well_formed(),
            self.complete_from(egraph, roots@),
        ensures
            out.0 == self.dag_cost_spec(egraph, roots@),
            out.1@ == self@.restrict(self.reachable(egraph, roots@)),
    {
        let ghost cover = choose|s: Set<ClassId>| self.covers(egraph, roots@, s);
        let n: usize = egraph.classes.len();
        let mut status: StatusTable = StatusTable::new(n);
        let mut worklist: Vec<ClassId> = Vec::new();
        let mut i: usize = 0;
        while i < roots.len()
            invariant
                i <= roots@.len(),
                worklist@ == roots@.take(i as int),
            decreases roots@.len() - i,
        {
            worklist.push(roots[i]);
            assert(roots@.take(i + 1) =~= roots@.take(i as int).push(roots@[i as int]));
            i += 1;
        }
        assert(worklist@ =~= roots@);
        let mut total: Cost = 0;
        let mut sub = ExtractionResult::default();
        assert(visited_set(status@) =~= Set::<ClassId>::empty());
        assert(sub@ =~= self@.restrict(visited_set(status@)));
        proof {
            self.lemma_sum_below_empty(egraph, n as nat);
            assert forall|j: int| 0 <= j < worklist@.len() implies self.walk_item_ok(
                egraph,
                roots@,
                cover,
                #[trigger] worklist@[j],
            ) by {
                assert(cover.contains(roots@[j]));
                assert(self.chosen_ok(egraph, roots@[j]));
                assert(egraph.node_ok(self@[roots@[j]] as int));
            }
        }
        while worklist.len() > 0
            invariant
                n == egraph.classes@.len(),
                egraph.well_formed(),
                self.covers(egraph, roots@, cover),
                status@.len() == n,
                forall|d: int| 0 <= d < n ==> !(status@[d] is InProgress),
                forall|j: int|
                    0 <= j < worklist@.len() ==> self.walk_item_ok(
                        egraph,
                        roots@,
                        cover,
                        #[trigger] worklist@[j],
                    ),
                forall|c: ClassId| #[trigger]
                    visited_set(status@).contains(c) ==> self.walk_item_ok(
                        egraph,
                        roots@,
                        cover,
                        c,
                    ),
                forall|c: ClassId, k: int|
                    visited_set(status@).contains(c) && 0 <= k < self.arity(egraph, c) ==> {
                        ||| visited_set(status@).contains(#[trigger] self.dependency(egraph, c, k))
                        ||| worklist@.contains(self.dependency(egraph, c, k))
                    },
                forall|i: int|
                    0 <= i < roots@.len() ==> {
                        ||| visited_set(status@).contains(#[trigger] roots@[i])
                        ||| worklist@.contains(roots@[i])
                    },
                total == saturate(self.sum_below(egraph, visited_set(status@), n as nat)),
                sub@ == self@.restrict(visited_set(status@)),
            decreases unvisited_count(status@), worklist@.len(),
        {
            let ghost worklist_before = worklist@;
            let ghost status_before = status@;
            let cid: ClassId = worklist.pop().unwrap();
            let ghost rest = worklist@;
            assert(self.walk_item_ok(egraph, roots@, cover, worklist_before[worklist_before.len() - 1]));
            assert forall|d: ClassId| worklist_before.contains(d) implies d == cid || worklist@.contains(
                d,
            ) by {
                let j = choose|j: int| 0 <= j < worklist_before.len() && worklist_before[j] == d;
                if j < worklist@.len() {
                    assert(worklist@[j] == d);
                }
            }
            match status.get(cid) {
                Status::Unvisited => {
                    proof {
                        lemma_unvisited_count_update(status@, cid as int, Status::Done);
                    }
                    status.set(cid, Status::Done);
                    let node_id: NodeId = self.get_node(cid).unwrap();
                    let node: &Node = &egraph.nodes[node_id];
                    proof {
                        let before = visited_set(status_before);
                        assert(visited_set(status@) =~= before.insert(cid));
                        self.lemma_sum_below_insert(egraph, before, n as nat, cid);
                        self.lemma_sum_below_nonnegative(egraph, before, n as nat);
                        lemma_saturate_add(
                            self.sum_below(egraph, before, n as nat),
                            node.cost as int,
                        );
                        assert(sub@.insert(cid, node_id) =~= self@.restrict(before.insert(cid)));
                    }
                    total = total.saturating_add(node.cost);
                    sub.choose_node(cid, node_id);
                    let mut k: usize = 0;
                    assert(egraph.node_ok(node_id as int));
                    while k < node.children.len()
                        invariant
                            k <= node.children@.len(),
                            n == egraph.classes@.len(),
                            egraph.well_formed(),
                            self.covers(egraph, roots@, cover),
                            node_id < egraph.nodes@.len(),
                            node == egraph.nodes@[node_id as int],
                            self.walk_item_ok(egraph, roots@, cover, cid),
                            self@[cid] == node_id,
                            forall|d: ClassId| #[trigger] rest.contains(d) ==> worklist@.contains(d),
                            forall|j: int|
                                0 <= j < worklist@.len() ==> self.walk_item_ok(
                                    egraph,
                                    roots@,
                                    cover,
                                    #[trigger] worklist@[j],
                                ),
                            forall|j: int|
                                0 <= j < k ==> worklist@.contains(
                                    #[trigger] self.dependency(egraph, cid, j),
                                ),
                        decreases node.children@.len() - k,
                    {
                        assert(egraph.node_ok(node_id as int));
                        assert(egraph.nodes@[node_id as int].children@[k as int]
                            < egraph.nodes@.len());
                        let child_cid = egraph.nid_to_cid(node.children[k]);
                        let ghost pushed_before = worklist@;
                        proof {
                            self.lemma_dependency_walk_item_ok(
                                egraph,
                                roots@,
                                cover,
                                cid,
                                k as int,
                            );
                        }
                        worklist.push(child_cid);
                        assert forall|d: ClassId|
                            pushed_before.contains(d) implies worklist@.contains(d) by {
                            let j = choose|j: int|
                                0 <= j < pushed_before.len() && pushed_before[j] == d;
                            assert(worklist@[j] == d);
                        }
                        assert(worklist@[worklist@.len() - 1] == child_cid);
                        k += 1;
                    }
                },
                _ => {
                    proof {
                        assert(status@[cid as int] is Done);
                    }
                },
            }
        }
        proof {
            let visited = visited_set(status@);
            assert(self.covers(egraph, roots@, visited)) by {
                assert forall|i: int| 0 <= i < roots@.len() implies visited.contains(
                    #[trigger] roots@[i],
                ) by {
                    assert(!worklist@.contains(roots@[i]));
                }
                assert forall|c: ClassId| #[trigger] visited.contains(c) implies self.chosen_ok(
                    egraph,
                    c,
                ) by {
                    assert(self.walk_item_ok(egraph, roots@, cover, c));
                }
                assert forall|c: ClassId, k: int|
                    visited.contains(c) && 0 <= k < self.arity(egraph, c) implies visited.contains(
                    #[trigger] self.dependency(egraph, c, k),
                ) by {
                    assert(!worklist@.contains(self.dependency(egraph, c, k)));
                }
            }
            assert forall|c: ClassId| visited.contains(c) implies self.reachable(
                egraph,
                roots@,
            ).contains(c) by {
                assert(self.walk_item_ok(egraph, roots@, cover, c));
            }
            assert(visited =~= self.reachable(egraph, roots@));
        }
        (total, sub)
    }

    /// What the walk knows of every class it holds: the class exists, the
    /// roots depend on it, and it has a proper choice.
    pub open spec fn walk_item_ok(
        &self,
        egraph: &EGraph,
        roots: Seq<ClassId>,
        cover: Set<ClassId>,
        c: ClassId,
    ) -> bool {
        &&& c < egraph.classes@.len()
        &&& cover.contains(c)
        &&& self.reaches(egraph, roots, c)
    }

    /// The sum over no classes is zero.
    pub proof fn lemma_sum_below_empty(&self, egraph: &EGraph, n: nat)
        ensures
            self.sum_below(egraph, Set::<ClassId>::empty(), n) == 0,
        decreases n,
    {
        if n > 0 {
            self.lemma_sum_below_empty(egraph, (n - 1) as nat);
        }
    }

    /// What a class that the walk holds depends on can be held too.
    pub proof fn lemma_dependency_walk_item_ok(
        &self,
        egraph: &EGraph,
        roots: Seq<ClassId>,
        cover: Set<ClassId>,
        c: ClassId,
        k: int,
    )
        requires
            egraph.well_formed(),
            self.covers(egraph, roots, cover),
            self.walk_item_ok(egraph, roots, cover, c),
            0 <= k < self.arity(egraph, c),
        ensures
            self.walk_item_ok(egraph, roots, cover, self.dependency(egraph, c, k)),
    {
        let d = self.dependency(egraph, c, k);
        assert(self.chosen_ok(egraph, c));
        assert(egraph.node_ok(self@[c] as int));
        assert(egraph.node_ok(egraph.nodes@[self@[c] as int].children@[k] as int));
        assert forall|s: Set<ClassId>| #[trigger] self.covers(egraph, roots, s) implies s.contains(
            d,
        ) by {
            assert(s.contains(c));
        }
    }
}

} // verus!
