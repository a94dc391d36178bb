//! Tree cost: the cost of the chosen nodes with every shared part counted
//! as often as it is used.

use crate::cost::saturate;
use crate::extraction_result::ExtractionResult;
use crate::graph::{ClassId, Cost, EGraph, Node, NodeId};
use std::collections::HashMap;
use vstd::prelude::*;

verus! {

/// Adding two cut-off sums and cutting off is the same as cutting off the
/// exact sum.
pub proof fn lemma_saturate_sum(x: int, y: int)
    requires
        0 <= x,
        0 <= y,
    ensures
        saturate(saturate(x) + saturate(y)) == saturate(x + y),
{
}

impl ExtractionResult {
    /// The exact tree cost of class `c`: the own cost of its chosen node
    /// plus the tree costs of the classes it depends on, one term for each
    /// child. `rank` is a ranking of the kind [`Self::ranked`] asks for; it
    /// makes the unfolding end.
    pub open spec fn tree_cost_of(
        &self,
        egraph: &EGraph,
        rank: spec_fn(ClassId) -> nat,
        c: ClassId,
    ) -> int
        decreases rank(c), 1nat, 0nat,
    {
        self.chosen_cost(egraph, c) + self.tree_children(
            egraph,
            rank,
            c,
            self.arity(egraph, c) as nat,
        )
    }

    /// The exact tree costs of the first `k` dependencies of `c`, summed.
    pub open spec fn tree_children(
        &self,
        egraph: &EGraph,
        rank: spec_fn(ClassId) -> nat,
        c: ClassId,
        k: nat,
    ) -> int
        decreases rank(c), 0nat, k,
    {
        if k == 0 {
            0
        } else {
            let d = self.dependency(egraph, c, k - 1);
            self.tree_children(egraph, rank, c, (k - 1) as nat) + if rank(d) < rank(c) {
                self.tree_cost_of(egraph, rank, d)
            } else {
                0
            }
        }
    }

    /// The exact tree costs of the classes of `nodes`, summed.
    pub open spec fn tree_nodes(
        &self,
        egraph: &EGraph,
        rank: spec_fn(ClassId) -> nat,
        nodes: Seq<NodeId>,
    ) -> int
        decreases nodes.len(),
    {
        if nodes.len() == 0 {
            0
        } else {
            self.tree_nodes(egraph, rank, nodes.drop_last()) + self.tree_cost_of(
                egraph,
                rank,
                egraph.nodes@[nodes.last() as int].eclass,
            )
        }
    }

    /// The exact tree costs of `roots`, summed.
    pub open spec fn tree_roots(
        &self,
        egraph: &EGraph,
        rank: spec_fn(ClassId) -> nat,
        roots: Seq<ClassId>,
    ) -> int
        decreases roots.len(),
    {
        if roots.len() == 0 {
            0
        } else {
            self.tree_roots(egraph, rank, roots.drop_last()) + self.tree_cost_of(
                egraph,
                rank,
                roots.last(),
            )
        }
    }

    /// The tree cost from `roots` of a selection that is valid from
    /// `roots`: the sum, over the tree that unfolds from the roots along
    /// the chosen nodes, of each node's own cost.
    pub open spec fn tree_cost_spec(&self, egraph: &EGraph, roots: Seq<ClassId>) -> Cost {
        let (s, rank) = choose|s: Set<ClassId>, rank: spec_fn(ClassId) -> nat|
            self.witnessed_by(egraph, roots, s, rank);
        saturate(self.tree_roots(egraph, rank, roots))
    }

    /// Tree costs are never negative.
    pub proof fn lemma_tree_children_nonnegative(
        &self,
        egraph: &EGraph,
        rank: spec_fn(ClassId) -> nat,
        c: ClassId,
        k: nat,
    )
        ensures
            self.tree_children(egraph, rank, c, k) >= 0,
            k == self.arity(egraph, c) ==> self.tree_cost_of(egraph, rank, c) >= 0,
        decreases rank(c), k,
    {
        if k > 0 {
            let d = self.dependency(egraph, c, k - 1);
            self.lemma_tree_children_nonnegative(egraph, rank, c, (k - 1) as nat);
            if rank(d) < rank(c) {
                self.lemma_tree_children_nonnegative(
                    egraph,
                    rank,
                    d,
                    self.arity(egraph, d) as nat,
                );
                assert(self.tree_cost_of(egraph, rank, d) >= 0);
            }
        }
    }

    /// The summed tree costs of a list of nodes are never negative.
    pub proof fn lemma_tree_nodes_nonnegative(
        &self,
        egraph: &EGraph,
        rank: spec_fn(ClassId) -> nat,
        nodes: Seq<NodeId>,
    )
        ensures
            self.tree_nodes(egraph, rank, nodes) >= 0,
        decreases nodes.len(),
    {
        if nodes.len() > 0 {
            self.lemma_tree_nodes_nonnegative(egraph, rank, nodes.drop_last());
            let c = egraph.nodes@[nodes.last() as int].eclass;
            self.lemma_tree_children_nonnegative(egraph, rank, c, self.arity(egraph, c) as nat);
        }
    }

    /// Summing over the children of the chosen node of `c` is summing over
    /// the dependencies of `c`.
    pub proof fn lemma_tree_nodes_children(
        &self,
        egraph: &EGraph,
        s: Set<ClassId>,
        rank: spec_fn(ClassId) -> nat,
        c: ClassId,
        k: nat,
    )
        requires
            self.ranked(egraph, s, rank),
            s.contains(c),
            k <= self.arity(egraph, c),
        ensures
            self.tree_nodes(
                egraph,
                rank,
                egraph.nodes@[self@[c] as int].children@.take(k as int),
            ) == self.tree_children(egraph, rank, c, k),
        decreases k,
    {
        let children = egraph.nodes@[self@[c] as int].children@;
        if k > 0 {
            self.lemma_tree_nodes_children(egraph, s, rank, c, (k - 1) as nat);
            assert(children.take(k as int).drop_last() =~= children.take(k - 1));
            let d = self.dependency(egraph, c, k - 1);
            assert(rank(d) < rank(c));
        }
    }

    /// The largest rank among `roots`, plus one.
    pub open spec fn rank_bound(rank: spec_fn(ClassId) -> nat, roots: Seq<ClassId>) -> nat
        decreases roots.len(),
    {
        if roots.len() == 0 {
            0
        } else {
            let rest = Self::rank_bound(rank, roots.drop_last());
            if rank(roots.last()) < rest {
                rest
            } else {
                rank(roots.last()) + 1
            }
        }
    }

    /// Every root ranks below the bound.
    pub proof fn lemma_rank_bound(rank: spec_fn(ClassId) -> nat, roots: Seq<ClassId>, i: int)
        requires
            0 <= i < roots.len(),
        ensures
            rank(roots[i]) < Self::rank_bound(rank, roots),
        decreases roots.len(),
    {
        if i < roots.len() - 1 {
            Self::lemma_rank_bound(rank, roots.drop_last(), i);
        }
    }

    /// What the memo table of the tree walk holds: for a node, the cut-off
    /// tree cost of the node's class.
    pub open spec fn memo_ok(
        &self,
        egraph: &EGraph,
        s: Set<ClassId>,
        rank: spec_fn(ClassId) -> nat,
        memo: Map<NodeId, Cost>,
    ) -> bool {
        forall|n: NodeId| #[trigger]
            memo.contains_key(n) ==> {
                &&& n < egraph.nodes@.len()
                &&& memo[n] == saturate(
                    self.tree_cost_of(egraph, rank, egraph.nodes@[n as int].eclass),
                )
            }
    }

    /// The tree cost from `roots`: the own cost of every node met when the
    /// chosen nodes are unfolded into a tree, a shared part counted once
    /// for each use.
    ///
    /// The selection must be valid from `roots`; on a cycle the tree would
    /// not end.
    #[verifier::rlimit(60)]
    pub fn tree_cost(&self, egraph: &EGraph, roots: &[ClassId]) -> (cost: Cost)
        requires
            egraph.well_formed(),
            self.valid_from(egraph, roots@),
        ensures
            cost == self.tree_cost_spec(egraph, roots@),
    {
        let ghost (s, rank) = choose|s: Set<ClassId>, rank: spec_fn(ClassId) -> nat|
            self.witnessed_by(egraph, roots@, s, rank);
        let mut node_roots: Vec<NodeId> = Vec::new();
        let mut i: usize = 0;
        while i < roots.len()
            invariant
                i <= roots@.len(),
                self.witnessed_by(egraph, roots@, s, rank),
                node_roots@.len() == i,
                forall|j: int|
                    0 <= j < i ==> {
                        &&& (#[trigger] node_roots@[j]) < egraph.nodes@.len()
                        &&& egraph.nodes@[node_roots@[j] as int].eclass == roots@[j]
                    },
                self.tree_nodes(egraph, rank, node_roots@) == self.tree_roots(
                    egraph,
                    rank,
                    roots@.take(i as int),
                ),
            decreases roots@.len() - i,
        {
            assert(s.contains(roots@[i as int]));
            assert(self.chosen_ok(egraph, roots@[i as int]));
            let node_id: NodeId = self.get_node(roots[i]).unwrap();
            let ghost before = node_roots@;
            node_roots.push(node_id);
            proof {
                assert(node_roots@.drop_last() =~= before);
                assert(roots@.take(i + 1).drop_last() =~= roots@.take(i as int));
            }
            i += 1;
        }
        assert(roots@.take(i as int) =~= roots@);
        let mut memo: HashMap<NodeId, Cost> = HashMap::new();
        proof {
            assert forall|j: int| 0 <= j < node_roots@.len() implies rank(
                egraph.nodes@[#[trigger] node_roots@[j] as int].eclass,
            ) < Self::rank_bound(rank, roots@) by {
                Self::lemma_rank_bound(rank, roots@, j);
            }
        }
        self.tree_cost_rec(
            egraph,
            &node_roots,
            &mut memo,
            Ghost(s),
            Ghost(rank),
            Ghost(Self::rank_bound(rank, roots@)),
        )
    }

    /// The cut-off sum of the tree costs of the classes of `roots`, with a
    /// memo table that spares a second walk of a node already priced.
    #[verifier::rlimit(60)]
    fn tree_cost_rec(
        &self,
        egraph: &EGraph,
        roots: &Vec<NodeId>,
        memo: &mut HashMap<NodeId, Cost>,
        Ghost(s): Ghost<Set<ClassId>>,
        Ghost(rank): Ghost<spec_fn(ClassId) -> nat>,
        Ghost(bound): Ghost<nat>,
    ) -> (cost: Cost)
        requires
            egraph.well_formed(),
            self.closed(egraph, s),
            self.ranked(egraph, s, rank),
            forall|j: int|
                0 <= j < roots@.len() ==> {
                    &&& (#[trigger] roots@[j]) < egraph.nodes@.len()
                    &&& s.contains(egraph.nodes@[roots@[j] as int].eclass)
                    &&& rank(egraph.nodes@[roots@[j] as int].eclass) < bound
                },
            self.memo_ok(egraph, s, rank, old(memo)@),
        ensures
            self.memo_ok(egraph, s, rank, final(memo)@),
            cost == saturate(self.tree_nodes(egraph, rank, roots@)),
        decreases bound,
    {
        broadcast use vstd::std_specs::hash::group_hash_axioms;

        let mut cost: Cost = 0;
        let mut i: usize = 0;
        while i < roots.len()
            invariant
                i <= roots@.len(),
                egraph.well_formed(),
                self.closed(egraph, s),
                self.ranked(egraph, s, rank),
                forall|j: int|
                    0 <= j < roots@.len() ==> {
                        &&& (#[trigger] roots@[j]) < egraph.nodes@.len()
                        &&& s.contains(egraph.nodes@[roots@[j] as int].eclass)
                        &&& rank(egraph.nodes@[roots@[j] as int].eclass) < bound
                    },
                self.memo_ok(egraph, s, rank, memo@),
                cost == saturate(self.tree_nodes(egraph, rank, roots@.take(i as int))),
            decreases roots@.len() - i,
        {
            let root: NodeId = roots[i];
            let ghost class = egraph.nodes@[root as int].eclass;
            proof {
                assert(roots@.take(i + 1).drop_last() =~= roots@.take(i as int));
                self.lemma_tree_nodes_nonnegative(egraph, rank, roots@.take(i as int));
                self.lemma_tree_children_nonnegative(
                    egraph,
                    rank,
                    class,
                    self.arity(egraph, class) as nat,
                );
                lemma_saturate_sum(
                    self.tree_nodes(egraph, rank, roots@.take(i as int)),
                    self.tree_cost_of(egraph, rank, class),
                );
            }
            let known: Option<Cost> = match memo.get(&root) {
                Some(c) => Some(*c),
                None => None,
            };
            match known {
                Some(c) => {
                    cost = cost.saturating_add(c);
                },
                None => {
                    let class_id: ClassId = egraph.nid_to_cid(root);
                    assert(self.chosen_ok(egraph, class_id));
                    let node_id: NodeId = self.get_node(class_id).unwrap();
                    let node: &Node = &egraph.nodes[node_id];
                    proof {
                        assert(egraph.node_ok(node_id as int));
                        assert forall|j: int| 0 <= j < node.children@.len() implies {
                            &&& (#[trigger] node.children@[j]) < egraph.nodes@.len()
                            &&& s.contains(egraph.nodes@[node.children@[j] as int].eclass)
                            &&& rank(egraph.nodes@[node.children@[j] as int].eclass) < rank(
                                class_id,
                            )
                        } by {
                            let d = self.dependency(egraph, class_id, j);
                            assert(s.contains(d));
                            assert(rank(d) < rank(class_id));
                        }
                        self.lemma_tree_nodes_children(
                            egraph,
                            s,
                            rank,
                            class_id,
                            node.children@.len() as nat,
                        );
                        assert(node.children@.take(node.children@.len() as int)
                            =~= node.children@);
                        self.lemma_tree_nodes_nonnegative(egraph, rank, node.children@);
                        lemma_saturate_sum(
                            node.cost as int,
                            self.tree_nodes(egraph, rank, node.children@),
                        );
                    }
                    let below = self.tree_cost_rec(
                        egraph,
                        &node.children,
                        memo,
                        Ghost(s),
                        Ghost(rank),
                        Ghost(rank(class_id)),
                    );
                    let inner: Cost = node.cost.saturating_add(below);
                    memo.insert(root, inner);
                    cost = cost.saturating_add(inner);
                },
            }
            i += 1;
        }
        assert(roots@.take(i as int) =~= roots@);
        cost
    }
}

} // verus!
