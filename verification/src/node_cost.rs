//! The two ways to price a node from the best known costs of its
//! children's classes.

use crate::cost::{
    children_max, children_sum, known_cost, lemma_children_cost_nonnegative, lemma_saturate_add,
    node_cost, saturate, CostFunction, MapGet,
};
use crate::extraction_result::ExtractionResult;
use crate::graph::{ClassId, Cost, EGraph, Node};
use vstd::prelude::*;

verus! {

impl ExtractionResult {
    /// The node's own cost plus the sum of the best known costs of its
    /// children's classes. A child whose class has no known cost counts as
    /// [`crate::graph::INFINITY`], and so does a sum that reaches it.
    pub fn node_sum_cost<M: MapGet<ClassId, Cost>>(
        &self,
        egraph: &EGraph,
        node: &Node,
        costs: &M,
    ) -> (cost: Cost)
        requires
            forall|k: int|
                0 <= k < node.children@.len() ==> #[trigger] node.children@[k] < egraph.nodes@.len(),
        ensures
            cost == node_cost(CostFunction::NodeSum, egraph, node, costs.as_map()),
    {
        let mut total: Cost = node.cost;
        let mut k: usize = 0;
        while k < node.children.len()
            invariant
                k <= node.children@.len(),
                forall|j: int|
                    0 <= j < node.children@.len() ==> #[trigger] node.children@[j]
                        < egraph.nodes@.len(),
                total == saturate(
                    node.cost + children_sum(egraph, node.children@.take(k as int), costs.as_map()),
                ),
            decreases node.children@.len() - k,
        {
            let cid = egraph.nid_to_cid(node.children[k]);
            let child_cost = known_cost(costs, cid);
            proof {
                let before = node.children@.take(k as int);
                let after = node.children@.take(k + 1);
                assert(after.drop_last() =~= before);
                lemma_children_cost_nonnegative(
                    CostFunction::NodeSum,
                    egraph,
                    before,
                    costs.as_map(),
                );
                lemma_saturate_add(
                    node.cost + children_sum(egraph, before, costs.as_map()),
                    child_cost as int,
                );
            }
            total = total.saturating_add(child_cost);
            k += 1;
        }
        assert(node.children@.take(k as int) =~= node.children@);
        total
    }

    /// The node's own cost plus the largest of the best known costs of its
    /// children's classes (nothing for a leaf). A child whose class has no
    /// known cost counts as [`crate::graph::INFINITY`].
    pub fn node_depth_cost<M: MapGet<ClassId, Cost>>(
        &self,
        egraph: &EGraph,
        node: &Node,
        costs: &M,
    ) -> (cost: Cost)
        requires
            forall|k: int|
                0 <= k < node.children@.len() ==> #[trigger] node.children@[k] < egraph.nodes@.len(),
        ensures
            cost == node_cost(CostFunction::NodeDepth, egraph, node, costs.as_map()),
    {
        let mut child_max_cost: Cost = 0;
        let mut k: usize = 0;
        while k < node.children.len()
            invariant
                k <= node.children@.len(),
                forall|j: int|
                    0 <= j < node.children@.len() ==> #[trigger] node.children@[j]
                        < egraph.nodes@.len(),
                child_max_cost == children_max(
                    egraph,
                    node.children@.take(k as int),
                    costs.as_map(),
                ),
            decreases node.children@.len() - k,
        {
            let cid = egraph.nid_to_cid(node.children[k]);
            let child_cost = known_cost(costs, cid);
            proof {
                assert(node.children@.take(k + 1).drop_last() =~= node.children@.take(k as int));
            }
            if child_cost > child_max_cost {
                child_max_cost = child_cost;
            }
            k += 1;
        }
        assert(node.children@.take(k as int) =~= node.children@);
        node.cost.saturating_add(child_max_cost)
    }

    /// The cost of `node` under the cost function `cf`.
    pub fn node_cost_by<M: MapGet<ClassId, Cost>>(
        &self,
        cf: CostFunction,
        egraph: &EGraph,
        node: &Node,
        costs: &M,
    ) -> (cost: Cost)
        requires
            forall|k: int|
                0 <= k < node.children@.len() ==> #[trigger] node.children@[k] < egraph.nodes@.len(),
        ensures
            cost == node_cost(cf, egraph, node, costs.as_map()),
    {
        match cf {
            CostFunction::NodeSum => self.node_sum_cost(egraph, node, costs),
            CostFunction::NodeDepth => self.node_depth_cost(egraph, node, costs),
        }
    }
}

} // verus!
