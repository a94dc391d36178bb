//! The work-queue extractors: the same fixed point as the full passes
//! reach, found by pricing again only the nodes whose children changed.

use crate::cost::{cost_or_infinity, known_cost, node_cost, CostFunction};
use crate::extract::Extractor;
use crate::extraction_result::ExtractionResult;
use crate::fixed_point::{
    lemma_total_cost_insert, lemma_total_cost_nonnegative, settled, total_cost,
};
use crate::fx_tables::{costs_insert, costs_new};
use crate::graph::{ClassId, Cost, EGraph, Node, NodeId};
use crate::unique_queue::UniqueQueue;
use crate::unique_queue::extended;
use crate::worklist::{
    all_listed, build_parents, leaves, lemma_pending_commit, lemma_pending_skip, listed_node,
    parents_exact, parents_ok, pending_covers, seed_leaves, users,
};
use rustc_hash::FxHashMap;
use vstd::prelude::*;

verus! {

/// Extraction by propagation from the leaves through a work queue.
pub struct FasterBottomUpExtractorRandom;

/// The choices, the class costs and the queue at some moment of the work.
pub type QueueProgress = (Map<ClassId, NodeId>, Map<ClassId, Cost>, Seq<NodeId>);

/// One step of the work: the node at the front of the queue is priced; if
/// it is strictly cheaper than its class, the class takes it and the nodes
/// that use the class are queued. With an empty queue nothing happens.
pub open spec fn queue_step(cf: CostFunction, egraph: &EGraph, state: QueueProgress) -> QueueProgress {
    if state.2.len() == 0 {
        state
    } else {
        let q = state.2[0];
        let c = egraph.nodes@[q as int].eclass;
        let cost = node_cost(cf, egraph, &egraph.nodes@[q as int], state.1);
        if cost < cost_or_infinity(state.1, c) {
            (
                state.0.insert(c, q),
                state.1.insert(c, cost),
                extended(state.2.drop_first(), users(egraph, c, egraph.classes@.len())),
            )
        } else {
            (state.0, state.1, state.2.drop_first())
        }
    }
}

/// The state after `k` steps that started from nothing chosen and the
/// leaves queued.
pub open spec fn after_steps(cf: CostFunction, egraph: &EGraph, k: nat) -> QueueProgress
    decreases k,
{
    if k == 0 {
        (Map::empty(), Map::empty(), leaves(egraph, egraph.classes@.len()))
    } else {
        queue_step(cf, egraph, after_steps(cf, egraph, (k - 1) as nat))
    }
}

/// `choices` is what the work ends with: the choices after some number of
/// steps that leave the queue empty.
pub open spec fn outcome_of_queue(
    cf: CostFunction,
    egraph: &EGraph,
    choices: Map<ClassId, NodeId>,
) -> bool {
    exists|k: nat| #[trigger]
        after_steps(cf, egraph, k).0 == choices && after_steps(cf, egraph, k).2.len() == 0
}

/// Once the queue is empty, further steps change nothing.
pub proof fn lemma_steps_stay(cf: CostFunction, egraph: &EGraph, k: nat, m: nat)
    requires
        after_steps(cf, egraph, k).2.len() == 0,
        k <= m,
    ensures
        after_steps(cf, egraph, m) == after_steps(cf, egraph, k),
    decreases m,
{
    if k < m {
        lemma_steps_stay(cf, egraph, k, (m - 1) as nat);
    }
}

/// The work involves no chance: on one graph and with one cost function
/// it always ends with the same choices, and so with the same DAG cost
/// from any roots.
pub proof fn lemma_queue_deterministic(
    cf: CostFunction,
    egraph: &EGraph,
    first: &ExtractionResult,
    second: &ExtractionResult,
    roots: Seq<ClassId>,
)
    requires
        outcome_of_queue(cf, egraph, first@),
        outcome_of_queue(cf, egraph, second@),
    ensures
        first@ == second@,
        first.dag_cost_spec(egraph, roots) == second.dag_cost_spec(egraph, roots),
{
    let k1 = choose|k: nat| #[trigger]
        after_steps(cf, egraph, k).0 == first@ && after_steps(cf, egraph, k).2.len() == 0;
    let k2 = choose|k: nat| #[trigger]
        after_steps(cf, egraph, k).0 == second@ && after_steps(cf, egraph, k).2.len() == 0;
    if k1 <= k2 {
        lemma_steps_stay(cf, egraph, k1, k2);
    } else {
        lemma_steps_stay(cf, egraph, k2, k1);
    }
    first.lemma_dag_cost_same_choices(second, egraph, roots);
}

impl Extractor for FasterBottomUpExtractorRandom {
    /// Chooses for every class that can be built a cheapest node under the
    /// cost function named `cost_function` (`node_sum_cost` or
    /// `node_depth_cost`).
    ///
    /// The queue starts with the leaves. A node taken from the queue is
    /// priced with the costs known so far; if it is strictly cheaper than
    /// its class, the class takes it, and the nodes that use the class are
    /// queued. The work ends when the queue is empty. The roots and
    /// `random_prob` play no part: the outcome covers all classes and
    /// involves no chance.
    #[verifier::rlimit(60)]
    fn extract(
        &self,
        egraph: &EGraph,
        _roots: &[ClassId],
        cost_function: &str,
        random_prob: u32,
    ) -> (result: ExtractionResult)
        ensures
            outcome_of_queue(CostFunction::named(cost_function@)->Some_0, egraph, result@),
    {
        let cf: CostFunction = CostFunction::from_name(cost_function).unwrap();
        let n: usize = egraph.classes.len();
        let parents: Vec<Vec<NodeId>> = build_parents(egraph);
        let mut analysis_pending: UniqueQueue = seed_leaves(egraph);
        let mut result = ExtractionResult::default();
        let mut costs: FxHashMap<ClassId, Cost> = costs_new();
        let ghost mut time: Map<ClassId, nat> = Map::empty();
        let ghost mut clock: nat = 0;
        let ghost mut steps: nat = 0;
        proof {
            result.lemma_propagated_initially(cf, egraph);
            lemma_total_cost_nonnegative(costs@, n as nat);
            assert(pending_covers(cf, egraph, Map::<ClassId, Cost>::empty(), analysis_pending@));
        }
        while !analysis_pending.is_empty()
            invariant
                egraph.well_formed(),
                n == egraph.classes@.len(),
                parents_ok(egraph, parents@),
                parents_exact(egraph, parents@),
                (result@, costs@, analysis_pending@) == after_steps(cf, egraph, steps),
                analysis_pending.well_formed(),
                all_listed(egraph, analysis_pending@),
                pending_covers(cf, egraph, costs@, analysis_pending@),
                result.propagated(cf, egraph, costs@, time, clock),
                total_cost(costs@, n as nat) >= 0,
            decreases total_cost(costs@, n as nat), analysis_pending@.len(),
        {
            let ghost queue_before = analysis_pending@;
            let ghost state_before: QueueProgress = (result@, costs@, analysis_pending@);
            let node_id: NodeId = analysis_pending.pop().unwrap();
            assert(listed_node(egraph, queue_before[0]));
            let class_id: ClassId = egraph.nid_to_cid(node_id);
            let node: &Node = &egraph.nodes[node_id];
            assert(egraph.node_ok(node_id as int));
            let prev_cost: Cost = known_cost(&costs, class_id);
            let cost: Cost = result.node_cost_by(cf, egraph, node, &costs);
            if cost < prev_cost {
                let ghost chosen_before = result;
                let ghost costs_before = costs@;
                result.choose_node(class_id, node_id);
                costs_insert(&mut costs, class_id, cost);
                analysis_pending.extend(&parents[class_id]);
                proof {
                    let j = choose|j: int|
                        0 <= j < egraph.classes@[class_id as int].nodes@.len()
                            && #[trigger] egraph.classes@[class_id as int].nodes@[j] == node_id;
                    chosen_before.lemma_propagated_step(
                        &result,
                        cf,
                        egraph,
                        costs_before,
                        time,
                        clock,
                        class_id,
                        j,
                    );
                    lemma_total_cost_insert(costs_before, n as nat, class_id, cost);
                    lemma_total_cost_nonnegative(costs@, n as nat);
                    lemma_pending_commit(cf, egraph, costs_before, queue_before, parents@);
                    time = time.insert(class_id, clock);
                    clock = clock + 1;
                }
            } else {
                proof {
                    lemma_pending_skip(cf, egraph, costs@, queue_before);
                    assert forall|i: int| 0 <= i < analysis_pending@.len() implies listed_node(
                        egraph,
                        #[trigger] analysis_pending@[i],
                    ) by {
                        assert(analysis_pending@[i] == queue_before[i + 1]);
                    }
                }
            }
            proof {
                assert((result@, costs@, analysis_pending@) == queue_step(cf, egraph, state_before));
                steps = steps + 1;
            }
        }
        proof {
            assert(after_steps(cf, egraph, steps).0 == result@);
            assert(settled(cf, egraph, costs@)) by {
                assert forall|c: ClassId, j: int|
                    c < egraph.classes@.len() && 0 <= j < egraph.classes@[c as int].nodes@.len() implies cost_or_infinity(
                    costs@,
                    c,
                ) <= #[trigger] node_cost(
                    cf,
                    egraph,
                    &egraph.nodes@[egraph.classes@[c as int].nodes@[j] as int],
                    costs@,
                ) by {
                    assert(!analysis_pending@.contains(egraph.classes@[c as int].nodes@[j]));
                }
            }
            result.lemma_propagated_at_rest(cf, egraph, costs@, time, clock);
        }
        result
    }
}

} // verus!
