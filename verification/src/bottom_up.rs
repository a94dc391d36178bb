//! The fixed-point extractor: full passes over all classes until a pass
//! improves nothing.

use crate::cost::{cost_or_infinity, known_cost, node_cost, CostFunction};
use crate::extract::Extractor;
use crate::extraction_result::ExtractionResult;
use crate::fixed_point::{
    lemma_total_cost_insert, lemma_total_cost_nonnegative, settled, total_cost,
};
use crate::fx_tables::{costs_insert, costs_new};
use crate::graph::{Class, ClassId, Cost, EGraph, Node, NodeId};
use rustc_hash::FxHashMap;
use vstd::prelude::*;

verus! {

/// Extraction by repeated full passes.
pub struct BottomUpExtractor;

/// No node is cheaper than its class, as far as a pass has come: through
/// all classes below `ci`, and through the first `j` nodes of class `ci`.
pub open spec fn settled_up_to(
    cf: CostFunction,
    egraph: &EGraph,
    costs: Map<ClassId, Cost>,
    ci: int,
    j: int,
) -> bool {
    forall|c: ClassId, w: int|
        c < egraph.classes@.len() && 0 <= w < egraph.classes@[c as int].nodes@.len() && (c < ci || (
        c == ci && w < j)) ==> cost_or_infinity(costs, c) <= #[trigger] node_cost(
            cf,
            egraph,
            &egraph.nodes@[egraph.classes@[c as int].nodes@[w] as int],
            costs,
        )
}

/// The choices and the class costs at some moment of the work.
pub type Progress = (Map<ClassId, NodeId>, Map<ClassId, Cost>);

/// Pricing node `j` of class `c`: the class takes the node if the node is
/// strictly cheaper than the class.
pub open spec fn visit(
    cf: CostFunction,
    egraph: &EGraph,
    state: Progress,
    c: ClassId,
    j: int,
) -> Progress {
    let n = egraph.classes@[c as int].nodes@[j];
    let cost = node_cost(cf, egraph, &egraph.nodes@[n as int], state.1);
    if cost < cost_or_infinity(state.1, c) {
        (state.0.insert(c, n), state.1.insert(c, cost))
    } else {
        state
    }
}

/// Pricing the first `j` nodes of class `c`, one after the other.
pub open spec fn visit_class(
    cf: CostFunction,
    egraph: &EGraph,
    state: Progress,
    c: ClassId,
    j: nat,
) -> Progress
    decreases j,
{
    if j == 0 {
        state
    } else {
        visit(cf, egraph, visit_class(cf, egraph, state, c, (j - 1) as nat), c, j - 1)
    }
}

/// Pricing all nodes of the first `c` classes, class after class.
pub open spec fn visit_classes(cf: CostFunction, egraph: &EGraph, state: Progress, c: nat) -> Progress
    decreases c,
{
    if c == 0 {
        state
    } else {
        visit_class(
            cf,
            egraph,
            visit_classes(cf, egraph, state, (c - 1) as nat),
            (c - 1) as ClassId,
            egraph.classes@[c - 1].nodes@.len(),
        )
    }
}

/// One full pass over all classes.
pub open spec fn full_pass(cf: CostFunction, egraph: &EGraph, state: Progress) -> Progress {
    visit_classes(cf, egraph, state, egraph.classes@.len())
}

/// The state after `k` full passes that started from nothing.
pub open spec fn after_passes(cf: CostFunction, egraph: &EGraph, k: nat) -> Progress
    decreases k,
{
    if k == 0 {
        (Map::empty(), Map::empty())
    } else {
        full_pass(cf, egraph, after_passes(cf, egraph, (k - 1) as nat))
    }
}

/// `choices` is what the passes end with: the choices after some number of
/// passes, the next of which changes nothing.
pub open spec fn outcome_of_passes(
    cf: CostFunction,
    egraph: &EGraph,
    choices: Map<ClassId, NodeId>,
) -> bool {
    exists|k: nat| #[trigger]
        after_passes(cf, egraph, k).0 == choices && full_pass(
            cf,
            egraph,
            after_passes(cf, egraph, k),
        ) == after_passes(cf, egraph, k)
}

/// Once a pass changes nothing, no later pass changes anything.
pub proof fn lemma_passes_stay(cf: CostFunction, egraph: &EGraph, k: nat, m: nat)
    requires
        full_pass(cf, egraph, after_passes(cf, egraph, k)) == after_passes(cf, egraph, k),
        k <= m,
    ensures
        after_passes(cf, egraph, m) == after_passes(cf, egraph, k),
    decreases m,
{
    if k < m {
        lemma_passes_stay(cf, egraph, k, (m - 1) as nat);
    }
}

/// The passes involve no chance: on one graph and with one cost function
/// they always end with the same choices, and so with the same DAG cost
/// from any roots.
pub proof fn lemma_passes_deterministic(
    cf: CostFunction,
    egraph: &EGraph,
    first: &ExtractionResult,
    second: &ExtractionResult,
    roots: Seq<ClassId>,
)
    requires
        outcome_of_passes(cf, egraph, first@),
        outcome_of_passes(cf, egraph, second@),
    ensures
        first@ == second@,
        first.dag_cost_spec(egraph, roots) == second.dag_cost_spec(egraph, roots),
{
    let k1 = choose|k: nat| #[trigger]
        after_passes(cf, egraph, k).0 == first@ && full_pass(
            cf,
            egraph,
            after_passes(cf, egraph, k),
        ) == after_passes(cf, egraph, k);
    let k2 = choose|k: nat| #[trigger]
        after_passes(cf, egraph, k).0 == second@ && full_pass(
            cf,
            egraph,
            after_passes(cf, egraph, k),
        ) == after_passes(cf, egraph, k);
    if k1 <= k2 {
        lemma_passes_stay(cf, egraph, k1, k2);
    } else {
        lemma_passes_stay(cf, egraph, k2, k1);
    }
    first.lemma_dag_cost_same_choices(second, egraph, roots);
}

impl Extractor for BottomUpExtractor {
    /// Chooses for every class that can be built a cheapest node under the
    /// cost function named `cost_function` (`node_sum_cost` or
    /// `node_depth_cost`).
    ///
    /// Each pass prices every node of every class with the costs known so
    /// far and takes a node that is strictly cheaper than its class. The
    /// passes end when one of them has changed nothing. The roots and
    /// `random_prob` play no part: the outcome covers all classes and
    /// involves no chance.
    #[verifier::rlimit(60)]
    fn extract(
        &self,
        egraph: &EGraph,
        _roots: &[ClassId],
        cost_function: &str,
        random_prob: u32,
    ) -> (result: ExtractionResult)
        ensures
            outcome_of_passes(CostFunction::named(cost_function@)->Some_0, egraph, result@),
    {
        let cf: CostFunction = CostFunction::from_name(cost_function).unwrap();
        let n: usize = egraph.classes.len();
        let mut result = ExtractionResult::default();
        let mut costs: FxHashMap<ClassId, Cost> = costs_new();
        let ghost mut time: Map<ClassId, nat> = Map::empty();
        let ghost mut clock: nat = 0;
        let mut did_something: bool = true;
        let ghost mut passes: nat = 0;
        proof {
            result.lemma_propagated_initially(cf, egraph);
            lemma_total_cost_nonnegative(costs@, n as nat);
        }
        while did_something
            invariant
                egraph.well_formed(),
                n == egraph.classes@.len(),
                result.propagated(cf, egraph, costs@, time, clock),
                !did_something ==> settled(cf, egraph, costs@),
                total_cost(costs@, n as nat) >= 0,
                (result@, costs@) == after_passes(cf, egraph, passes),
                !did_something ==> full_pass(cf, egraph, after_passes(cf, egraph, passes))
                    == after_passes(cf, egraph, passes),
            decreases
                    (if did_something {
                        total_cost(costs@, n as nat) + 1
                    } else {
                        0
                    }),
        {
            did_something = false;
            let ghost costs0 = costs@;
            let ghost state0: Progress = (result@, costs@);
            let mut ci: usize = 0;
            while ci < n
                invariant
                    ci <= n,
                    (result@, costs@) == visit_classes(cf, egraph, state0, ci as nat),
                    !did_something ==> (result@, costs@) == state0,
                    egraph.well_formed(),
                    n == egraph.classes@.len(),
                    result.propagated(cf, egraph, costs@, time, clock),
                    total_cost(costs@, n as nat) >= 0,
                    total_cost(costs@, n as nat) <= total_cost(costs0, n as nat),
                    did_something ==> total_cost(costs@, n as nat) < total_cost(costs0, n as nat),
                    !did_something ==> settled_up_to(cf, egraph, costs@, ci as int, 0),
                decreases n - ci,
            {
                let class: &Class = &egraph.classes[ci];
                let ghost class_start: Progress = (result@, costs@);
                let mut j: usize = 0;
                while j < class.nodes.len()
                    invariant
                        j <= class.nodes@.len(),
                        (result@, costs@) == visit_class(cf, egraph, class_start, ci, j as nat),
                        class_start == visit_classes(cf, egraph, state0, ci as nat),
                        !did_something ==> (result@, costs@) == state0,
                        ci < n,
                        class == egraph.classes@[ci as int],
                        egraph.well_formed(),
                        n == egraph.classes@.len(),
                        result.propagated(cf, egraph, costs@, time, clock),
                        total_cost(costs@, n as nat) >= 0,
                        total_cost(costs@, n as nat) <= total_cost(costs0, n as nat),
                        did_something ==> total_cost(costs@, n as nat) < total_cost(
                            costs0,
                            n as nat,
                        ),
                        !did_something ==> settled_up_to(cf, egraph, costs@, ci as int, j as int),
                    decreases class.nodes@.len() - j,
                {
                    assert(egraph.class_ok(ci as int));
                    assert(egraph.member_ok(ci as int, j as int));
                    let node_id: NodeId = class.nodes[j];
                    let node: &Node = &egraph.nodes[node_id];
                    assert(egraph.node_ok(node_id as int));
                    let cost: Cost = result.node_cost_by(cf, egraph, node, &costs);
                    if cost < known_cost(&costs, ci) {
                        let ghost chosen_before = result;
                        let ghost costs_before = costs@;
                        result.choose_node(ci, node_id);
                        costs_insert(&mut costs, ci, cost);
                        did_something = true;
                        proof {
                            chosen_before.lemma_propagated_step(
                                &result,
                                cf,
                                egraph,
                                costs_before,
                                time,
                                clock,
                                ci,
                                j as int,
                            );
                            lemma_total_cost_insert(costs_before, n as nat, ci, cost);
                            lemma_total_cost_nonnegative(costs@, n as nat);
                            time = time.insert(ci, clock);
                            clock = clock + 1;
                        }
                    }
                    j += 1;
                }
                ci += 1;
            }
            proof {
                passes = passes + 1;
            }
        }
        proof {
            result.lemma_propagated_at_rest(cf, egraph, costs@, time, clock);
            assert(after_passes(cf, egraph, passes).0 == result@);
        }
        result
    }
}

} // verus!
