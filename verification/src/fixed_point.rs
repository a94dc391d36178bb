//! The fixed point that cost propagation reaches, and what every
//! propagation step keeps true on the way there.
//!
//! Propagation starts with every class at infinite cost and lowers the cost
//! of one class at a time to the cost of one of its nodes. It ends when no
//! node is cheaper than its class.

use crate::cost::{
    cost_or_infinity, lemma_finite_node_has_known_children, lemma_node_cost_monotone, node_cost,
    pointwise_le, CostFunction,
};
use crate::extraction_result::ExtractionResult;
use crate::graph::{ClassId, Cost, EGraph, NodeId, INFINITY};
use vstd::prelude::*;

verus! {

/// No node is cheaper than its class: the costs cannot be improved.
pub open spec fn settled(cf: CostFunction, egraph: &EGraph, costs: Map<ClassId, Cost>) -> bool {
    forall|c: ClassId, j: int|
        c < egraph.classes@.len() && 0 <= j < egraph.classes@[c as int].nodes@.len()
            ==> cost_or_infinity(costs, c) <= #[trigger] node_cost(
            cf,
            egraph,
            &egraph.nodes@[egraph.classes@[c as int].nodes@[j] as int],
            costs,
        )
}

/// Every assignment that cannot be improved lies at or below `costs`.
pub open spec fn dominates(cf: CostFunction, egraph: &EGraph, costs: Map<ClassId, Cost>) -> bool {
    forall|f: Map<ClassId, Cost>| #[trigger] settled(cf, egraph, f) ==> pointwise_le(f, costs)
}

/// `costs` holds a finite cost for some classes of the graph, and no other
/// entries.
pub open spec fn finite_entries(egraph: &EGraph, costs: Map<ClassId, Cost>) -> bool {
    forall|c: ClassId| #[trigger]
        costs.contains_key(c) ==> c < egraph.classes@.len() && costs[c] < INFINITY
}

/// `costs` is the fixed point of cost propagation: it cannot be improved,
/// and it is the greatest assignment of that kind.
pub open spec fn best_costs(cf: CostFunction, egraph: &EGraph, costs: Map<ClassId, Cost>) -> bool {
    &&& finite_entries(egraph, costs)
    &&& settled(cf, egraph, costs)
    &&& dominates(cf, egraph, costs)
}

/// `(cost, time)` of `d` comes before that of `c`.
pub open spec fn before(
    costs: Map<ClassId, Cost>,
    time: Map<ClassId, nat>,
    d: ClassId,
    c: ClassId,
) -> bool {
    &&& costs.contains_key(d)
    &&& time.contains_key(d)
    &&& (costs[d] < costs[c] || (costs[d] == costs[c] && time[d] < time[c]))
}

/// The sum of the costs of the classes with an id below `n`.
pub open spec fn total_cost(costs: Map<ClassId, Cost>, n: nat) -> int
    decreases n,
{
    if n == 0 {
        0
    } else {
        total_cost(costs, (n - 1) as nat) + cost_or_infinity(costs, (n - 1) as ClassId)
    }
}

/// A total of costs is never negative.
pub proof fn lemma_total_cost_nonnegative(costs: Map<ClassId, Cost>, n: nat)
    ensures
        total_cost(costs, n) >= 0,
    decreases n,
{
    if n > 0 {
        lemma_total_cost_nonnegative(costs, (n - 1) as nat);
    }
}

/// Lowering the cost of one class lowers the total.
pub proof fn lemma_total_cost_insert(costs: Map<ClassId, Cost>, n: nat, c: ClassId, cost: Cost)
    requires
        n <= usize::MAX,
        cost <= cost_or_infinity(costs, c),
    ensures
        total_cost(costs.insert(c, cost), n) <= total_cost(costs, n),
        c < n && cost < cost_or_infinity(costs, c) ==> total_cost(costs.insert(c, cost), n)
            < total_cost(costs, n),
    decreases n,
{
    if n > 0 {
        lemma_total_cost_insert(costs, (n - 1) as nat, c, cost);
    }
}

/// Two fixed points of cost propagation are the same.
pub proof fn lemma_best_costs_unique(
    cf: CostFunction,
    egraph: &EGraph,
    a: Map<ClassId, Cost>,
    b: Map<ClassId, Cost>,
)
    requires
        best_costs(cf, egraph, a),
        best_costs(cf, egraph, b),
    ensures
        a == b,
{
    assert(pointwise_le(a, b));
    assert(pointwise_le(b, a));
    assert forall|c: ClassId| a.contains_key(c) == b.contains_key(c) && (a.contains_key(c)
        ==> a[c] == b[c]) by {
        assert(cost_or_infinity(a, c) <= cost_or_infinity(b, c));
        assert(cost_or_infinity(b, c) <= cost_or_infinity(a, c));
    }
    assert(a =~= b);
}

impl ExtractionResult {
    /// The node chosen for `c` is one of the nodes that class `c` lists.
    pub open spec fn listed(&self, egraph: &EGraph, c: ClassId) -> bool {
        exists|j: int|
            0 <= j < egraph.classes@[c as int].nodes@.len()
                && #[trigger] egraph.classes@[c as int].nodes@[j] == self@[c]
    }

    /// What cost propagation keeps true of its choices, its costs and the
    /// times at which it made the choices: exactly the classes with a cost
    /// have a choice; the chosen node belongs to the class and costs no
    /// more than the class; and each class comes after the classes it
    /// depends on, by cost and, among equal costs, by time.
    pub open spec fn propagated(
        &self,
        cf: CostFunction,
        egraph: &EGraph,
        costs: Map<ClassId, Cost>,
        time: Map<ClassId, nat>,
        clock: nat,
    ) -> bool {
        &&& self@.dom() == costs.dom()
        &&& time.dom() == costs.dom()
        &&& finite_entries(egraph, costs)
        &&& forall|c: ClassId| #[trigger]
            costs.contains_key(c) ==> {
                &&& self.chosen_ok(egraph, c)
                &&& self.listed(egraph, c)
                &&& time[c] < clock
                &&& node_cost(cf, egraph, &egraph.nodes@[self@[c] as int], costs) <= costs[c]
            }
        &&& forall|c: ClassId, k: int|
            costs.contains_key(c) && 0 <= k < self.arity(egraph, c) ==> before(
                costs,
                time,
                #[trigger] self.dependency(egraph, c, k),
                c,
            )
        &&& dominates(cf, egraph, costs)
    }

    /// The choices are those of the fixed point `costs`: a class has a
    /// choice exactly if its cost is finite, and the chosen node is a node
    /// of the class that costs what the class costs.
    pub open spec fn realizes(
        &self,
        cf: CostFunction,
        egraph: &EGraph,
        costs: Map<ClassId, Cost>,
    ) -> bool {
        &&& best_costs(cf, egraph, costs)
        &&& self@.dom() == costs.dom()
        &&& forall|c: ClassId| #[trigger]
            costs.contains_key(c) ==> {
                &&& self.chosen_ok(egraph, c)
                &&& self.listed(egraph, c)
                &&& node_cost(cf, egraph, &egraph.nodes@[self@[c] as int], costs) == costs[c]
            }
    }

    /// The selection is a cheapest one under `cf`: it realizes the fixed
    /// point of cost propagation.
    pub open spec fn optimal_for(&self, cf: CostFunction, egraph: &EGraph) -> bool {
        exists|costs: Map<ClassId, Cost>| self.realizes(cf, egraph, costs)
    }

    /// The selection stands on its own feet: each class with a choice has a
    /// proper one and depends only on classes with a choice, and the chosen
    /// nodes form no cycle.
    pub open spec fn acyclic(&self, egraph: &EGraph) -> bool {
        &&& self.closed(egraph, self@.dom())
        &&& exists|rank: spec_fn(ClassId) -> nat| self.ranked(egraph, self@.dom(), rank)
    }

    /// No cycle in what an extractor returns: a selection that stands on
    /// its own feet is valid from any roots that have a choice, which is
    /// when [`ExtractionResult::find_cycles`] reports nothing.
    pub proof fn lemma_acyclic_valid_from(&self, egraph: &EGraph, roots: Seq<ClassId>)
        requires
            self.acyclic(egraph),
            forall|i: int| 0 <= i < roots.len() ==> self@.contains_key(#[trigger] roots[i]),
        ensures
            self.valid_from(egraph, roots),
    {
        let rank = choose|rank: spec_fn(ClassId) -> nat| self.ranked(egraph, self@.dom(), rank);
        assert forall|i: int| 0 <= i < roots.len() implies self@.dom().contains(
            #[trigger] roots[i],
        ) by {
            assert(self@.contains_key(roots[i]));
        }
        assert(self.witnessed_by(egraph, roots, self@.dom(), rank));
    }

    /// Before anything is chosen, nothing needs to hold.
    pub proof fn lemma_propagated_initially(&self, cf: CostFunction, egraph: &EGraph)
        requires
            self@ == Map::<ClassId, NodeId>::empty(),
        ensures
            self.propagated(cf, egraph, Map::empty(), Map::empty(), 0),
    {
        let costs = Map::<ClassId, Cost>::empty();
        assert(self@.dom() =~= costs.dom());
        assert(Map::<ClassId, nat>::empty().dom() =~= costs.dom());
        assert forall|f: Map<ClassId, Cost>| #[trigger] settled(cf, egraph, f) implies pointwise_le(
            f,
            costs,
        ) by {}
    }

    /// One step of cost propagation: class `c` takes node `j` of its list,
    /// which is cheaper than `c` was. What propagation keeps true is still
    /// true afterwards.
    #[verifier::rlimit(60)]
    pub proof fn lemma_propagated_step(
        &self,
        after: &ExtractionResult,
        cf: CostFunction,
        egraph: &EGraph,
        costs: Map<ClassId, Cost>,
        time: Map<ClassId, nat>,
        clock: nat,
        c: ClassId,
        j: int,
    )
        requires
            egraph.well_formed(),
            self.propagated(cf, egraph, costs, time, clock),
            c < egraph.classes@.len(),
            0 <= j < egraph.classes@[c as int].nodes@.len(),
            node_cost(
                cf,
                egraph,
                &egraph.nodes@[egraph.classes@[c as int].nodes@[j] as int],
                costs,
            ) < cost_or_infinity(costs, c),
            after@ == self@.insert(c, egraph.classes@[c as int].nodes@[j]),
        ensures
            after.propagated(
                cf,
                egraph,
                costs.insert(
                    c,
                    node_cost(
                        cf,
                        egraph,
                        &egraph.nodes@[egraph.classes@[c as int].nodes@[j] as int],
                        costs,
                    ),
                ),
                time.insert(c, clock),
                clock + 1,
            ),
    {
        let n = egraph.classes@[c as int].nodes@[j];
        let node = &egraph.nodes@[n as int];
        let cost = node_cost(cf, egraph, node, costs);
        let costs2 = costs.insert(c, cost);
        let time2 = time.insert(c, clock);
        assert(egraph.class_ok(c as int));
        assert(egraph.member_ok(c as int, j));
        assert(after@.dom() =~= costs2.dom());
        assert(time2.dom() =~= costs2.dom());
        assert(pointwise_le(costs2, costs));
        assert forall|e: ClassId| #[trigger] costs2.contains_key(e) implies {
            &&& after.chosen_ok(egraph, e)
            &&& after.listed(egraph, e)
            &&& time2[e] < clock + 1
            &&& node_cost(cf, egraph, &egraph.nodes@[after@[e] as int], costs2) <= costs2[e]
        } by {
            if e == c {
                lemma_node_cost_monotone(cf, egraph, node, costs2, costs);
                assert(egraph.classes@[c as int].nodes@[j] == after@[c]);
            } else {
                assert(costs.contains_key(e));
                assert(self.chosen_ok(egraph, e));
                assert(self.listed(egraph, e));
                let w = choose|w: int|
                    0 <= w < egraph.classes@[e as int].nodes@.len()
                        && #[trigger] egraph.classes@[e as int].nodes@[w] == self@[e];
                assert(egraph.classes@[e as int].nodes@[w] == after@[e]);
                lemma_node_cost_monotone(
                    cf,
                    egraph,
                    &egraph.nodes@[self@[e] as int],
                    costs2,
                    costs,
                );
            }
        }
        assert forall|e: ClassId, k: int|
            costs2.contains_key(e) && 0 <= k < after.arity(egraph, e) implies before(
            costs2,
            time2,
            #[trigger] after.dependency(egraph, e, k),
            e,
        ) by {
            let d = after.dependency(egraph, e, k);
            if e == c {
                lemma_finite_node_has_known_children(cf, egraph, node, costs, k);
                assert(d != c);
                assert(costs.contains_key(d));
            } else {
                assert(d == self.dependency(egraph, e, k));
                assert(before(costs, time, d, e));
            }
        }
        assert forall|f: Map<ClassId, Cost>| #[trigger] settled(cf, egraph, f) implies pointwise_le(
            f,
            costs2,
        ) by {
            assert(pointwise_le(f, costs));
            assert forall|e: ClassId| #[trigger]
                cost_or_infinity(f, e) <= cost_or_infinity(costs2, e) by {
                if e == c {
                    lemma_node_cost_monotone(cf, egraph, node, f, costs);
                    assert(cost_or_infinity(f, c) <= node_cost(cf, egraph, node, f));
                } else {
                    assert(cost_or_infinity(f, e) <= cost_or_infinity(costs, e));
                }
            }
        }
    }

    /// When propagation has come to rest, its choices are a cheapest
    /// selection, and they form no cycle.
    #[verifier::rlimit(60)]
    pub proof fn lemma_propagated_at_rest(
        &self,
        cf: CostFunction,
        egraph: &EGraph,
        costs: Map<ClassId, Cost>,
        time: Map<ClassId, nat>,
        clock: nat,
    )
        requires
            egraph.well_formed(),
            self.propagated(cf, egraph, costs, time, clock),
            settled(cf, egraph, costs),
        ensures
            self.realizes(cf, egraph, costs),
            self.optimal_for(cf, egraph),
            self.acyclic(egraph),
    {
        assert forall|c: ClassId| #[trigger] costs.contains_key(c) implies node_cost(
            cf,
            egraph,
            &egraph.nodes@[self@[c] as int],
            costs,
        ) == costs[c] by {
            assert(self.listed(egraph, c));
            let w = choose|w: int|
                0 <= w < egraph.classes@[c as int].nodes@.len()
                    && #[trigger] egraph.classes@[c as int].nodes@[w] == self@[c];
            assert(cost_or_infinity(costs, c) <= node_cost(
                cf,
                egraph,
                &egraph.nodes@[egraph.classes@[c as int].nodes@[w] as int],
                costs,
            ));
        }
        assert(self.realizes(cf, egraph, costs));
        let dom = self@.dom();
        assert forall|c: ClassId| #[trigger] dom.contains(c) implies self.chosen_ok(egraph, c) by {
            assert(costs.contains_key(c));
        }
        assert forall|c: ClassId, k: int|
            dom.contains(c) && 0 <= k < self.arity(egraph, c) implies dom.contains(
            #[trigger] self.dependency(egraph, c, k),
        ) by {
            assert(costs.contains_key(c));
            assert(before(costs, time, self.dependency(egraph, c, k), c));
        }
        let rank = |c: ClassId|
            if costs.contains_key(c) {
                (costs[c] * (clock + 1) + time[c]) as nat
            } else {
                0nat
            };
        assert forall|c: ClassId, k: int|
            dom.contains(c) && 0 <= k < self.arity(egraph, c) implies rank(
            #[trigger] self.dependency(egraph, c, k),
        ) < rank(c) by {
            let d = self.dependency(egraph, c, k);
            assert(costs.contains_key(c));
            assert(before(costs, time, d, c));
            assert(costs.contains_key(d));
            assert(time[d] < clock && time[c] < clock);
            lemma_pair_rank(costs[d] as nat, time[d], costs[c] as nat, time[c], clock);
        }
        assert(self.ranked(egraph, dom, rank));
    }
}

/// Pairs ordered by their first part, then by their second, keep their
/// order when packed into one number.
pub proof fn lemma_pair_rank(a: nat, s: nat, b: nat, t: nat, clock: nat)
    requires
        s < clock,
        t < clock,
        a < b || (a == b && s < t),
    ensures
        a * (clock + 1) + s < b * (clock + 1) + t,
{
    if a < b {
        assert(a * (clock + 1) + (clock + 1) <= b * (clock + 1)) by (nonlinear_arith)
            requires
                a + 1 <= b,
        ;
    }
}

} // verus!
