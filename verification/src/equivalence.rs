//! What any two cheapest selections have in common, whichever extractor
//! made them and in whatever order it worked.

use crate::cost::{
    children_sum, lemma_child_le_children_cost, lemma_children_cost_nonnegative, node_cost,
    CostFunction,
};
use crate::extraction_result::ExtractionResult;
use crate::fixed_point::lemma_best_costs_unique;
use crate::graph::{ClassId, Cost, EGraph, INFINITY};
use vstd::prelude::*;

verus! {

/// No class has two different nodes that both cost what the class costs.
pub open spec fn untied(cf: CostFunction, egraph: &EGraph, costs: Map<ClassId, Cost>) -> bool {
    forall|c: ClassId, i: int, j: int|
        costs.contains_key(c) && c < egraph.classes@.len() && 0 <= i
            < egraph.classes@[c as int].nodes@.len() && 0 <= j
            < egraph.classes@[c as int].nodes@.len() && #[trigger] node_cost(
            cf,
            egraph,
            &egraph.nodes@[egraph.classes@[c as int].nodes@[i] as int],
            costs,
        ) == costs[c] && #[trigger] node_cost(
            cf,
            egraph,
            &egraph.nodes@[egraph.classes@[c as int].nodes@[j] as int],
            costs,
        ) == costs[c] ==> egraph.classes@[c as int].nodes@[i] == egraph.classes@[c as int].nodes@[j]
}

impl ExtractionResult {
    /// Two cheapest selections give a choice to the same classes and price
    /// every class alike.
    pub proof fn lemma_cheapest_agree_on_costs(
        &self,
        other: &ExtractionResult,
        cf: CostFunction,
        egraph: &EGraph,
        costs: Map<ClassId, Cost>,
        other_costs: Map<ClassId, Cost>,
    )
        requires
            self.realizes(cf, egraph, costs),
            other.realizes(cf, egraph, other_costs),
        ensures
            costs == other_costs,
            self@.dom() == other@.dom(),
    {
        lemma_best_costs_unique(cf, egraph, costs, other_costs);
    }

    /// Where no class has two cheapest nodes, two cheapest selections are
    /// the same selection.
    pub proof fn lemma_cheapest_agree_on_choices(
        &self,
        other: &ExtractionResult,
        cf: CostFunction,
        egraph: &EGraph,
        costs: Map<ClassId, Cost>,
    )
        requires
            self.realizes(cf, egraph, costs),
            other.optimal_for(cf, egraph),
            untied(cf, egraph, costs),
        ensures
            self@ == other@,
    {
        let other_costs = choose|m: Map<ClassId, Cost>| other.realizes(cf, egraph, m);
        lemma_best_costs_unique(cf, egraph, costs, other_costs);
        assert forall|c: ClassId| self@.contains_key(c) implies self@[c] == other@[c] by {
            assert(costs.contains_key(c));
            assert(self.listed(egraph, c));
            assert(other.listed(egraph, c));
            let i = choose|i: int|
                0 <= i < egraph.classes@[c as int].nodes@.len()
                    && #[trigger] egraph.classes@[c as int].nodes@[i] == self@[c];
            let j = choose|j: int|
                0 <= j < egraph.classes@[c as int].nodes@.len()
                    && #[trigger] egraph.classes@[c as int].nodes@[j] == other@[c];
            assert(node_cost(
                cf,
                egraph,
                &egraph.nodes@[egraph.classes@[c as int].nodes@[i] as int],
                costs,
            ) == costs[c]);
            assert(node_cost(
                cf,
                egraph,
                &egraph.nodes@[egraph.classes@[c as int].nodes@[j] as int],
                costs,
            ) == costs[c]);
        }
        assert(self@ =~= other@);
    }

    /// The sum over a set of classes depends on the choices alone.
    pub proof fn lemma_sum_below_same_choices(
        &self,
        other: &ExtractionResult,
        egraph: &EGraph,
        s: Set<ClassId>,
        n: nat,
    )
        requires
            self@ == other@,
        ensures
            self.sum_below(egraph, s, n) == other.sum_below(egraph, s, n),
        decreases n,
    {
        if n > 0 {
            self.lemma_sum_below_same_choices(other, egraph, s, (n - 1) as nat);
        }
    }

    /// The DAG cost depends on the choices alone.
    pub proof fn lemma_dag_cost_same_choices(
        &self,
        other: &ExtractionResult,
        egraph: &EGraph,
        roots: Seq<ClassId>,
    )
        requires
            self@ == other@,
        ensures
            self.dag_cost_spec(egraph, roots) == other.dag_cost_spec(egraph, roots),
    {
        assert forall|s: Set<ClassId>| self.covers(egraph, roots, s) == other.covers(
            egraph,
            roots,
            s,
        ) by {
            if self.covers(egraph, roots, s) {
                self.lemma_covers_same_choices(other, egraph, roots, s);
            }
            if other.covers(egraph, roots, s) {
                other.lemma_covers_same_choices(self, egraph, roots, s);
            }
        }
        assert forall|c: ClassId| self.reaches(egraph, roots, c) == other.reaches(
            egraph,
            roots,
            c,
        ) by {
            if self.reaches(egraph, roots, c) {
                assert forall|s: Set<ClassId>| #[trigger]
                    other.covers(egraph, roots, s) implies s.contains(c) by {
                    assert(self.covers(egraph, roots, s));
                }
            }
            if other.reaches(egraph, roots, c) {
                assert forall|s: Set<ClassId>| #[trigger]
                    self.covers(egraph, roots, s) implies s.contains(c) by {
                    assert(other.covers(egraph, roots, s));
                }
            }
        }
        assert(self.reachable(egraph, roots) =~= other.reachable(egraph, roots));
        self.lemma_sum_below_same_choices(
            other,
            egraph,
            self.reachable(egraph, roots),
            egraph.classes@.len() as nat,
        );
    }

    /// Whether a set covers the roots depends on the choices alone.
    pub proof fn lemma_covers_same_choices(
        &self,
        other: &ExtractionResult,
        egraph: &EGraph,
        roots: Seq<ClassId>,
        s: Set<ClassId>,
    )
        requires
            self@ == other@,
            self.covers(egraph, roots, s),
        ensures
            other.covers(egraph, roots, s),
    {
        assert forall|c: ClassId| #[trigger] s.contains(c) implies other.chosen_ok(egraph, c) by {
            assert(self.chosen_ok(egraph, c));
        }
        assert forall|c: ClassId, k: int|
            s.contains(c) && 0 <= k < other.arity(egraph, c) implies s.contains(
            #[trigger] other.dependency(egraph, c, k),
        ) by {
            assert(other.dependency(egraph, c, k) == self.dependency(egraph, c, k));
        }
    }

    /// Same fixed point, whatever the order of the work: two cheapest
    /// selections for one graph and one cost function price every class
    /// alike, and where no class has two cheapest nodes they have the same
    /// DAG cost from any roots.
    pub proof fn lemma_cheapest_have_equal_dag_cost(
        &self,
        other: &ExtractionResult,
        cf: CostFunction,
        egraph: &EGraph,
        costs: Map<ClassId, Cost>,
        roots: Seq<ClassId>,
    )
        requires
            self.realizes(cf, egraph, costs),
            other.optimal_for(cf, egraph),
            untied(cf, egraph, costs),
        ensures
            self.dag_cost_spec(egraph, roots) == other.dag_cost_spec(egraph, roots),
    {
        self.lemma_cheapest_agree_on_choices(other, cf, egraph, costs);
        self.lemma_dag_cost_same_choices(other, egraph, roots);
    }

    /// Under the sum of costs, a cheapest selection's class cost is the
    /// exact tree cost of the class.
    pub proof fn lemma_sum_cost_is_tree_cost(
        &self,
        egraph: &EGraph,
        costs: Map<ClassId, Cost>,
        rank: spec_fn(ClassId) -> nat,
        c: ClassId,
        k: nat,
    )
        requires
            self.realizes(CostFunction::NodeSum, egraph, costs),
            self.ranked(egraph, self@.dom(), rank),
            costs.contains_key(c),
            k <= self.arity(egraph, c),
        ensures
            self.tree_children(egraph, rank, c, k) == children_sum(
                egraph,
                egraph.nodes@[self@[c] as int].children@.take(k as int),
                costs,
            ),
            k == self.arity(egraph, c) ==> self.tree_cost_of(egraph, rank, c) == costs[c],
        decreases rank(c), k,
    {
        let node = &egraph.nodes@[self@[c] as int];
        let children = node.children@;
        assert(node_cost(CostFunction::NodeSum, egraph, node, costs) == costs[c]);
        assert(costs[c] < INFINITY);
        if k > 0 {
            let d = self.dependency(egraph, c, k - 1);
            self.lemma_sum_cost_is_tree_cost(egraph, costs, rank, c, (k - 1) as nat);
            assert(children.take(k as int).drop_last() =~= children.take(k - 1));
            assert(self@.dom().contains(c));
            assert(rank(d) < rank(c));
            lemma_child_le_children_cost(CostFunction::NodeSum, egraph, children, costs, k - 1);
            lemma_children_cost_nonnegative(CostFunction::NodeSum, egraph, children, costs);
            assert(costs.contains_key(d));
            self.lemma_sum_cost_is_tree_cost(
                egraph,
                costs,
                rank,
                d,
                self.arity(egraph, d) as nat,
            );
        }
        if k == self.arity(egraph, c) {
            assert(children.take(k as int) =~= children);
            lemma_children_cost_nonnegative(CostFunction::NodeSum, egraph, children, costs);
        }
    }

    /// Under the sum of costs, the summed tree costs of roots that all have
    /// a choice are the summed class costs, whatever the selection.
    pub proof fn lemma_sum_cost_tree_roots(
        &self,
        other: &ExtractionResult,
        egraph: &EGraph,
        costs: Map<ClassId, Cost>,
        rank: spec_fn(ClassId) -> nat,
        other_rank: spec_fn(ClassId) -> nat,
        roots: Seq<ClassId>,
    )
        requires
            self.realizes(CostFunction::NodeSum, egraph, costs),
            other.realizes(CostFunction::NodeSum, egraph, costs),
            self.ranked(egraph, self@.dom(), rank),
            other.ranked(egraph, other@.dom(), other_rank),
            forall|i: int| 0 <= i < roots.len() ==> costs.contains_key(#[trigger] roots[i]),
        ensures
            self.tree_roots(egraph, rank, roots) == other.tree_roots(egraph, other_rank, roots),
        decreases roots.len(),
    {
        if roots.len() > 0 {
            let rest = roots.drop_last();
            let last = roots.last();
            assert(costs.contains_key(roots[roots.len() - 1]));
            assert forall|i: int| 0 <= i < rest.len() implies costs.contains_key(
                #[trigger] rest[i],
            ) by {
                assert(rest[i] == roots[i]);
            }
            self.lemma_sum_cost_tree_roots(other, egraph, costs, rank, other_rank, rest);
            self.lemma_sum_cost_is_tree_cost(
                egraph,
                costs,
                rank,
                last,
                self.arity(egraph, last) as nat,
            );
            other.lemma_sum_cost_is_tree_cost(
                egraph,
                costs,
                other_rank,
                last,
                other.arity(egraph, last) as nat,
            );
        }
    }

    /// Same fixed point, whatever the order of the work: under the sum of
    /// costs, two cheapest selections without a cycle have the same tree
    /// cost from any roots that have a choice.
    pub proof fn lemma_cheapest_have_equal_tree_cost(
        &self,
        other: &ExtractionResult,
        egraph: &EGraph,
        roots: Seq<ClassId>,
    )
        requires
            self.optimal_for(CostFunction::NodeSum, egraph),
            other.optimal_for(CostFunction::NodeSum, egraph),
            self.acyclic(egraph),
            other.acyclic(egraph),
            forall|i: int| 0 <= i < roots.len() ==> self@.contains_key(#[trigger] roots[i]),
        ensures
            self.valid_from(egraph, roots),
            other.valid_from(egraph, roots),
            self.tree_cost_spec(egraph, roots) == other.tree_cost_spec(egraph, roots),
    {
        let cf = CostFunction::NodeSum;
        let costs = choose|m: Map<ClassId, Cost>| self.realizes(cf, egraph, m);
        let other_costs = choose|m: Map<ClassId, Cost>| other.realizes(cf, egraph, m);
        lemma_best_costs_unique(cf, egraph, costs, other_costs);
        let rank = choose|rank: spec_fn(ClassId) -> nat| self.ranked(egraph, self@.dom(), rank);
        let other_rank = choose|rank: spec_fn(ClassId) -> nat|
            other.ranked(egraph, other@.dom(), rank);
        assert forall|i: int| 0 <= i < roots.len() implies costs.contains_key(
            #[trigger] roots[i],
        ) && self@.dom().contains(roots[i]) && other@.dom().contains(roots[i]) by {
            assert(self@.contains_key(roots[i]));
        }
        assert(self.witnessed_by(egraph, roots, self@.dom(), rank));
        assert(other.witnessed_by(egraph, roots, other@.dom(), other_rank));
        self.lemma_tree_cost_spec_by(egraph, roots, self@.dom(), rank);
        other.lemma_tree_cost_spec_by(egraph, roots, other@.dom(), other_rank);
        self.lemma_sum_cost_tree_roots(other, egraph, costs, rank, other_rank, roots);
    }
}

} // verus!
