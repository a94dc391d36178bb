//! Node costs: how the cost of a node follows from the best known costs of
//! the classes of its children.

use crate::choices::{choice_entries, choices_get, entries_map};
use crate::fx_tables::costs_get;
use crate::graph::{ClassId, Cost, EGraph, Node, NodeId, INFINITY};
use indexmap::IndexMap;
use rustc_hash::FxHashMap;
use std::collections::HashMap;
use vstd::prelude::*;

verus! {

/// A marker for the cost model of extraction; it holds nothing.
#[allow(non_camel_case_types)]
pub struct Cost_extract {}

/// The way a node's own cost and its children's costs combine.
#[derive(Clone, Copy, PartialEq, Eq, Structural, Debug)]
pub enum CostFunction {
    /// Own cost plus the sum of the children's costs (area).
    NodeSum,
    /// Own cost plus the largest of the children's costs (depth).
    NodeDepth,
}

/// `x` cut off at [`INFINITY`].
pub open spec fn saturate(x: int) -> Cost {
    if x >= INFINITY {
        INFINITY
    } else if x < 0 {
        0
    } else {
        x as Cost
    }
}

/// The best known cost of class `c`; a class without an entry counts as
/// infinitely expensive.
pub open spec fn cost_or_infinity(costs: Map<ClassId, Cost>, c: ClassId) -> Cost {
    if costs.contains_key(c) {
        costs[c]
    } else {
        INFINITY
    }
}

/// The exact sum of the known costs of the classes of `children`.
pub open spec fn children_sum(
    egraph: &EGraph,
    children: Seq<NodeId>,
    costs: Map<ClassId, Cost>,
) -> int
    decreases children.len(),
{
    if children.len() == 0 {
        0
    } else {
        children_sum(egraph, children.drop_last(), costs) + cost_or_infinity(
            costs,
            egraph.nodes@[children.last() as int].eclass,
        )
    }
}

/// The largest known cost among the classes of `children`, 0 if there are
/// none.
pub open spec fn children_max(
    egraph: &EGraph,
    children: Seq<NodeId>,
    costs: Map<ClassId, Cost>,
) -> int
    decreases children.len(),
{
    if children.len() == 0 {
        0
    } else {
        let rest = children_max(egraph, children.drop_last(), costs);
        let last = cost_or_infinity(costs, egraph.nodes@[children.last() as int].eclass);
        if last > rest {
            last as int
        } else {
            rest
        }
    }
}

/// What the children of a node contribute under `cf`.
pub open spec fn children_cost(
    cf: CostFunction,
    egraph: &EGraph,
    children: Seq<NodeId>,
    costs: Map<ClassId, Cost>,
) -> int {
    match cf {
        CostFunction::NodeSum => children_sum(egraph, children, costs),
        CostFunction::NodeDepth => children_max(egraph, children, costs),
    }
}

/// The cost of `node` under `cf`, given the best known class costs.
pub open spec fn node_cost(
    cf: CostFunction,
    egraph: &EGraph,
    node: &Node,
    costs: Map<ClassId, Cost>,
) -> Cost {
    saturate(node.cost + children_cost(cf, egraph, node.children@, costs))
}

/// `costs` is nowhere above `other`.
pub open spec fn pointwise_le(costs: Map<ClassId, Cost>, other: Map<ClassId, Cost>) -> bool {
    forall|c: ClassId| #[trigger] cost_or_infinity(costs, c) <= cost_or_infinity(other, c)
}

impl CostFunction {
    /// The cost function that goes by `name`, if there is one.
    pub open spec fn named(name: Seq<char>) -> Option<CostFunction> {
        if name == "node_sum_cost"@ {
            Some(CostFunction::NodeSum)
        } else if name == "node_depth_cost"@ {
            Some(CostFunction::NodeDepth)
        } else {
            None
        }
    }

    /// Looks a cost function up by its name: `node_sum_cost` or
    /// `node_depth_cost`.
    pub fn from_name(name: &str) -> (cf: Option<CostFunction>)
        ensures
            cf == Self::named(name@),
    {
        let owned: String = name.to_owned();
        if owned == "node_sum_cost".to_owned() {
            Some(CostFunction::NodeSum)
        } else if owned == "node_depth_cost".to_owned() {
            Some(CostFunction::NodeDepth)
        } else {
            None
        }
    }
}

/// The children's contribution is never negative.
pub proof fn lemma_children_cost_nonnegative(
    cf: CostFunction,
    egraph: &EGraph,
    children: Seq<NodeId>,
    costs: Map<ClassId, Cost>,
)
    ensures
        children_cost(cf, egraph, children, costs) >= 0,
    decreases children.len(),
{
    if children.len() > 0 {
        lemma_children_cost_nonnegative(cf, egraph, children.drop_last(), costs);
    }
}

/// Each child's class cost is at most the children's contribution.
pub proof fn lemma_child_le_children_cost(
    cf: CostFunction,
    egraph: &EGraph,
    children: Seq<NodeId>,
    costs: Map<ClassId, Cost>,
    k: int,
)
    requires
        0 <= k < children.len(),
    ensures
        cost_or_infinity(costs, egraph.nodes@[children[k] as int].eclass) <= children_cost(
            cf,
            egraph,
            children,
            costs,
        ),
    decreases children.len(),
{
    lemma_children_cost_nonnegative(cf, egraph, children.drop_last(), costs);
    if k < children.len() - 1 {
        lemma_child_le_children_cost(cf, egraph, children.drop_last(), costs, k);
    }
}

/// Lower class costs never make the children's contribution higher.
pub proof fn lemma_children_cost_monotone(
    cf: CostFunction,
    egraph: &EGraph,
    children: Seq<NodeId>,
    low: Map<ClassId, Cost>,
    high: Map<ClassId, Cost>,
)
    requires
        pointwise_le(low, high),
    ensures
        children_cost(cf, egraph, children, low) <= children_cost(cf, egraph, children, high),
    decreases children.len(),
{
    if children.len() > 0 {
        lemma_children_cost_monotone(cf, egraph, children.drop_last(), low, high);
        let c = egraph.nodes@[children.last() as int].eclass;
        assert(cost_or_infinity(low, c) <= cost_or_infinity(high, c));
    }
}

/// Lower class costs never make a node more expensive.
pub proof fn lemma_node_cost_monotone(
    cf: CostFunction,
    egraph: &EGraph,
    node: &Node,
    low: Map<ClassId, Cost>,
    high: Map<ClassId, Cost>,
)
    requires
        pointwise_le(low, high),
    ensures
        node_cost(cf, egraph, node, low) <= node_cost(cf, egraph, node, high),
{
    lemma_children_cost_monotone(cf, egraph, node.children@, low, high);
}

/// The children's contribution depends only on the costs of the children's
/// classes.
pub proof fn lemma_children_cost_local(
    cf: CostFunction,
    egraph: &EGraph,
    children: Seq<NodeId>,
    a: Map<ClassId, Cost>,
    b: Map<ClassId, Cost>,
)
    requires
        forall|k: int|
            0 <= k < children.len() ==> cost_or_infinity(
                a,
                #[trigger] egraph.nodes@[children[k] as int].eclass,
            ) == cost_or_infinity(b, egraph.nodes@[children[k] as int].eclass),
    ensures
        children_cost(cf, egraph, children, a) == children_cost(cf, egraph, children, b),
    decreases children.len(),
{
    if children.len() > 0 {
        let rest = children.drop_last();
        assert forall|k: int| 0 <= k < rest.len() implies cost_or_infinity(
            a,
            #[trigger] egraph.nodes@[rest[k] as int].eclass,
        ) == cost_or_infinity(b, egraph.nodes@[rest[k] as int].eclass) by {
            assert(rest[k] == children[k]);
        }
        lemma_children_cost_local(cf, egraph, rest, a, b);
        assert(children.last() == children[children.len() - 1]);
    }
}

/// A node of finite cost has only children whose classes have a known,
/// finite cost, none of them above the node's.
pub proof fn lemma_finite_node_has_known_children(
    cf: CostFunction,
    egraph: &EGraph,
    node: &Node,
    costs: Map<ClassId, Cost>,
    k: int,
)
    requires
        node_cost(cf, egraph, node, costs) < INFINITY,
        0 <= k < node.children@.len(),
    ensures
        costs.contains_key(egraph.nodes@[node.children@[k] as int].eclass),
        costs[egraph.nodes@[node.children@[k] as int].eclass] <= node_cost(
            cf,
            egraph,
            node,
            costs,
        ),
{
    lemma_child_le_children_cost(cf, egraph, node.children@, costs, k);
    lemma_children_cost_nonnegative(cf, egraph, node.children@, costs);
}

/// Read access to a map, whatever kind of map it is.
pub trait MapGet<K, V> {
    /// What the map holds.
    spec fn as_map(&self) -> Map<K, V>;

    /// The value stored for `key`, if there is one.
    fn get(&self, key: &K) -> (value: Option<&V>)
        ensures
            value == if self.as_map().contains_key(*key) {
                Some(&self.as_map()[*key])
            } else {
                None
            },
    ;
}

impl<V> MapGet<usize, V> for HashMap<usize, V> {
    open spec fn as_map(&self) -> Map<usize, V> {
        self@
    }

    fn get(&self, key: &usize) -> (value: Option<&V>) {
        broadcast use vstd::std_specs::hash::group_hash_axioms;

        HashMap::get(self, key)
    }
}

impl MapGet<ClassId, Cost> for FxHashMap<ClassId, Cost> {
    open spec fn as_map(&self) -> Map<ClassId, Cost> {
        self@
    }

    fn get(&self, key: &ClassId) -> (value: Option<&Cost>) {
        costs_get(self, key)
    }
}

impl MapGet<usize, usize> for IndexMap<usize, usize> {
    open spec fn as_map(&self) -> Map<usize, usize> {
        entries_map(choice_entries(*self))
    }

    fn get(&self, key: &usize) -> (value: Option<&usize>) {
        choices_get(self, key)
    }
}

/// The cost of class `cid` according to `costs`, [`INFINITY`] if `costs`
/// has no entry for it.
pub fn known_cost<M: MapGet<ClassId, Cost>>(costs: &M, cid: ClassId) -> (cost: Cost)
    ensures
        cost == cost_or_infinity(costs.as_map(), cid),
{
    match costs.get(&cid) {
        Some(c) => *c,
        None => INFINITY,
    }
}

/// Cutting off before adding one more term is the same as cutting off
/// afterwards.
pub proof fn lemma_saturate_add(x: int, y: int)
    requires
        0 <= x,
        0 <= y <= INFINITY,
    ensures
        saturate(saturate(x) + y) == saturate(x + y),
{
}

} // verus!
