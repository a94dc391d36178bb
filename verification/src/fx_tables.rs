//! The hash tables of the extractors: the best known cost of each class,
//! and the set of the nodes that wait in a queue. Both use the `fx` hash
//! of `rustc_hash`, which hashes a key the same way in every run.

use crate::graph::{ClassId, Cost, NodeId};
use rustc_hash::{FxHashMap, FxHashSet};
use vstd::prelude::*;

verus! {

/// The hasher of `rustc_hash`. Nothing is read from it.
#[verifier::external_type_specification]
#[verifier::external_body]
pub struct ExFxHasher(rustc_hash::FxHasher);

/// The builder that makes a hasher by `Default`. Nothing is read from it.
#[verifier::external_type_specification]
#[verifier::external_body]
#[verifier::reject_recursive_types(H)]
pub struct ExBuildHasherDefault<H>(std::hash::BuildHasherDefault<H>);

/// `FxHashMap::default`: a map without entries.
#[verifier::external_body]
pub(crate) fn costs_new() -> (costs: FxHashMap<ClassId, Cost>)
    ensures
        costs@.dom() == Set::<ClassId>::empty(),
{
    FxHashMap::default()
}

/// `HashMap::insert`: afterwards the map holds `cost` for `class_id`, and
/// for every other key what it held before.
#[verifier::external_body]
pub(crate) fn costs_insert(costs: &mut FxHashMap<ClassId, Cost>, class_id: ClassId, cost: Cost)
    ensures
        final(costs)@ == old(costs)@.insert(class_id, cost),
{
    costs.insert(class_id, cost);
}

/// `HashMap::remove`: afterwards the map has no entry for `class_id`, and
/// for every other key what it held before.
#[verifier::external_body]
pub(crate) fn costs_remove(costs: &mut FxHashMap<ClassId, Cost>, class_id: ClassId)
    ensures
        final(costs)@ == old(costs)@.remove(class_id),
{
    costs.remove(&class_id);
}

/// `HashMap::get`: a reference to the value stored for the key, if the map
/// has an entry for it.
#[verifier::external_body]
pub(crate) fn costs_get<'a>(costs: &'a FxHashMap<ClassId, Cost>, class_id: &ClassId) -> (cost:
    Option<&'a Cost>)
    ensures
        cost == if costs@.contains_key(*class_id) {
            Some(&costs@[*class_id])
        } else {
            None
        },
{
    costs.get(class_id)
}

/// `HashMap::len`: the number of entries.
#[verifier::external_body]
pub(crate) fn costs_len(costs: &FxHashMap<ClassId, Cost>) -> (len: usize)
    ensures
        len == costs@.len(),
{
    costs.len()
}

/// `FxHashSet::default`: a set without elements.
#[verifier::external_body]
pub(crate) fn waiting_new() -> (waiting: FxHashSet<NodeId>)
    ensures
        waiting@ == Set::<NodeId>::empty(),
{
    FxHashSet::default()
}

/// `HashSet::insert`: afterwards the set holds `node_id`; the result says
/// whether it was new to the set.
#[verifier::external_body]
pub(crate) fn waiting_insert(waiting: &mut FxHashSet<NodeId>, node_id: NodeId) -> (fresh: bool)
    ensures
        final(waiting)@ == old(waiting)@.insert(node_id),
        fresh == !old(waiting)@.contains(node_id),
{
    waiting.insert(node_id)
}

/// `HashSet::remove`: afterwards the set does not hold `node_id`, and
/// holds every other element that it held before.
#[verifier::external_body]
pub(crate) fn waiting_remove(waiting: &mut FxHashSet<NodeId>, node_id: NodeId)
    ensures
        final(waiting)@ == old(waiting)@.remove(node_id),
{
    waiting.remove(&node_id);
}

} // verus!
