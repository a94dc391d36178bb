//! What every extractor that involves no chance offers.

use crate::cost::CostFunction;
use crate::extraction_result::ExtractionResult;
use crate::graph::{ClassId, EGraph};
use vstd::prelude::*;

verus! {

/// An extractor: it chooses a node for every class of a graph that can be
/// built.
pub trait Extractor {
    /// A cheapest selection under the cost function named `cost_function`
    /// (`node_sum_cost` or `node_depth_cost`), without a cycle.
    ///
    /// An unknown name is the caller's error; look names up with
    /// [`CostFunction::from_name`] first.
    fn extract(
        &self,
        egraph: &EGraph,
        roots: &[ClassId],
        cost_function: &str,
        random_prob: u32,
    ) -> (result: ExtractionResult)
        requires
            egraph.well_formed(),
            CostFunction::named(cost_function@) is Some,
        ensures
            result.optimal_for(CostFunction::named(cost_function@)->Some_0, egraph),
            result.acyclic(egraph),
    ;
}

} // verus!
