//! What it means for a selection of nodes to be usable: every class that
//! the roots depend on has a choice, and no class depends on itself.

use crate::extraction_result::ExtractionResult;
use crate::graph::{ClassId, EGraph};
use vstd::prelude::*;

verus! {

impl ExtractionResult {
    /// Class `c` has a choice, and the chosen node is a node of `c`.
    pub open spec fn chosen_ok(&self, egraph: &EGraph, c: ClassId) -> bool {
        &&& self@.contains_key(c)
        &&& self@[c] < egraph.nodes@.len()
        &&& egraph.nodes@[self@[c] as int].eclass == c
    }

    /// The number of children of the node chosen for `c`.
    pub open spec fn arity(&self, egraph: &EGraph, c: ClassId) -> int {
        egraph.nodes@[self@[c] as int].children@.len() as int
    }

    /// The class of child `k` of the node chosen for `c`: a class that `c`
    /// depends on.
    pub open spec fn dependency(&self, egraph: &EGraph, c: ClassId, k: int) -> ClassId {
        egraph.child_class(self@[c] as int, k)
    }

    /// Every class in `s` has a proper choice, and `s` holds every class
    /// that one of its classes depends on.
    pub open spec fn closed(&self, egraph: &EGraph, s: Set<ClassId>) -> bool {
        &&& forall|c: ClassId| #[trigger] s.contains(c) ==> self.chosen_ok(egraph, c)
        &&& forall|c: ClassId, k: int|
            s.contains(c) && 0 <= k < self.arity(egraph, c) ==> s.contains(
                #[trigger] self.dependency(egraph, c, k),
            )
    }

    /// Within `s`, every class ranks strictly above the classes it depends
    /// on. Such a ranking exists exactly when no class of `s` depends on
    /// itself, directly or through others.
    pub open spec fn ranked(
        &self,
        egraph: &EGraph,
        s: Set<ClassId>,
        rank: spec_fn(ClassId) -> nat,
    ) -> bool {
        forall|c: ClassId, k: int|
            s.contains(c) && 0 <= k < self.arity(egraph, c) ==> rank(#[trigger] self.dependency(
                egraph,
                c,
                k,
            )) < rank(c)
    }

    /// `s` and `rank` show that the selection is usable from `roots`: `s`
    /// holds the roots and all they depend on, each with a proper choice,
    /// and `rank` orders `s` without a cycle.
    pub open spec fn witnessed_by(
        &self,
        egraph: &EGraph,
        roots: Seq<ClassId>,
        s: Set<ClassId>,
        rank: spec_fn(ClassId) -> nat,
    ) -> bool {
        &&& forall|i: int| 0 <= i < roots.len() ==> s.contains(#[trigger] roots[i])
        &&& self.closed(egraph, s)
        &&& self.ranked(egraph, s, rank)
    }

    /// The selection is valid from `roots`: every class that the roots
    /// depend on, directly or through other classes, has a choice among its
    /// own nodes, and the chosen nodes form no cycle.
    pub open spec fn valid_from(&self, egraph: &EGraph, roots: Seq<ClassId>) -> bool {
        exists|s: Set<ClassId>, rank: spec_fn(ClassId) -> nat|
            self.witnessed_by(egraph, roots, s, rank)
    }
}

} // verus!
