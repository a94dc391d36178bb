//! How the two cost measures relate: sharing can only lower the cost, so
//! the DAG cost of a valid selection never exceeds its tree cost.

use crate::cost::saturate;
use crate::extraction_result::ExtractionResult;
use crate::graph::{ClassId, EGraph};
use vstd::prelude::*;

verus! {

impl ExtractionResult {
    /// Class `c` and everything it depends on, directly or through other
    /// classes.
    pub open spec fn below_of(
        &self,
        egraph: &EGraph,
        rank: spec_fn(ClassId) -> nat,
        c: ClassId,
    ) -> Set<ClassId>
        decreases rank(c), 1nat, 0nat,
    {
        Set::<ClassId>::empty().insert(c).union(
            self.below_children(egraph, rank, c, self.arity(egraph, c) as nat),
        )
    }

    /// The first `k` dependencies of `c` and everything they depend on.
    pub open spec fn below_children(
        &self,
        egraph: &EGraph,
        rank: spec_fn(ClassId) -> nat,
        c: ClassId,
        k: nat,
    ) -> Set<ClassId>
        decreases rank(c), 0nat, k,
    {
        if k == 0 {
            Set::<ClassId>::empty()
        } else {
            let d = self.dependency(egraph, c, k - 1);
            self.below_children(egraph, rank, c, (k - 1) as nat).union(
                if rank(d) < rank(c) {
                    self.below_of(egraph, rank, d)
                } else {
                    Set::<ClassId>::empty()
                },
            )
        }
    }

    /// The roots and everything they depend on.
    pub open spec fn below_roots(
        &self,
        egraph: &EGraph,
        rank: spec_fn(ClassId) -> nat,
        roots: Seq<ClassId>,
    ) -> Set<ClassId>
        decreases roots.len(),
    {
        if roots.len() == 0 {
            Set::<ClassId>::empty()
        } else {
            self.below_roots(egraph, rank, roots.drop_last()).union(
                self.below_of(egraph, rank, roots.last()),
            )
        }
    }

    /// Counting each class below `c` once costs no more than the tree cost
    /// of `c`.
    pub proof fn lemma_below_sum_le_tree(
        &self,
        egraph: &EGraph,
        rank: spec_fn(ClassId) -> nat,
        c: ClassId,
        k: nat,
        n: nat,
    )
        requires
            n <= usize::MAX,
        ensures
            self.sum_below(egraph, self.below_children(egraph, rank, c, k), n)
                <= self.tree_children(egraph, rank, c, k),
            k == self.arity(egraph, c) ==> self.sum_below(
                egraph,
                self.below_of(egraph, rank, c),
                n,
            ) <= self.tree_cost_of(egraph, rank, c),
        decreases rank(c), k,
    {
        if k == 0 {
            self.lemma_sum_below_empty(egraph, n);
        } else {
            let d = self.dependency(egraph, c, k - 1);
            let rest = self.below_children(egraph, rank, c, (k - 1) as nat);
            self.lemma_below_sum_le_tree(egraph, rank, c, (k - 1) as nat, n);
            if rank(d) < rank(c) {
                self.lemma_below_sum_le_tree(egraph, rank, d, self.arity(egraph, d) as nat, n);
                self.lemma_sum_below_union(egraph, rest, self.below_of(egraph, rank, d), n);
            } else {
                assert(rest.union(Set::<ClassId>::empty()) =~= rest);
            }
        }
        if k == self.arity(egraph, c) {
            let only = Set::<ClassId>::empty().insert(c);
            let children = self.below_children(egraph, rank, c, k);
            self.lemma_sum_below_empty(egraph, n);
            self.lemma_sum_below_insert(egraph, Set::<ClassId>::empty(), n, c);
            self.lemma_sum_below_union(egraph, only, children, n);
        }
    }

    /// The classes below `c` all have a proper choice, and with each class
    /// they hold what that class depends on.
    #[verifier::rlimit(60)]
    pub proof fn lemma_below_closed(
        &self,
        egraph: &EGraph,
        s: Set<ClassId>,
        rank: spec_fn(ClassId) -> nat,
        c: ClassId,
        k: nat,
    )
        requires
            self.closed(egraph, s),
            self.ranked(egraph, s, rank),
            s.contains(c),
            k <= self.arity(egraph, c),
        ensures
            forall|j: int|
                0 <= j < k ==> self.below_children(egraph, rank, c, k).contains(
                    #[trigger] self.dependency(egraph, c, j),
                ),
            forall|d: ClassId| #[trigger]
                self.below_children(egraph, rank, c, k).contains(d) ==> s.contains(d),
            forall|d: ClassId, j: int|
                self.below_children(egraph, rank, c, k).contains(d) && 0 <= j < self.arity(
                    egraph,
                    d,
                ) ==> self.below_children(egraph, rank, c, k).contains(
                    #[trigger] self.dependency(egraph, d, j),
                ),
            k == self.arity(egraph, c) ==> self.closed(egraph, self.below_of(egraph, rank, c)),
            k == self.arity(egraph, c) ==> self.below_of(egraph, rank, c).contains(c),
        decreases rank(c), k,
    {
        let here = self.below_children(egraph, rank, c, k);
        if k > 0 {
            let d = self.dependency(egraph, c, k - 1);
            let rest = self.below_children(egraph, rank, c, (k - 1) as nat);
            self.lemma_below_closed(egraph, s, rank, c, (k - 1) as nat);
            assert(s.contains(d));
            assert(rank(d) < rank(c));
            self.lemma_below_closed(egraph, s, rank, d, self.arity(egraph, d) as nat);
            let below_d = self.below_of(egraph, rank, d);
            assert(here == rest.union(below_d));
            assert forall|e: ClassId, j: int|
                here.contains(e) && 0 <= j < self.arity(egraph, e) implies here.contains(
                #[trigger] self.dependency(egraph, e, j),
            ) by {
                if rest.contains(e) {
                    assert(rest.contains(self.dependency(egraph, e, j)));
                } else {
                    assert(below_d.contains(e));
                    assert(below_d.contains(self.dependency(egraph, e, j)));
                }
            }
            assert forall|e: ClassId| #[trigger] here.contains(e) implies s.contains(e) by {
                if !rest.contains(e) {
                    assert(below_d.contains(e));
                }
            }
            assert forall|j: int| 0 <= j < k implies here.contains(
                #[trigger] self.dependency(egraph, c, j),
            ) by {
                if j < k - 1 {
                    assert(rest.contains(self.dependency(egraph, c, j)));
                } else {
                    assert(below_d.contains(d));
                }
            }
        }
        if k == self.arity(egraph, c) {
            let all = self.below_of(egraph, rank, c);
            assert(all == Set::<ClassId>::empty().insert(c).union(here));
            assert forall|e: ClassId| #[trigger] all.contains(e) implies self.chosen_ok(
                egraph,
                e,
            ) by {
                if e != c {
                    assert(here.contains(e));
                }
            }
            assert forall|e: ClassId, j: int|
                all.contains(e) && 0 <= j < self.arity(egraph, e) implies all.contains(
                #[trigger] self.dependency(egraph, e, j),
            ) by {
                if e != c {
                    assert(here.contains(e));
                    assert(here.contains(self.dependency(egraph, e, j)));
                } else {
                    assert(here.contains(self.dependency(egraph, c, j)));
                }
            }
        }
    }

    /// The roots and what lies below them cover the roots, and counting
    /// each of these classes once costs no more than the roots' tree costs.
    #[verifier::rlimit(60)]
    pub proof fn lemma_below_roots(
        &self,
        egraph: &EGraph,
        s: Set<ClassId>,
        rank: spec_fn(ClassId) -> nat,
        roots: Seq<ClassId>,
        n: nat,
    )
        requires
            self.witnessed_by(egraph, roots, s, rank),
            n <= usize::MAX,
        ensures
            self.covers(egraph, roots, self.below_roots(egraph, rank, roots)),
            self.sum_below(egraph, self.below_roots(egraph, rank, roots), n) <= self.tree_roots(
                egraph,
                rank,
                roots,
            ),
        decreases roots.len(),
    {
        let all = self.below_roots(egraph, rank, roots);
        if roots.len() == 0 {
            self.lemma_sum_below_empty(egraph, n);
        } else {
            let rest = roots.drop_last();
            let last = roots.last();
            assert(s.contains(roots[roots.len() - 1]));
            assert forall|i: int| 0 <= i < rest.len() implies s.contains(#[trigger] rest[i]) by {
                assert(rest[i] == roots[i]);
            }
            self.lemma_below_roots(egraph, s, rank, rest, n);
            self.lemma_below_closed(egraph, s, rank, last, self.arity(egraph, last) as nat);
            self.lemma_below_sum_le_tree(egraph, rank, last, self.arity(egraph, last) as nat, n);
            let below_rest = self.below_roots(egraph, rank, rest);
            let below_last = self.below_of(egraph, rank, last);
            self.lemma_sum_below_union(egraph, below_rest, below_last, n);
            assert forall|i: int| 0 <= i < roots.len() implies all.contains(
                #[trigger] roots[i],
            ) by {
                if i < rest.len() {
                    assert(rest[i] == roots[i]);
                    assert(below_rest.contains(rest[i]));
                }
            }
            assert forall|e: ClassId| #[trigger] all.contains(e) implies self.chosen_ok(
                egraph,
                e,
            ) by {
                if below_rest.contains(e) {
                } else {
                    assert(below_last.contains(e));
                }
            }
            assert forall|e: ClassId, j: int|
                all.contains(e) && 0 <= j < self.arity(egraph, e) implies all.contains(
                #[trigger] self.dependency(egraph, e, j),
            ) by {
                if below_rest.contains(e) {
                    assert(below_rest.contains(self.dependency(egraph, e, j)));
                } else {
                    assert(below_last.contains(e));
                    assert(below_last.contains(self.dependency(egraph, e, j)));
                }
            }
        }
    }

    /// The tree cost of a class does not depend on which ranking unfolds
    /// it.
    pub proof fn lemma_tree_cost_any_ranking(
        &self,
        egraph: &EGraph,
        s1: Set<ClassId>,
        rank1: spec_fn(ClassId) -> nat,
        s2: Set<ClassId>,
        rank2: spec_fn(ClassId) -> nat,
        c: ClassId,
        k: nat,
    )
        requires
            self.closed(egraph, s1),
            self.ranked(egraph, s1, rank1),
            self.closed(egraph, s2),
            self.ranked(egraph, s2, rank2),
            s1.contains(c),
            s2.contains(c),
            k <= self.arity(egraph, c),
        ensures
            self.tree_children(egraph, rank1, c, k) == self.tree_children(egraph, rank2, c, k),
            k == self.arity(egraph, c) ==> self.tree_cost_of(egraph, rank1, c)
                == self.tree_cost_of(egraph, rank2, c),
        decreases rank1(c), k,
    {
        if k > 0 {
            let d = self.dependency(egraph, c, k - 1);
            self.lemma_tree_cost_any_ranking(egraph, s1, rank1, s2, rank2, c, (k - 1) as nat);
            assert(s1.contains(d) && s2.contains(d));
            assert(rank1(d) < rank1(c) && rank2(d) < rank2(c));
            self.lemma_tree_cost_any_ranking(
                egraph,
                s1,
                rank1,
                s2,
                rank2,
                d,
                self.arity(egraph, d) as nat,
            );
        }
    }

    /// The summed tree costs of the roots do not depend on which ranking
    /// unfolds them.
    pub proof fn lemma_tree_roots_any_ranking(
        &self,
        egraph: &EGraph,
        s1: Set<ClassId>,
        rank1: spec_fn(ClassId) -> nat,
        s2: Set<ClassId>,
        rank2: spec_fn(ClassId) -> nat,
        roots: Seq<ClassId>,
    )
        requires
            self.witnessed_by(egraph, roots, s1, rank1),
            self.witnessed_by(egraph, roots, s2, rank2),
        ensures
            self.tree_roots(egraph, rank1, roots) == self.tree_roots(egraph, rank2, roots),
        decreases roots.len(),
    {
        if roots.len() > 0 {
            let rest = roots.drop_last();
            let last = roots.last();
            assert(s1.contains(roots[roots.len() - 1]) && s2.contains(roots[roots.len() - 1]));
            assert forall|i: int| 0 <= i < rest.len() implies s1.contains(#[trigger] rest[i])
                && s2.contains(rest[i]) by {
                assert(rest[i] == roots[i]);
            }
            self.lemma_tree_roots_any_ranking(egraph, s1, rank1, s2, rank2, rest);
            self.lemma_tree_cost_any_ranking(
                egraph,
                s1,
                rank1,
                s2,
                rank2,
                last,
                self.arity(egraph, last) as nat,
            );
        }
    }

    /// The tree cost of a valid selection can be computed with any ranking
    /// that shows it to be valid.
    pub proof fn lemma_tree_cost_spec_by(
        &self,
        egraph: &EGraph,
        roots: Seq<ClassId>,
        s: Set<ClassId>,
        rank: spec_fn(ClassId) -> nat,
    )
        requires
            self.witnessed_by(egraph, roots, s, rank),
        ensures
            self.tree_cost_spec(egraph, roots) == saturate(self.tree_roots(egraph, rank, roots)),
    {
        let (s0, rank0) = choose|s0: Set<ClassId>, rank0: spec_fn(ClassId) -> nat|
            self.witnessed_by(egraph, roots, s0, rank0);
        self.lemma_tree_roots_any_ranking(egraph, s0, rank0, s, rank, roots);
    }

    /// Sharing cannot increase cost: for a selection that is valid from
    /// `roots`, the DAG cost from `roots` is at most the tree cost from
    /// `roots`.
    pub proof fn lemma_dag_cost_le_tree_cost(&self, egraph: &EGraph, roots: Seq<ClassId>)
        requires
            egraph.well_formed(),
            self.valid_from(egraph, roots),
        ensures
            self.dag_cost_spec(egraph, roots) <= self.tree_cost_spec(egraph, roots),
    {
        let (s, rank) = choose|s: Set<ClassId>, rank: spec_fn(ClassId) -> nat|
            self.witnessed_by(egraph, roots, s, rank);
        let n = egraph.classes@.len() as nat;
        self.lemma_below_roots(egraph, s, rank, roots, n);
        let below = self.below_roots(egraph, rank, roots);
        let reached = self.reachable(egraph, roots);
        assert forall|c: ClassId| reached.contains(c) implies below.contains(c) by {
            assert(self.reaches(egraph, roots, c));
        }
        self.lemma_sum_below_subset(egraph, reached, below, n);
        self.lemma_sum_below_nonnegative(egraph, reached, n);
    }
}

} // verus!
